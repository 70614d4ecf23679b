use vstd::prelude::*;

verus! {

// The manager keeps two secondary indices, both bucket maps from a key to a
// set of entity identifiers. They are backed by `hashbrown`'s hash map and
// hash set; Verus does not look inside those, so each index is held in a
// struct whose contents are named by an uninterpreted view function, and
// every method states its effect on that view.

/// The contents of a [`TagIndex`]: for each tag key that has a bucket, the
/// set of entity identifiers in that bucket.
pub uninterp spec fn tag_index_view(ix: TagIndex) -> Map<u64, Set<u64>>;

/// The contents of a [`ComboIndex`]: for each component-type combination
/// that has a bucket, the set of entity identifiers in that bucket.
pub uninterp spec fn combo_index_view(ix: ComboIndex) -> Map<Seq<u64>, Set<u64>>;

/// The bucket under `key` in `m`, or the empty set where no bucket exists.
pub open spec fn bucket_or_empty<K>(m: Map<K, Set<u64>>, key: K) -> Set<u64> {
    if m.contains_key(key) {
        m[key]
    } else {
        Set::empty()
    }
}

/// A bucket index from tag keys to sets of entity identifiers.
#[verifier::external_body]
pub struct TagIndex {
    inner: hashbrown::HashMap<u64, hashbrown::HashSet<u64>>,
}

impl TagIndex {
    /// Relies on `hashbrown::HashMap::new`: the new map is empty.
    #[verifier::external_body]
    pub fn new() -> (r: Self)
        ensures
            tag_index_view(r) =~= Map::empty(),
    {
        TagIndex { inner: hashbrown::HashMap::new() }
    }

    /// Relies on `hashbrown`'s `HashMap::entry`, `Entry::or_default` and
    /// `HashSet::insert`: after the call the bucket under `key` holds `id`
    /// besides what it held before; no other bucket changes.
    #[verifier::external_body]
    pub fn add(&mut self, key: u64, id: u64)
        ensures
            tag_index_view(*final(self)) == tag_index_view(*old(self)).insert(
                key,
                bucket_or_empty(tag_index_view(*old(self)), key).insert(id),
            ),
    {
        self.inner.entry(key).or_default().insert(id);
    }

    /// Relies on `hashbrown`'s `HashMap::get_mut` and `HashSet::remove`:
    /// `id` leaves the bucket under `key`; no other bucket changes, and an
    /// absent bucket stays absent.
    #[verifier::external_body]
    pub fn remove(&mut self, key: u64, id: u64)
        ensures
            tag_index_view(*final(self)) == if tag_index_view(*old(self)).contains_key(key) {
                tag_index_view(*old(self)).insert(key, tag_index_view(*old(self))[key].remove(id))
            } else {
                tag_index_view(*old(self))
            },
    {
        if let Some(bucket) = self.inner.get_mut(&key) {
            bucket.remove(&id);
        }
    }

    /// Relies on `hashbrown`'s `HashMap::get` and `HashSet::contains`.
    #[verifier::external_body]
    pub fn contains(&self, key: u64, id: u64) -> (r: bool)
        ensures
            r == (tag_index_view(*self).contains_key(key) && tag_index_view(*self)[key].contains(
                id,
            )),
    {
        match self.inner.get(&key) {
            Some(bucket) => bucket.contains(&id),
            None => false,
        }
    }

    /// Relies on `hashbrown`'s `HashMap::get` and `HashSet::iter`: every
    /// element of the bucket under `key` comes out exactly once. The order
    /// is the hash set's own and is not promised.
    #[verifier::external_body]
    pub fn ids(&self, key: u64) -> (r: Vec<u64>)
        ensures
            r@.no_duplicates(),
            r@.to_set() == bucket_or_empty(tag_index_view(*self), key),
    {
        match self.inner.get(&key) {
            Some(bucket) => bucket.iter().copied().collect(),
            None => Vec::new(),
        }
    }
}

/// A bucket index from component-type combinations (strictly sorted lists of
/// type identities) to sets of entity identifiers.
#[verifier::external_body]
pub struct ComboIndex {
    inner: hashbrown::HashMap<Vec<u64>, hashbrown::HashSet<u64>>,
}

impl ComboIndex {
    /// Relies on `hashbrown::HashMap::new`: the new map is empty.
    #[verifier::external_body]
    pub fn new() -> (r: Self)
        ensures
            combo_index_view(r) =~= Map::empty(),
    {
        ComboIndex { inner: hashbrown::HashMap::new() }
    }

    /// Relies on `hashbrown`'s `HashMap::entry`, `Entry::or_default` and
    /// `HashSet::insert`: after the call the bucket under `key` holds `id`
    /// besides what it held before; no other bucket changes.
    #[verifier::external_body]
    pub fn add(&mut self, key: &Vec<u64>, id: u64)
        ensures
            combo_index_view(*final(self)) == combo_index_view(*old(self)).insert(
                key@,
                bucket_or_empty(combo_index_view(*old(self)), key@).insert(id),
            ),
    {
        self.inner.entry(key.clone()).or_default().insert(id);
    }

    /// Relies on `hashbrown`'s `HashMap::get_mut` and `HashSet::remove`:
    /// `id` leaves the bucket under `key`; no other bucket changes, and an
    /// absent bucket stays absent.
    #[verifier::external_body]
    pub fn remove(&mut self, key: &Vec<u64>, id: u64)
        ensures
            combo_index_view(*final(self)) == if combo_index_view(*old(self)).contains_key(key@) {
                combo_index_view(*old(self)).insert(
                    key@,
                    combo_index_view(*old(self))[key@].remove(id),
                )
            } else {
                combo_index_view(*old(self))
            },
    {
        if let Some(bucket) = self.inner.get_mut(key) {
            bucket.remove(&id);
        }
    }

    /// Relies on `hashbrown`'s `HashMap::get` and `HashSet::contains`.
    #[verifier::external_body]
    pub fn contains(&self, key: &Vec<u64>, id: u64) -> (r: bool)
        ensures
            r == (combo_index_view(*self).contains_key(key@) && combo_index_view(
                *self,
            )[key@].contains(id)),
    {
        match self.inner.get(key) {
            Some(bucket) => bucket.contains(&id),
            None => false,
        }
    }

    /// Relies on `hashbrown`'s `HashMap::get` and `HashSet::iter`: every
    /// element of the bucket under `key` comes out exactly once. The order
    /// is the hash set's own and is not promised.
    #[verifier::external_body]
    pub fn ids(&self, key: &Vec<u64>) -> (r: Vec<u64>)
        ensures
            r@.no_duplicates(),
            r@.to_set() == bucket_or_empty(combo_index_view(*self), key@),
    {
        match self.inner.get(key) {
            Some(bucket) => bucket.iter().copied().collect(),
            None => Vec::new(),
        }
    }

    /// Relies on `hashbrown`'s `HashMap::len`: the number of buckets,
    /// empty buckets included.
    #[verifier::external_body]
    pub fn bucket_count(&self) -> (r: usize)
        ensures
            combo_index_view(*self).dom().finite() ==> r == combo_index_view(*self).dom().len(),
    {
        self.inner.len()
    }
}

} // verus!
