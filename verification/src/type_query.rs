use vstd::prelude::*;

verus! {

use crate::Component;
use crate::entity::{Entity, copy_list, lemma_insert_sorted, lemma_insert_to_set, sorted_strict};

/// Anything that denotes a fixed, ordered list of component type
/// identities that entities can be queried for.
pub trait TypesQueryable {
    /// The denoted type identities, in result order.
    spec fn types_spec(&self) -> Seq<u64>;

    /// Returns the denoted type identities, in result order.
    fn types(&self) -> (r: Vec<u64>)
        ensures
            r@ == self.types_spec(),
    ;
}

/// A query descriptor: a fixed, ordered list of distinct component type
/// identities. It can produce the canonical (sorted) index key the list
/// denotes, and extract from an entity references to all of the listed
/// components, in list order, succeeding only where every one is present.
pub struct TypeQuery {
    /// The requested type identities, in the order results come back.
    pub types: Vec<u64>,
}

impl TypeQuery {
    /// The requested identity list, in request order.
    pub open spec fn list(self) -> Seq<u64> {
        self.types@
    }

    /// The set of identities the list denotes.
    pub open spec fn type_set(self) -> Set<u64> {
        self.types@.to_set()
    }

    /// Well-formedness: the listed identities are distinct.
    pub open spec fn wf(self) -> bool {
        self.types@.no_duplicates()
    }

    /// Builds a query from a list of distinct type identities.
    pub fn new(types: Vec<u64>) -> (q: Self)
        requires
            types@.no_duplicates(),
        ensures
            q.wf(),
            q.list() == types@,
    {
        TypeQuery { types }
    }

    /// Returns the canonical form of the list: the same identities,
    /// sorted ascending, fit to serve as an index key. Queries for the same
    /// identities in different orders canonicalize to the same key.
    pub fn get_types(&self) -> (r: Vec<u64>)
        requires
            self.wf(),
        ensures
            sorted_strict(r@),
            r@.to_set() == self.type_set(),
            r@.len() == self.list().len(),
    {
        let n = self.types.len();
        let mut r: Vec<u64> = Vec::new();
        let mut i: usize = 0;
        proof {
            assert(self.types@.subrange(0, 0).to_set() =~= r@.to_set());
        }
        while i < n
            invariant
                i <= n,
                n == self.types@.len(),
                self.wf(),
                sorted_strict(r@),
                r@.to_set() == self.types@.subrange(0, i as int).to_set(),
                r@.len() == i,
            decreases n - i,
        {
            let x = self.types[i];
            proof {
                // x has not come by yet, so it is in no position of r.
                if r@.to_set().contains(x) {
                    let j = choose|j: int|
                        0 <= j < self.types@.subrange(0, i as int).len()
                            && self.types@.subrange(0, i as int)[j] == x;
                    assert(self.types@[j] == self.types@[i as int]);
                }
                assert forall|j: int| 0 <= j < r@.len() implies r@[j] != x by {
                    if r@[j] == x {
                        assert(r@.to_set().contains(x));
                    }
                }
            }
            let m = r.len();
            let mut p: usize = 0;
            while p < m && r[p] < x
                invariant
                    p <= m,
                    m == r@.len(),
                    forall|j: int| 0 <= j < p ==> r@[j] < x,
                    forall|j: int| 0 <= j < r@.len() ==> r@[j] != x,
                    sorted_strict(r@),
                decreases m - p,
            {
                p += 1;
            }
            proof {
                assert forall|j: int| p <= j < m implies r@[j] > x by {
                    if j > p {
                        assert(r@[p as int] < r@[j]);
                    }
                }
                lemma_insert_sorted(r@, p as int, x);
                lemma_insert_to_set(r@, p as int, x);
                assert(self.types@.subrange(0, i + 1) =~= self.types@.subrange(0, i as int).push(
                    x,
                ));
                self.types@.subrange(0, i as int).lemma_push_to_set_commute(x);
            }
            r.insert(p, x);
            i += 1;
        }
        proof {
            assert(self.types@.subrange(0, n as int) =~= self.types@);
        }
        r
    }

    /// Extracts references to all of the listed components of `entity`, in
    /// list order, or nothing where any listed type is absent.
    pub fn query<'e, T, C: Component>(&self, entity: &'e Entity<T, C>) -> (r: Option<
        Vec<&'e C>,
    >)
        requires
            self.wf(),
            entity.wf(),
        ensures
            r.is_some() == self.type_set().subset_of(entity.kind_set()),
            r matches Some(v) ==> v@.len() == self.list().len() && forall|i: int|
                0 <= i < v@.len() ==> *(#[trigger] v@[i]) == entity.component_with(
                    self.list()[i],
                ),
    {
        entity.get_components(self)
    }
}

impl TypesQueryable for TypeQuery {
    open spec fn types_spec(&self) -> Seq<u64> {
        self.list()
    }

    fn types(&self) -> (r: Vec<u64>) {
        copy_list(&self.types)
    }
}

} // verus!
