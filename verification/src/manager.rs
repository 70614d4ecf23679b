use vstd::prelude::*;

verus! {

use crate::{Component, Tag};
use crate::entity::{Entity, EntityId, is_combination_of};
use crate::type_query::TypeQuery;
use crate::index::{ComboIndex, TagIndex, bucket_or_empty, combo_index_view, tag_index_view};

/// Whether some entity in the row `s` carries the identifier `id`.
pub open spec fn row_has_id<T, C>(s: Seq<Entity<T, C>>, id: u64) -> bool {
    exists|i: int| 0 <= i < s.len() && (#[trigger] s[i]).id == id
}

/// The position in the row `s` of the entity carrying `id`.
pub open spec fn row_index_of<T, C>(s: Seq<Entity<T, C>>, id: u64) -> int {
    choose|i: int| 0 <= i < s.len() && (#[trigger] s[i]).id == id
}

/// The entity in the row `s` carrying `id`.
pub open spec fn entity_of<T, C>(s: Seq<Entity<T, C>>, id: u64) -> Entity<T, C> {
    s[row_index_of(s, id)]
}

/// The identifiers of the row `s`, in row order.
pub open spec fn row_ids<T, C>(s: Seq<Entity<T, C>>) -> Seq<u64> {
    s.map_values(|e: Entity<T, C>| e.id)
}

/// The identifiers of a row of borrowed entities, in row order.
pub open spec fn ref_row_ids<T, C>(s: Seq<&Entity<T, C>>) -> Seq<u64> {
    s.map_values(|e: &Entity<T, C>| e.id)
}

/// Whether two rows agree on everything the secondary indices reflect:
/// length, identifiers, combination enumerations and tag keys. Liveness
/// marks and component values may differ.
pub open spec fn rows_index_equiv<T: Tag, C: Component>(
    a: Seq<Entity<T, C>>,
    b: Seq<Entity<T, C>>,
) -> bool {
    &&& a.len() == b.len()
    &&& (forall|i: int|
        0 <= i < a.len() ==> (#[trigger] a[i]).id == b[i].id && a[i].combos() == b[i].combos()
            && a[i].tag.tag_key_spec() == b[i].tag.tag_key_spec())
}

/// A mutable borrow of the entity at position `i` of a row.
fn row_entry_mut<'a, T, C>(row: &'a mut Vec<Entity<T, C>>, i: usize) -> (e: &'a mut Entity<T, C>)
    requires
        i < old(row).len(),
    ensures
        *e == old(row)@[i as int],
        final(row)@ == old(row)@.update(i as int, *final(e)),
{
    &mut row[i]
}

/// The authoritative store of entities: owns every entity it indexes,
/// buffers creations until the next commit, defers destructions to the next
/// commit, and answers queries by identifier, tag and component-type
/// combination through two secondary indices.
pub struct EntityManager<T, C> {
    /// The committed, live entities.
    pub entities: Vec<Entity<T, C>>,
    /// Secondary index: combination key to committed entity identifiers.
    pub component_index: ComboIndex,
    /// Secondary index: tag key to committed entity identifiers.
    pub tags: TagIndex,
    /// Entities created but not yet committed.
    pub pending_add: Vec<Entity<T, C>>,
    /// The next identifier to allocate; strictly increasing, never reused.
    pub size: u64,
    /// The tag given to entities created without an explicit one.
    pub default_tag: T,
}

impl<T: Tag, C: Component> EntityManager<T, C> {
    /// The committed entities, in row order.
    pub open spec fn live(self) -> Seq<Entity<T, C>> {
        self.entities@
    }

    /// The entities awaiting commitment, in creation order.
    pub open spec fn pending(self) -> Seq<Entity<T, C>> {
        self.pending_add@
    }

    /// The combination-index buckets.
    pub open spec fn combo_buckets(self) -> Map<Seq<u64>, Set<u64>> {
        combo_index_view(self.component_index)
    }

    /// The tag-index buckets.
    pub open spec fn tag_buckets(self) -> Map<u64, Set<u64>> {
        tag_index_view(self.tags)
    }

    /// Whether the committed entity carrying `id` exists and lists `k`
    /// among its component-type combinations.
    pub open spec fn live_combo_has(self, k: Seq<u64>, id: u64) -> bool {
        exists|i: int|
            0 <= i < self.live().len() && (#[trigger] self.live()[i]).id == id && self.live()[i]
                .combos().contains(k)
    }

    /// Whether the committed entity carrying `id` exists and carries a tag
    /// with key `t`.
    pub open spec fn live_tag_has(self, t: u64, id: u64) -> bool {
        exists|i: int|
            0 <= i < self.live().len() && (#[trigger] self.live()[i]).id == id && self.live()[i]
                .tag.tag_key_spec() == t
    }

    /// Well-formedness. Every stored entity is well-formed, carries an
    /// identifier below the allocation mark, and no identifier repeats; the
    /// two secondary indices hold exactly the committed entities — an
    /// identifier stands in a combination bucket exactly where the committed
    /// entity carrying it lists that combination, and in a tag bucket
    /// exactly where that entity's tag has that key. Pending entities and
    /// entities merely marked dead are not reflected in the indices either
    /// way until the next commit.
    pub open spec fn wf(self) -> bool {
        &&& (forall|i: int| 0 <= i < self.live().len() ==> (#[trigger] self.live()[i]).wf())
        &&& (forall|i: int| 0 <= i < self.pending().len() ==> (#[trigger] self.pending()[i]).wf())
        &&& (forall|i: int|
            0 <= i < self.live().len() ==> (#[trigger] self.live()[i]).id < self.size)
        &&& (forall|i: int|
            0 <= i < self.pending().len() ==> (#[trigger] self.pending()[i]).id < self.size)
        &&& row_ids(self.live()).no_duplicates()
        &&& row_ids(self.pending()).no_duplicates()
        &&& (forall|id: u64| row_has_id(self.live(), id) ==> !row_has_id(self.pending(), id))
        &&& (forall|k: Seq<u64>, id: u64|
            #[trigger] bucket_or_empty(self.combo_buckets(), k).contains(id)
                == self.live_combo_has(k, id))
        &&& (forall|t: u64, id: u64|
            #[trigger] bucket_or_empty(self.tag_buckets(), t).contains(id) == self.live_tag_has(
                t,
                id,
            ))
        &&& self.combo_buckets().dom().finite()
    }

    /// Creates an empty manager whose entities created without an explicit
    /// tag get `default_tag`.
    pub fn new(default_tag: T) -> (m: Self)
        ensures
            m.wf(),
            m.live() == Seq::<Entity<T, C>>::empty(),
            m.pending() == Seq::<Entity<T, C>>::empty(),
            m.size == 0,
            m.default_tag == default_tag,
            m.combo_buckets() =~= Map::empty(),
            m.tag_buckets() =~= Map::empty(),
    {
        let m = EntityManager {
            entities: Vec::new(),
            component_index: ComboIndex::new(),
            tags: TagIndex::new(),
            pending_add: Vec::new(),
            size: 0,
            default_tag,
        };
        proof {
            assert(m.live() =~= Seq::empty());
            assert(m.pending() =~= Seq::empty());
        }
        m
    }

    /// Allocates a fresh identifier and buffers a new entity carrying it
    /// and the given tag. The entity joins the live, indexed set on the
    /// next `update`; until then it is invisible to every query.
    pub fn add_tag(&mut self, tag: T) -> (id: EntityId)
        requires
            old(self).wf(),
            old(self).size < u64::MAX,
        ensures
            final(self).wf(),
            id == old(self).size,
            final(self).size == old(self).size + 1,
            final(self).live() == old(self).live(),
            final(self).combo_buckets() == old(self).combo_buckets(),
            final(self).tag_buckets() == old(self).tag_buckets(),
            final(self).default_tag == old(self).default_tag,
            final(self).pending().len() == old(self).pending().len() + 1,
            final(self).pending().drop_last() == old(self).pending(),
            final(self).pending().last().id == id,
            final(self).pending().last().tag == tag,
            final(self).pending().last().alive_spec(),
            final(self).pending().last().components@ == Seq::<C>::empty(),
            final(self).pending().last().combos() == Seq::<Seq<u64>>::empty(),
            !row_has_id(old(self).live(), id),
            !row_has_id(old(self).pending(), id),
    {
        let id = self.size;
        let entity = Entity::new(id, tag);
        self.size = self.size + 1;
        self.pending_add.push(entity);
        proof {
            assert(final(self).pending().drop_last() =~= old(self).pending());
            assert forall|i: int|
                0 <= i < old(self).pending().len() implies #[trigger] row_ids(
                old(self).pending(),
            )[i] != id by {
                assert(old(self).pending()[i].id < id);
            }
            assert(row_ids(self.pending()) =~= row_ids(old(self).pending()).push(id));
            if row_has_id(old(self).live(), id) {
                let i = row_index_of(old(self).live(), id);
                assert(old(self).live()[i].id < id);
            }
            if row_has_id(old(self).pending(), id) {
                let i = row_index_of(old(self).pending(), id);
                assert(old(self).pending()[i].id < id);
            }
            assert forall|t: u64, id2: u64|
                #[trigger] bucket_or_empty(self.tag_buckets(), t).contains(id2)
                    == self.live_tag_has(t, id2) by {
                assert(bucket_or_empty(old(self).tag_buckets(), t).contains(id2) == old(self).live_tag_has(t, id2));
                if old(self).live_tag_has(t, id2) {
                    let i = choose|i: int|
                        0 <= i < old(self).live().len() && (#[trigger] old(self).live()[i]).id
                            == id2 && old(self).live()[i].tag.tag_key_spec() == t;
                    assert(self.live()[i].id == id2 && self.live()[i].tag.tag_key_spec() == t);
                }
                if self.live_tag_has(t, id2) {
                    let i = choose|i: int|
                        0 <= i < self.live().len() && (#[trigger] self.live()[i]).id == id2
                            && self.live()[i].tag.tag_key_spec() == t;
                    assert(old(self).live()[i].id == id2 && old(self).live()[i].tag.tag_key_spec()
                        == t);
                }
            }
            assert forall|id2: u64| row_has_id(self.live(), id2) implies !row_has_id(
                self.pending(),
                id2,
            ) by {
                if row_has_id(self.pending(), id2) {
                    let i = row_index_of(self.pending(), id2);
                    if i < self.pending().len() - 1 {
                        assert(old(self).pending()[i].id == id2);
                        assert(row_has_id(old(self).pending(), id2));
                    } else {
                        let j = row_index_of(self.live(), id2);
                        assert(old(self).live()[j].id < id);
                    }
                }
            }
        }
        id
    }
    /// The two bucket equations survive any change that keeps the live row
    /// index-equivalent and both indices untouched.
    proof fn lemma_index_equations_preserved(pre: Self, post: Self)
        requires
            rows_index_equiv(pre.live(), post.live()),
            post.combo_buckets() == pre.combo_buckets(),
            post.tag_buckets() == pre.tag_buckets(),
            forall|k: Seq<u64>, id: u64|
                #[trigger] bucket_or_empty(pre.combo_buckets(), k).contains(id)
                    == pre.live_combo_has(k, id),
            forall|t: u64, id: u64|
                #[trigger] bucket_or_empty(pre.tag_buckets(), t).contains(id) == pre.live_tag_has(
                    t,
                    id,
                ),
        ensures
            forall|k: Seq<u64>, id: u64|
                #[trigger] bucket_or_empty(post.combo_buckets(), k).contains(id)
                    == post.live_combo_has(k, id),
            forall|t: u64, id: u64|
                #[trigger] bucket_or_empty(post.tag_buckets(), t).contains(id) == post.live_tag_has(
                    t,
                    id,
                ),
    {
        assert forall|k: Seq<u64>, id: u64|
            #[trigger] bucket_or_empty(post.combo_buckets(), k).contains(id)
                == post.live_combo_has(k, id) by {
            assert(bucket_or_empty(pre.combo_buckets(), k).contains(id) == pre.live_combo_has(
                k,
                id,
            ));
            if pre.live_combo_has(k, id) {
                let i = choose|i: int|
                    0 <= i < pre.live().len() && (#[trigger] pre.live()[i]).id == id
                        && pre.live()[i].combos().contains(k);
                assert(post.live()[i].id == id && post.live()[i].combos().contains(k));
            }
            if post.live_combo_has(k, id) {
                let i = choose|i: int|
                    0 <= i < post.live().len() && (#[trigger] post.live()[i]).id == id
                        && post.live()[i].combos().contains(k);
                assert(pre.live()[i].id == id && pre.live()[i].combos().contains(k));
            }
        }
        assert forall|t: u64, id: u64|
            #[trigger] bucket_or_empty(post.tag_buckets(), t).contains(id) == post.live_tag_has(
                t,
                id,
            ) by {
            assert(bucket_or_empty(pre.tag_buckets(), t).contains(id) == pre.live_tag_has(t, id));
            if pre.live_tag_has(t, id) {
                let i = choose|i: int|
                    0 <= i < pre.live().len() && (#[trigger] pre.live()[i]).id == id
                        && pre.live()[i].tag.tag_key_spec() == t;
                assert(post.live()[i].id == id && post.live()[i].tag.tag_key_spec() == t);
            }
            if post.live_tag_has(t, id) {
                let i = choose|i: int|
                    0 <= i < post.live().len() && (#[trigger] post.live()[i]).id == id
                        && post.live()[i].tag.tag_key_spec() == t;
                assert(pre.live()[i].id == id && pre.live()[i].tag.tag_key_spec() == t);
            }
        }
    }

    /// Attaches `component` to the pending entity carrying `id`, and
    /// reports whether it was attached. Nothing happens — reported by a
    /// false result — where no pending entity carries `id` (it was never
    /// created, or was already committed) or where the entity already has a
    /// component of the same type identity. Components are attached while
    /// an entity is pending, between its creation and the commit that
    /// indexes it.
    #[verifier::loop_isolation(false)]
    pub fn attach_component(&mut self, id: EntityId, component: C) -> (r: bool)
        requires
            old(self).wf(),
        ensures
            final(self).wf(),
            final(self).live() == old(self).live(),
            final(self).combo_buckets() == old(self).combo_buckets(),
            final(self).tag_buckets() == old(self).tag_buckets(),
            final(self).size == old(self).size,
            final(self).default_tag == old(self).default_tag,
            r == (row_has_id(old(self).pending(), id) && !entity_of(old(self).pending(), id)
                .has_kind(component.kind_spec())),
            !r ==> final(self).pending() == old(self).pending(),
            r ==> ({
                let p = row_index_of(old(self).pending(), id);
                &&& final(self).pending().len() == old(self).pending().len()
                &&& (forall|i: int|
                    0 <= i < old(self).pending().len() && i != p ==> final(self).pending()[i]
                        == old(self).pending()[i])
                &&& final(self).pending()[p].wf()
                &&& final(self).pending()[p].id == id
                &&& final(self).pending()[p].tag == old(self).pending()[p].tag
                &&& final(self).pending()[p].alive_spec() == old(self).pending()[p].alive_spec()
                &&& final(self).pending()[p].kind_set() == old(self).pending()[p].kind_set()
                    .insert(component.kind_spec())
                &&& (exists|j: int|
                    0 <= j <= old(self).pending()[p].components@.len() && final(self).pending()[p].components@ == #[trigger] old(self).pending()[p].components@.insert(j, component))
            }),
    {
        let n = self.pending_add.len();
        let mut i: usize = 0;
        while i < n
            invariant
                i <= n,
                n == self.pending_add@.len(),
                *self == *old(self),
                forall|j: int| 0 <= j < i ==> (#[trigger] self.pending()[j]).id != id,
            decreases n - i,
        {
            if self.pending_add[i].id == id {
                proof {
                    assert(row_has_id(self.pending(), id));
                    let p = row_index_of(old(self).pending(), id);
                    if p != i as int {
                        assert(row_ids(old(self).pending())[p] == id);
                        assert(row_ids(old(self).pending())[i as int] == id);
                    }
                }
                let e = row_entry_mut(&mut self.pending_add, i);
                let added = e.try_add_component(component);
                proof {
                    assert(self.pending() =~= old(self).pending().update(
                        i as int,
                        self.pending()[i as int],
                    ));
                    assert(row_ids(self.pending()) =~= row_ids(old(self).pending()));
                    Self::lemma_index_equations_preserved(*old(self), *self);
                    assert forall|id2: u64| row_has_id(self.live(), id2) implies !row_has_id(
                        self.pending(),
                        id2,
                    ) by {
                        if row_has_id(self.pending(), id2) {
                            let q = row_index_of(self.pending(), id2);
                            assert(old(self).pending()[q].id == id2);
                            assert(row_has_id(old(self).pending(), id2));
                        }
                    }
                }
                return added;
            }
            i += 1;
        }
        proof {
            if row_has_id(self.pending(), id) {
                let p = row_index_of(self.pending(), id);
                assert(self.pending()[p].id != id);
            }
        }
        false
    }

    /// Marks the entity carrying `id` — committed or still pending — dead,
    /// and reports whether such an entity exists. The mark is deferred:
    /// the entity stays present and indexed until the next `update` commits
    /// the removal; a pending entity is first committed, dead, by the next
    /// `update` and reaped by the one after.
    #[verifier::loop_isolation(false)]
    pub fn destroy(&mut self, id: EntityId) -> (r: bool)
        requires
            old(self).wf(),
        ensures
            final(self).wf(),
            final(self).size == old(self).size,
            final(self).default_tag == old(self).default_tag,
            final(self).combo_buckets() == old(self).combo_buckets(),
            final(self).tag_buckets() == old(self).tag_buckets(),
            r == (row_has_id(old(self).live(), id) || row_has_id(old(self).pending(), id)),
            row_has_id(old(self).live(), id) ==> ({
                let p = row_index_of(old(self).live(), id);
                &&& final(self).pending() == old(self).pending()
                &&& final(self).live().len() == old(self).live().len()
                &&& (forall|i: int|
                    0 <= i < old(self).live().len() && i != p ==> final(self).live()[i] == old(self).live()[i])
                &&& final(self).live()[p].id == id
                &&& final(self).live()[p].tag == old(self).live()[p].tag
                &&& final(self).live()[p].components == old(self).live()[p].components
                &&& final(self).live()[p].components_combination == old(self).live()[p].components_combination
                &&& !final(self).live()[p].alive_spec()
            }),
            (!row_has_id(old(self).live(), id) && row_has_id(old(self).pending(), id)) ==> ({
                let p = row_index_of(old(self).pending(), id);
                &&& final(self).live() == old(self).live()
                &&& final(self).pending().len() == old(self).pending().len()
                &&& (forall|i: int|
                    0 <= i < old(self).pending().len() && i != p ==> final(self).pending()[i]
                        == old(self).pending()[i])
                &&& final(self).pending()[p].id == id
                &&& final(self).pending()[p].tag == old(self).pending()[p].tag
                &&& final(self).pending()[p].components == old(self).pending()[p].components
                &&& final(self).pending()[p].components_combination == old(self).pending()[p].components_combination
                &&& !final(self).pending()[p].alive_spec()
            }),
            (!row_has_id(old(self).live(), id) && !row_has_id(old(self).pending(), id)) ==> *final(self) == *old(self),
    {
        let n = self.entities.len();
        let mut i: usize = 0;
        while i < n
            invariant
                i <= n,
                n == self.entities@.len(),
                *self == *old(self),
                forall|j: int| 0 <= j < i ==> (#[trigger] self.live()[j]).id != id,
            decreases n - i,
        {
            if self.entities[i].id == id {
                proof {
                    assert(row_has_id(self.live(), id));
                    let p = row_index_of(old(self).live(), id);
                    if p != i as int {
                        assert(row_ids(old(self).live())[p] == id);
                        assert(row_ids(old(self).live())[i as int] == id);
                    }
                }
                let e = row_entry_mut(&mut self.entities, i);
                e.destroy();
                proof {
                    assert(self.live() =~= old(self).live().update(
                        i as int,
                        self.live()[i as int],
                    ));
                    assert(row_ids(self.live()) =~= row_ids(old(self).live()));
                    assert forall|ii: int| 0 <= ii < self.live().len() implies (
                    #[trigger] self.live()[ii]).wf() by {
                        if ii == i as int {
                            Entity::lemma_wf_same_shape(old(self).live()[ii], self.live()[ii]);
                        } else {
                            assert(self.live()[ii] == old(self).live()[ii]);
                        }
                    }
                    assert(rows_index_equiv(old(self).live(), self.live()));
                    Self::lemma_index_equations_preserved(*old(self), *self);
                    assert forall|id2: u64| row_has_id(self.live(), id2) implies !row_has_id(
                        self.pending(),
                        id2,
                    ) by {
                        if row_has_id(self.live(), id2) {
                            let q = row_index_of(self.live(), id2);
                            assert(old(self).live()[q].id == id2);
                            assert(row_has_id(old(self).live(), id2));
                        }
                    }
                }
                return true;
            }
            i += 1;
        }
        proof {
            if row_has_id(self.live(), id) {
                let p = row_index_of(self.live(), id);
                assert(self.live()[p].id != id);
            }
        }
        let m = self.pending_add.len();
        let mut j: usize = 0;
        while j < m
            invariant
                j <= m,
                m == self.pending_add@.len(),
                *self == *old(self),
                !row_has_id(self.live(), id),
                forall|jj: int| 0 <= jj < j ==> (#[trigger] self.pending()[jj]).id != id,
            decreases m - j,
        {
            if self.pending_add[j].id == id {
                proof {
                    assert(row_has_id(self.pending(), id));
                    let p = row_index_of(old(self).pending(), id);
                    if p != j as int {
                        assert(row_ids(old(self).pending())[p] == id);
                        assert(row_ids(old(self).pending())[j as int] == id);
                    }
                }
                let e = row_entry_mut(&mut self.pending_add, j);
                e.destroy();
                proof {
                    assert(self.pending() =~= old(self).pending().update(
                        j as int,
                        self.pending()[j as int],
                    ));
                    assert(row_ids(self.pending()) =~= row_ids(old(self).pending()));
                    assert forall|ii: int| 0 <= ii < self.pending().len() implies (
                    #[trigger] self.pending()[ii]).wf() by {
                        if ii == j as int {
                            Entity::lemma_wf_same_shape(old(self).pending()[ii], self.pending()[ii]);
                        } else {
                            assert(self.pending()[ii] == old(self).pending()[ii]);
                        }
                    }
                    Self::lemma_index_equations_preserved(*old(self), *self);
                    assert forall|id2: u64| row_has_id(self.live(), id2) implies !row_has_id(
                        self.pending(),
                        id2,
                    ) by {
                        if row_has_id(self.pending(), id2) {
                            let q = row_index_of(self.pending(), id2);
                            assert(old(self).pending()[q].id == id2);
                            assert(row_has_id(old(self).pending(), id2));
                        }
                    }
                }
                return true;
            }
            j += 1;
        }
        proof {
            if row_has_id(self.pending(), id) {
                let p = row_index_of(self.pending(), id);
                assert(self.pending()[p].id != id);
            }
        }
        false
    }
    /// Returns the committed entity carrying `id`, or nothing where no
    /// such entity exists — it was never created, is still pending, or was
    /// reaped.
    pub fn get_entity(&self, id: EntityId) -> (r: Option<&Entity<T, C>>)
        requires
            self.wf(),
        ensures
            r.is_some() == row_has_id(self.live(), id),
            r matches Some(e) ==> *e == entity_of(self.live(), id) && e.id == id && e.wf(),
    {
        let n = self.entities.len();
        let mut i: usize = 0;
        while i < n
            invariant
                i <= n,
                n == self.entities@.len(),
                self.wf(),
                forall|j: int| 0 <= j < i ==> (#[trigger] self.live()[j]).id != id,
            decreases n - i,
        {
            if self.entities[i].id == id {
                proof {
                    assert(row_has_id(self.live(), id));
                    let p = row_index_of(self.live(), id);
                    if p != i as int {
                        assert(row_ids(self.live())[p] == id);
                        assert(row_ids(self.live())[i as int] == id);
                    }
                }
                return Some(&self.entities[i]);
            }
            i += 1;
        }
        proof {
            if row_has_id(self.live(), id) {
                let p = row_index_of(self.live(), id);
                assert(self.live()[p].id != id);
            }
        }
        None
    }

    /// Returns a mutable borrow of the committed entity carrying `id`, or
    /// nothing where no such entity exists. The borrow is for marking the
    /// entity dead or replacing component values in place; writes that
    /// change the entity's identifier, tag key or component-type set
    /// desynchronize the secondary indices, which are rebuilt only for
    /// entities committed after. `lemma_wf_after_entry_write` re-establishes
    /// well-formedness for shape-preserving writes.
    #[verifier::loop_isolation(false)]
    pub fn get_entity_mut(&mut self, id: EntityId) -> (r: Option<&mut Entity<T, C>>)
        requires
            old(self).wf(),
        ensures
            r.is_some() == row_has_id(old(self).live(), id),
            r matches Some(e) ==> {
                &&& *e == entity_of(old(self).live(), id)
                &&& e.id == id
                &&& e.wf()
                &&& final(self).entities@ == old(self).entities@.update(
                    row_index_of(old(self).live(), id),
                    *final(e),
                )
                &&& final(self).component_index == old(self).component_index
                &&& final(self).tags == old(self).tags
                &&& final(self).pending_add == old(self).pending_add
                &&& final(self).size == old(self).size
                &&& final(self).default_tag == old(self).default_tag
            },
            r is None ==> *final(self) == *old(self),
    {
        let n = self.entities.len();
        let mut i: usize = 0;
        while i < n
            invariant
                i <= n,
                n == self.entities@.len(),
                *self == *old(self),
                forall|j: int| 0 <= j < i ==> (#[trigger] self.live()[j]).id != id,
            decreases n - i,
        {
            if self.entities[i].id == id {
                proof {
                    assert(row_has_id(self.live(), id));
                    let p = row_index_of(old(self).live(), id);
                    if p != i as int {
                        assert(row_ids(old(self).live())[p] == id);
                        assert(row_ids(old(self).live())[i as int] == id);
                    }
                }
                return Some(row_entry_mut(&mut self.entities, i));
            }
            i += 1;
        }
        proof {
            if row_has_id(self.live(), id) {
                let p = row_index_of(self.live(), id);
                assert(self.live()[p].id != id);
            }
        }
        None
    }

    /// Re-establishes well-formedness after a write through
    /// `get_entity_mut` that kept the entity's indexed shape: the same
    /// identifier, a well-formed entity, the same combination enumeration
    /// and the same tag key. Marking the entity dead and replacing
    /// component values are such writes.
    pub proof fn lemma_wf_after_entry_write(pre: Self, post: Self, id: u64)
        requires
            pre.wf(),
            row_has_id(pre.live(), id),
            post.live() == pre.live().update(
                row_index_of(pre.live(), id),
                post.live()[row_index_of(pre.live(), id)],
            ),
            post.live()[row_index_of(pre.live(), id)].wf(),
            post.live()[row_index_of(pre.live(), id)].id == id,
            post.live()[row_index_of(pre.live(), id)].combos() == entity_of(
                pre.live(),
                id,
            ).combos(),
            post.live()[row_index_of(pre.live(), id)].tag.tag_key_spec() == entity_of(
                pre.live(),
                id,
            ).tag.tag_key_spec(),
            post.pending() == pre.pending(),
            post.combo_buckets() == pre.combo_buckets(),
            post.tag_buckets() == pre.tag_buckets(),
            post.size == pre.size,
        ensures
            post.wf(),
    {
        let p = row_index_of(pre.live(), id);
        assert(0 <= p < pre.live().len() && pre.live()[p].id == id);
        assert(row_ids(post.live()) =~= row_ids(pre.live()));
        assert forall|ii: int| 0 <= ii < post.live().len() implies (
        #[trigger] post.live()[ii]).wf() by {
            if ii != p {
                assert(post.live()[ii] == pre.live()[ii]);
            }
        }
        assert forall|ii: int| 0 <= ii < post.live().len() implies (#[trigger] post.live()[ii]).id
            < post.size by {
            if ii != p {
                assert(post.live()[ii] == pre.live()[ii]);
            } else {
                assert(pre.live()[p].id < pre.size);
            }
        }
        assert(rows_index_equiv(pre.live(), post.live()));
        Self::lemma_index_equations_preserved(pre, post);
        assert forall|id2: u64| row_has_id(post.live(), id2) implies !row_has_id(
            post.pending(),
            id2,
        ) by {
            let q = row_index_of(post.live(), id2);
            assert(pre.live()[q].id == id2);
            assert(row_has_id(pre.live(), id2));
        }
    }

    /// Returns every committed entity, in row order.
    pub fn get_all(&self) -> (r: Vec<&Entity<T, C>>)
        ensures
            r@.len() == self.live().len(),
            forall|i: int| 0 <= i < r@.len() ==> *(#[trigger] r@[i]) == self.live()[i],
    {
        let n = self.entities.len();
        let mut out: Vec<&Entity<T, C>> = Vec::new();
        let mut i: usize = 0;
        while i < n
            invariant
                i <= n,
                n == self.entities@.len(),
                out@.len() == i,
                forall|j: int| 0 <= j < i ==> *(#[trigger] out@[j]) == self.live()[j],
            decreases n - i,
        {
            out.push(&self.entities[i]);
            i += 1;
        }
        out
    }

    /// Returns every committed entity whose tag has the key of `tag`, in
    /// no promised order: exactly the entities the tag index lists.
    pub fn get_entities_with_tag(&self, tag: &T) -> (r: Vec<&Entity<T, C>>)
        requires
            self.wf(),
        ensures
            ref_row_ids(r@).no_duplicates(),
            forall|id: u64|
                #[trigger] ref_row_ids(r@).contains(id) == self.live_tag_has(
                    tag.tag_key_spec(),
                    id,
                ),
            forall|i: int|
                0 <= i < r@.len() ==> *(#[trigger] r@[i]) == entity_of(self.live(), r@[i].id),
    {
        let tk = tag.tag_key();
        let ids = self.tags.ids(tk);
        let n = ids.len();
        let mut out: Vec<&Entity<T, C>> = Vec::new();
        let mut i: usize = 0;
        while i < n
            invariant
                i <= n,
                n == ids@.len(),
                self.wf(),
                ids@.no_duplicates(),
                forall|id: u64|
                    ids@.contains(id) == #[trigger] bucket_or_empty(
                        self.tag_buckets(),
                        tk,
                    ).contains(id),
                tk == tag.tag_key_spec(),
                out@.len() == i,
                forall|j: int| 0 <= j < i ==> (#[trigger] out@[j]).id == ids@[j],
                forall|j: int|
                    0 <= j < i ==> *(#[trigger] out@[j]) == entity_of(self.live(), ids@[j]),
            decreases n - i,
        {
            let id = ids[i];
            proof {
                assert(ids@.contains(id));
                assert(bucket_or_empty(self.tag_buckets(), tk).contains(id));
                assert(self.live_tag_has(tk, id));
                let w = choose|w: int|
                    0 <= w < self.live().len() && (#[trigger] self.live()[w]).id == id
                        && self.live()[w].tag.tag_key_spec() == tk;
                assert(row_has_id(self.live(), id));
            }
            let entity = match self.get_entity(id) {
                Some(e) => e,
                None => {
                    proof {
                        assert(false);
                    }
                    return out;
                },
            };
            out.push(entity);
            i += 1;
        }
        proof {
            assert(ref_row_ids(out@) =~= ids@);
            assert forall|id: u64|
                #[trigger] ref_row_ids(out@).contains(id) == self.live_tag_has(
                tag.tag_key_spec(),
                id,
            ) by {
                assert(ids@.contains(id) == bucket_or_empty(self.tag_buckets(), tk).contains(id));
            }
        }
        out
    }

    /// Whether the committed entity carrying `id` exists and has
    /// components of all the types `q` lists. A query listing no types
    /// matches nothing.
    pub open spec fn matches_query(self, q: TypeQuery, id: u64) -> bool {
        &&& row_has_id(self.live(), id)
        &&& q.list().len() > 0
        &&& q.type_set().subset_of(entity_of(self.live(), id).kind_set())
    }

    /// The combination bucket under the canonical key of `q` holds exactly
    /// the committed entities having all of `q`'s types: an entity's
    /// combination enumeration lists the key precisely when every listed
    /// type is attached.
    proof fn lemma_combo_bucket_matches(self, key: Seq<u64>, q: TypeQuery)
        requires
            self.wf(),
            crate::entity::sorted_strict(key),
            key.to_set() == q.type_set(),
            key.len() == q.list().len(),
        ensures
            forall|id: u64|
                #[trigger] bucket_or_empty(self.combo_buckets(), key).contains(id)
                    == self.matches_query(q, id),
    {
        assert forall|id: u64|
            #[trigger] bucket_or_empty(self.combo_buckets(), key).contains(id)
                == self.matches_query(q, id) by {
            assert(bucket_or_empty(self.combo_buckets(), key).contains(id) == self.live_combo_has(
                key,
                id,
            ));
            if self.live_combo_has(key, id) {
                let w = choose|w: int|
                    0 <= w < self.live().len() && (#[trigger] self.live()[w]).id == id
                        && self.live()[w].combos().contains(key);
                let e = self.live()[w];
                assert(row_has_id(self.live(), id));
                assert(entity_of(self.live(), id) == e) by {
                    let u = row_index_of(self.live(), id);
                    if u != w {
                        assert(row_ids(self.live())[u] == id);
                        assert(row_ids(self.live())[w] == id);
                    }
                }
                let j = choose|j: int| 0 <= j < e.combos().len() && e.combos()[j] == key;
                assert(is_combination_of(e.combos()[j], e.kind_set()));
                assert forall|x: u64| q.type_set().contains(x) implies e.kind_set().contains(
                    x,
                ) by {
                    assert(key.to_set().contains(x));
                    let p = choose|p: int| 0 <= p < key.len() && key[p] == x;
                    assert(e.kind_set().contains(key[p]));
                }
            }
            if self.matches_query(q, id) {
                let w = row_index_of(self.live(), id);
                let e = self.live()[w];
                assert(e.wf());
                assert(is_combination_of(key, e.kind_set())) by {
                    assert forall|p: int| 0 <= p < key.len() implies e.kind_set().contains(
                        #[trigger] key[p],
                    ) by {
                        assert(key.contains(key[p]));
                        assert(key.to_set().contains(key[p]));
                        assert(q.type_set().contains(key[p]));
                    }
                }
                assert(e.combos().contains(key));
                assert(self.live_combo_has(key, id));
            }
        }
    }

    /// Returns the identifiers of every committed entity having components
    /// of all the types `q` lists, in no promised order. Callers that need
    /// to change those entities look each up by identifier and replace
    /// component values through `replace_component`.
    pub fn query_entity_ids_components(&self, q: &TypeQuery) -> (r: Vec<EntityId>)
        requires
            self.wf(),
            q.wf(),
        ensures
            r@.no_duplicates(),
            forall|id: u64| #[trigger] r@.contains(id) == self.matches_query(*q, id),
    {
        let key = q.get_types();
        let ids = self.component_index.ids(&key);
        proof {
            self.lemma_combo_bucket_matches(key@, *q);
            assert forall|id: u64| #[trigger] ids@.contains(id) == self.matches_query(
                *q,
                id,
            ) by {
                assert(ids@.contains(id) == bucket_or_empty(self.combo_buckets(), key@).contains(
                    id,
                ));
            }
        }
        ids
    }

    /// Returns, for each committed entity having components of all the
    /// types `q` lists, references to those components in list order —
    /// one row per matching entity, the entities in no promised order.
    #[verifier::loop_isolation(false)]
    pub fn query_entities_components<'a>(&'a self, q: &TypeQuery) -> (r: Vec<Vec<&'a C>>)
        requires
            self.wf(),
            q.wf(),
        ensures
            exists|ids: Seq<u64>|
                {
                    &&& #[trigger] ids.no_duplicates()
                    &&& (forall|id: u64| #[trigger] ids.contains(id) == self.matches_query(*q, id))
                    &&& r@.len() == ids.len()
                    &&& (forall|i: int|
                        0 <= i < r@.len() ==> (#[trigger] r@[i])@.len() == q.list().len())
                    &&& (forall|i: int, j: int|
                        0 <= i < r@.len() && 0 <= j < q.list().len() ==> *(#[trigger] r@[i]@[j])
                            == entity_of(self.live(), ids[i]).component_with(q.list()[j]))
                },
    {
        let ids = self.query_entity_ids_components(q);
        let n = ids.len();
        let mut out: Vec<Vec<&'a C>> = Vec::new();
        let mut i: usize = 0;
        while i < n
            invariant
                i <= n,
                n == ids@.len(),
                out@.len() == i,
                forall|ii: int| 0 <= ii < i ==> (#[trigger] out@[ii])@.len() == q.list().len(),
                forall|ii: int, j: int|
                    0 <= ii < i && 0 <= j < q.list().len() ==> *(#[trigger] out@[ii]@[j])
                        == entity_of(self.live(), ids@[ii]).component_with(q.list()[j]),
            decreases n - i,
        {
            let id = ids[i];
            proof {
                assert(ids@.contains(id));
                assert(self.matches_query(*q, id));
            }
            let entity = match self.get_entity(id) {
                Some(e) => e,
                None => {
                    proof {
                        assert(false);
                    }
                    return out;
                },
            };
            let comps = match entity.get_components(q) {
                Some(v) => v,
                None => {
                    proof {
                        assert(false);
                    }
                    return out;
                },
            };
            out.push(comps);
            i += 1;
        }
        proof {
            assert(ids@.no_duplicates());
        }
        out
    }

    /// Returns a reference to the component of type `kind` of every
    /// committed entity having one, in no promised order.
    #[verifier::loop_isolation(false)]
    pub fn query_entities_component<'a>(&'a self, kind: u64) -> (r: Vec<&'a C>)
        requires
            self.wf(),
        ensures
            exists|ids: Seq<u64>|
                {
                    &&& #[trigger] ids.no_duplicates()
                    &&& (forall|id: u64|
                        #[trigger] ids.contains(id) == (row_has_id(self.live(), id) && entity_of(
                            self.live(),
                            id,
                        ).has_kind(kind)))
                    &&& r@.len() == ids.len()
                    &&& (forall|i: int|
                        0 <= i < r@.len() ==> *(#[trigger] r@[i]) == entity_of(
                            self.live(),
                            ids[i],
                        ).component_with(kind))
                },
    {
        let key = vec![kind];
        let ids = self.component_index.ids(&key);
        proof {
            assert(key@ =~= seq![kind]);
            assert forall|id: u64|
                #[trigger] ids@.contains(id) == (row_has_id(self.live(), id) && entity_of(
                    self.live(),
                    id,
                ).has_kind(kind)) by {
                assert(ids@.contains(id) == bucket_or_empty(self.combo_buckets(), key@).contains(
                    id,
                ));
                assert(bucket_or_empty(self.combo_buckets(), key@).contains(id)
                    == self.live_combo_has(key@, id));
                if self.live_combo_has(key@, id) {
                    let w = choose|w: int|
                        0 <= w < self.live().len() && (#[trigger] self.live()[w]).id == id
                            && self.live()[w].combos().contains(key@);
                    let e = self.live()[w];
                    assert(row_has_id(self.live(), id));
                    assert(entity_of(self.live(), id) == e) by {
                        let u = row_index_of(self.live(), id);
                        if u != w {
                            assert(row_ids(self.live())[u] == id);
                            assert(row_ids(self.live())[w] == id);
                        }
                    }
                    let j = choose|j: int| 0 <= j < e.combos().len() && e.combos()[j] == key@;
                    assert(is_combination_of(e.combos()[j], e.kind_set()));
                    assert(e.kind_set().contains(key@[0]));
                }
                if row_has_id(self.live(), id) && entity_of(self.live(), id).has_kind(kind) {
                    let w = row_index_of(self.live(), id);
                    let e = self.live()[w];
                    assert(e.wf());
                    assert(is_combination_of(key@, e.kind_set())) by {
                        assert forall|p: int| 0 <= p < key@.len() implies e.kind_set().contains(
                            #[trigger] key@[p],
                        ) by {
                            assert(key@[p] == kind);
                        }
                    }
                    assert(e.combos().contains(key@));
                    assert(self.live_combo_has(key@, id));
                }
            }
        }
        let n = ids.len();
        let mut out: Vec<&'a C> = Vec::new();
        let mut i: usize = 0;
        while i < n
            invariant
                i <= n,
                n == ids@.len(),
                out@.len() == i,
                forall|ii: int|
                    0 <= ii < i ==> *(#[trigger] out@[ii]) == entity_of(
                        self.live(),
                        ids@[ii],
                    ).component_with(kind),
            decreases n - i,
        {
            let id = ids[i];
            proof {
                assert(ids@.contains(id));
            }
            let entity = match self.get_entity(id) {
                Some(e) => e,
                None => {
                    proof {
                        assert(false);
                    }
                    return out;
                },
            };
            let comp = match entity.get_component(kind) {
                Some(c) => c,
                None => {
                    proof {
                        assert(false);
                    }
                    return out;
                },
            };
            out.push(comp);
            i += 1;
        }
        out
    }

    /// Returns, for each committed entity that has components of all the
    /// types `q` lists and whose tag has the key of `tag`, references to
    /// those components in list order. The two index buckets are
    /// intersected by walking the smaller and probing the larger.
    #[verifier::loop_isolation(false)]
    pub fn query_entities_components_tag<'a>(&'a self, q: &TypeQuery, tag: &T) -> (r: Vec<
        Vec<&'a C>,
    >)
        requires
            self.wf(),
            q.wf(),
        ensures
            exists|ids: Seq<u64>|
                {
                    &&& #[trigger] ids.no_duplicates()
                    &&& (forall|id: u64|
                        #[trigger] ids.contains(id) == (self.matches_query(*q, id)
                            && self.live_tag_has(tag.tag_key_spec(), id)))
                    &&& r@.len() == ids.len()
                    &&& (forall|i: int|
                        0 <= i < r@.len() ==> (#[trigger] r@[i])@.len() == q.list().len())
                    &&& (forall|i: int, j: int|
                        0 <= i < r@.len() && 0 <= j < q.list().len() ==> *(#[trigger] r@[i]@[j])
                            == entity_of(self.live(), ids[i]).component_with(q.list()[j]))
                },
    {
        let key = q.get_types();
        let tk = tag.tag_key();
        let combo_ids = self.component_index.ids(&key);
        let tag_ids = self.tags.ids(tk);
        proof {
            self.lemma_combo_bucket_matches(key@, *q);
        }
        let mut picked: Vec<EntityId> = Vec::new();
        if combo_ids.len() <= tag_ids.len() {
            let n = combo_ids.len();
            let mut i: usize = 0;
            while i < n
                invariant
                    i <= n,
                    n == combo_ids@.len(),
                    picked@.no_duplicates(),
                    forall|id: u64|
                        #[trigger] picked@.contains(id) == (combo_ids@.subrange(
                            0,
                            i as int,
                        ).contains(id) && self.live_tag_has(tk, id)),
                decreases n - i,
            {
                let id = combo_ids[i];
                let ghost picked0 = picked@;
                let hit = self.tags.contains(tk, id);
                if hit {
                    proof {
                        if picked@.contains(id) {
                            assert(combo_ids@.subrange(0, i as int).contains(id));
                            let w = choose|w: int|
                                0 <= w < i && combo_ids@.subrange(0, i as int)[w] == id;
                            assert(combo_ids@[w] == id);
                            assert(combo_ids@[i as int] == id);
                        }
                    }
                    picked.push(id);
                }
                proof {
                    assert(hit == bucket_or_empty(self.tag_buckets(), tk).contains(id));
                    assert(hit == self.live_tag_has(tk, id));
                    assert forall|id2: u64|
                        #[trigger] picked@.contains(id2) == (combo_ids@.subrange(
                            0,
                            i as int + 1,
                        ).contains(id2) && self.live_tag_has(tk, id2)) by {
                        let s1 = combo_ids@.subrange(0, i as int + 1);
                        let s0 = combo_ids@.subrange(0, i as int);
                        assert(s1[i as int] == id);
                        assert(s1.contains(id2) == (s0.contains(id2) || id2 == id)) by {
                            if s1.contains(id2) {
                                let w = choose|w: int| 0 <= w < s1.len() && s1[w] == id2;
                                if w < s0.len() {
                                    assert(s0[w] == id2);
                                }
                            }
                            if s0.contains(id2) {
                                let w = choose|w: int| 0 <= w < s0.len() && s0[w] == id2;
                                assert(s1[w] == id2);
                            }
                        }
                        if hit {
                            assert(picked@ == picked0.push(id));
                            assert(picked@.contains(id2) == (picked0.contains(id2) || id2 == id))
                                by {
                                if picked@.contains(id2) {
                                    let w = choose|w: int|
                                        0 <= w < picked@.len() && picked@[w] == id2;
                                    if w < picked0.len() {
                                        assert(picked0[w] == id2);
                                    }
                                }
                                if picked0.contains(id2) {
                                    let w = choose|w: int|
                                        0 <= w < picked0.len() && picked0[w] == id2;
                                    assert(picked@[w] == id2);
                                }
                                assert(picked@[picked@.len() - 1] == id);
                            }
                        } else {
                            assert(picked@ == picked0);
                        }
                    }
                }
                i += 1;
            }
            proof {
                assert(combo_ids@.subrange(0, n as int) =~= combo_ids@);
                assert forall|id: u64|
                    #[trigger] picked@.contains(id) == (self.matches_query(*q, id)
                        && self.live_tag_has(tk, id)) by {
                    assert(combo_ids@.contains(id) == bucket_or_empty(
                        self.combo_buckets(),
                        key@,
                    ).contains(id));
                }
            }
        } else {
            let n = tag_ids.len();
            let mut i: usize = 0;
            while i < n
                invariant
                    i <= n,
                    n == tag_ids@.len(),
                    picked@.no_duplicates(),
                    forall|id: u64|
                        #[trigger] picked@.contains(id) == (tag_ids@.subrange(0, i as int).contains(
                            id,
                        ) && self.matches_query(*q, id)),
                decreases n - i,
            {
                let id = tag_ids[i];
                let ghost picked0 = picked@;
                let hit = self.component_index.contains(&key, id);
                if hit {
                    proof {
                        if picked@.contains(id) {
                            assert(tag_ids@.subrange(0, i as int).contains(id));
                            let w = choose|w: int|
                                0 <= w < i && tag_ids@.subrange(0, i as int)[w] == id;
                            assert(tag_ids@[w] == id);
                            assert(tag_ids@[i as int] == id);
                        }
                    }
                    picked.push(id);
                }
                proof {
                    assert(hit == bucket_or_empty(self.combo_buckets(), key@).contains(id));
                    assert(hit == self.matches_query(*q, id));
                    assert forall|id2: u64|
                        #[trigger] picked@.contains(id2) == (tag_ids@.subrange(
                            0,
                            i as int + 1,
                        ).contains(id2) && self.matches_query(*q, id2)) by {
                        let s1 = tag_ids@.subrange(0, i as int + 1);
                        let s0 = tag_ids@.subrange(0, i as int);
                        assert(s1[i as int] == id);
                        assert(s1.contains(id2) == (s0.contains(id2) || id2 == id)) by {
                            if s1.contains(id2) {
                                let w = choose|w: int| 0 <= w < s1.len() && s1[w] == id2;
                                if w < s0.len() {
                                    assert(s0[w] == id2);
                                }
                            }
                            if s0.contains(id2) {
                                let w = choose|w: int| 0 <= w < s0.len() && s0[w] == id2;
                                assert(s1[w] == id2);
                            }
                        }
                        if hit {
                            assert(picked@ == picked0.push(id));
                            assert(picked@.contains(id2) == (picked0.contains(id2) || id2 == id))
                                by {
                                if picked@.contains(id2) {
                                    let w = choose|w: int|
                                        0 <= w < picked@.len() && picked@[w] == id2;
                                    if w < picked0.len() {
                                        assert(picked0[w] == id2);
                                    }
                                }
                                if picked0.contains(id2) {
                                    let w = choose|w: int|
                                        0 <= w < picked0.len() && picked0[w] == id2;
                                    assert(picked@[w] == id2);
                                }
                                assert(picked@[picked@.len() - 1] == id);
                            }
                        } else {
                            assert(picked@ == picked0);
                        }
                    }
                }
                i += 1;
            }
            proof {
                assert(tag_ids@.subrange(0, n as int) =~= tag_ids@);
                assert forall|id: u64|
                    #[trigger] picked@.contains(id) == (self.matches_query(*q, id)
                        && self.live_tag_has(tk, id)) by {
                    assert(tag_ids@.contains(id) == bucket_or_empty(
                        self.tag_buckets(),
                        tk,
                    ).contains(id));
                }
            }
        }
        let n = picked.len();
        let mut out: Vec<Vec<&'a C>> = Vec::new();
        let mut i: usize = 0;
        while i < n
            invariant
                i <= n,
                n == picked@.len(),
                out@.len() == i,
                forall|ii: int| 0 <= ii < i ==> (#[trigger] out@[ii])@.len() == q.list().len(),
                forall|ii: int, j: int|
                    0 <= ii < i && 0 <= j < q.list().len() ==> *(#[trigger] out@[ii]@[j])
                        == entity_of(self.live(), picked@[ii]).component_with(q.list()[j]),
            decreases n - i,
        {
            let id = picked[i];
            proof {
                assert(picked@.contains(id));
                assert(self.matches_query(*q, id));
            }
            let entity = match self.get_entity(id) {
                Some(e) => e,
                None => {
                    proof {
                        assert(false);
                    }
                    return out;
                },
            };
            let comps = match entity.get_components(q) {
                Some(v) => v,
                None => {
                    proof {
                        assert(false);
                    }
                    return out;
                },
            };
            out.push(comps);
            i += 1;
        }
        out
    }

    /// Replaces a component value on the entity carrying `id`, committed
    /// or pending, and reports whether a component of that type was there
    /// to replace. The entity's set of component types, and so both
    /// indices, never change; absent entity or absent type leave the
    /// manager untouched.
    #[verifier::loop_isolation(false)]
    pub fn replace_component(&mut self, id: EntityId, component: C) -> (r: bool)
        requires
            old(self).wf(),
        ensures
            final(self).wf(),
            final(self).size == old(self).size,
            final(self).default_tag == old(self).default_tag,
            final(self).combo_buckets() == old(self).combo_buckets(),
            final(self).tag_buckets() == old(self).tag_buckets(),
            r == ((row_has_id(old(self).live(), id) && entity_of(old(self).live(), id).has_kind(
                component.kind_spec(),
            )) || (row_has_id(old(self).pending(), id) && entity_of(old(self).pending(), id)
                .has_kind(component.kind_spec()))),
            !r ==> final(self).live() == old(self).live() && final(self).pending() == old(
                self,
            ).pending(),
            r && row_has_id(old(self).live(), id) ==> ({
                let p = row_index_of(old(self).live(), id);
                &&& final(self).pending() == old(self).pending()
                &&& final(self).live().len() == old(self).live().len()
                &&& (forall|i: int|
                    0 <= i < old(self).live().len() && i != p ==> final(self).live()[i] == old(
                        self,
                    ).live()[i])
                &&& final(self).live()[p].id == id
                &&& final(self).live()[p].tag == old(self).live()[p].tag
                &&& final(self).live()[p].alive_spec() == old(self).live()[p].alive_spec()
                &&& final(self).live()[p].kinds() == old(self).live()[p].kinds()
                &&& final(self).live()[p].components@ == old(self).live()[p].components@.update(
                    old(self).live()[p].kind_index(component.kind_spec()),
                    component,
                )
            }),
            r && row_has_id(old(self).pending(), id) ==> ({
                let p = row_index_of(old(self).pending(), id);
                &&& final(self).live() == old(self).live()
                &&& final(self).pending().len() == old(self).pending().len()
                &&& (forall|i: int|
                    0 <= i < old(self).pending().len() && i != p ==> final(self).pending()[i]
                        == old(self).pending()[i])
                &&& final(self).pending()[p].id == id
                &&& final(self).pending()[p].tag == old(self).pending()[p].tag
                &&& final(self).pending()[p].alive_spec() == old(self).pending()[p].alive_spec()
                &&& final(self).pending()[p].kinds() == old(self).pending()[p].kinds()
                &&& final(self).pending()[p].components@ == old(
                    self,
                ).pending()[p].components@.update(
                    old(self).pending()[p].kind_index(component.kind_spec()),
                    component,
                )
            }),
    {
        let n = self.entities.len();
        let mut i: usize = 0;
        while i < n
            invariant
                i <= n,
                n == self.entities@.len(),
                *self == *old(self),
                forall|j: int| 0 <= j < i ==> (#[trigger] self.live()[j]).id != id,
            decreases n - i,
        {
            if self.entities[i].id == id {
                proof {
                    assert(row_has_id(self.live(), id));
                    let p = row_index_of(old(self).live(), id);
                    if p != i as int {
                        assert(row_ids(old(self).live())[p] == id);
                        assert(row_ids(old(self).live())[i as int] == id);
                    }
                }
                let e = row_entry_mut(&mut self.entities, i);
                let replaced = e.replace_component(component);
                proof {
                    assert(self.live() =~= old(self).live().update(
                        i as int,
                        self.live()[i as int],
                    ));
                    assert(row_ids(self.live()) =~= row_ids(old(self).live()));
                    assert forall|ii: int| 0 <= ii < self.live().len() implies (
                    #[trigger] self.live()[ii]).wf() by {
                        if ii != i as int {
                            assert(self.live()[ii] == old(self).live()[ii]);
                        }
                    }
                    assert(rows_index_equiv(old(self).live(), self.live()));
                    Self::lemma_index_equations_preserved(*old(self), *self);
                    assert forall|id2: u64| row_has_id(self.live(), id2) implies !row_has_id(
                        self.pending(),
                        id2,
                    ) by {
                        if row_has_id(self.live(), id2) {
                            let q = row_index_of(self.live(), id2);
                            assert(old(self).live()[q].id == id2);
                            assert(row_has_id(old(self).live(), id2));
                        }
                    }
                }
                return replaced;
            }
            i += 1;
        }
        proof {
            if row_has_id(self.live(), id) {
                let p = row_index_of(self.live(), id);
                assert(self.live()[p].id != id);
            }
        }
        let m = self.pending_add.len();
        let mut j: usize = 0;
        while j < m
            invariant
                j <= m,
                m == self.pending_add@.len(),
                *self == *old(self),
                !row_has_id(self.live(), id),
                forall|jj: int| 0 <= jj < j ==> (#[trigger] self.pending()[jj]).id != id,
            decreases m - j,
        {
            if self.pending_add[j].id == id {
                proof {
                    assert(row_has_id(self.pending(), id));
                    let p = row_index_of(old(self).pending(), id);
                    if p != j as int {
                        assert(row_ids(old(self).pending())[p] == id);
                        assert(row_ids(old(self).pending())[j as int] == id);
                    }
                }
                let e = row_entry_mut(&mut self.pending_add, j);
                let replaced = e.replace_component(component);
                proof {
                    assert(self.pending() =~= old(self).pending().update(
                        j as int,
                        self.pending()[j as int],
                    ));
                    assert(row_ids(self.pending()) =~= row_ids(old(self).pending()));
                    assert forall|ii: int| 0 <= ii < self.pending().len() implies (
                    #[trigger] self.pending()[ii]).wf() by {
                        if ii != j as int {
                            assert(self.pending()[ii] == old(self).pending()[ii]);
                        }
                    }
                    Self::lemma_index_equations_preserved(*old(self), *self);
                    assert forall|id2: u64| row_has_id(self.live(), id2) implies !row_has_id(
                        self.pending(),
                        id2,
                    ) by {
                        if row_has_id(self.pending(), id2) {
                            let q = row_index_of(self.pending(), id2);
                            assert(old(self).pending()[q].id == id2);
                            assert(row_has_id(old(self).pending(), id2));
                        }
                    }
                }
                return replaced;
            }
            j += 1;
        }
        proof {
            if row_has_id(self.pending(), id) {
                let p = row_index_of(self.pending(), id);
                assert(self.pending()[p].id != id);
            }
        }
        false
    }

    /// The number of combination buckets the index currently holds, empty
    /// and stale buckets included.
    pub fn component_bucket_count(&self) -> (r: usize)
        requires
            self.wf(),
        ensures
            r == self.combo_buckets().dom().len(),
    {
        self.component_index.bucket_count()
    }

    /// The reap phase of `update`: removes every entity marked dead from
    /// the live row and from every bucket of both secondary indices. Every
    /// other committed entity keeps its exact value.
    #[verifier::loop_isolation(false)]
    fn safe_remove_entity(&mut self)
        requires
            old(self).wf(),
        ensures
            final(self).wf(),
            final(self).size == old(self).size,
            final(self).default_tag == old(self).default_tag,
            final(self).pending() == old(self).pending(),
            forall|id: u64|
                #[trigger] row_has_id(final(self).live(), id) == (row_has_id(
                    old(self).live(),
                    id,
                ) && entity_of(old(self).live(), id).alive_spec()),
            forall|id: u64|
                row_has_id(final(self).live(), id) ==> entity_of(final(self).live(), id)
                    == entity_of(old(self).live(), id),
            forall|i: int|
                0 <= i < final(self).live().len() ==> (#[trigger] final(self).live()[i])
                    .alive_spec(),
    {
        let mut i: usize = 0;
        while i < self.entities.len()
            invariant
                i <= self.entities@.len(),
                self.wf(),
                self.size == old(self).size,
                self.default_tag == old(self).default_tag,
                self.pending() == old(self).pending(),
                forall|j: int| 0 <= j < i ==> (#[trigger] self.live()[j]).alive_spec(),
                forall|id: u64|
                    #[trigger] row_has_id(self.live(), id) ==> row_has_id(old(self).live(), id)
                        && entity_of(self.live(), id) == entity_of(old(self).live(), id),
                forall|id: u64|
                    row_has_id(old(self).live(), id) && entity_of(old(self).live(), id).alive_spec()
                        ==> #[trigger] row_has_id(self.live(), id),
            decreases self.entities@.len() - i,
        {
            if self.entities[i].is_alive() {
                i += 1;
            } else {
                let ghost prior = *self;
                let id = self.entities[i].id;
                proof {
                    assert(self.live()[i as int].id == id);
                    assert(row_has_id(self.live(), id));
                    assert forall|j: int|
                        0 <= j < self.live().len() && j != i as int implies (
                    #[trigger] self.live()[j]).id != id by {
                        if self.live()[j].id == id {
                            assert(row_ids(self.live())[j] == id);
                            assert(row_ids(self.live())[i as int] == id);
                        }
                    }
                    assert(row_index_of(self.live(), id) == i as int);
                }
                // remove the identifier from every combination bucket it is in:
                // by well-formedness those are exactly the entity's own keys
                let ncombos = self.entities[i].components_combination.len();
                let mut jj: usize = 0;
                while jj < ncombos
                    invariant
                        jj <= ncombos,
                        self.entities == prior.entities,
                        self.tags == prior.tags,
                        self.pending_add == prior.pending_add,
                        self.size == prior.size,
                        self.default_tag == prior.default_tag,
                        ncombos == prior.live()[i as int].components_combination@.len(),
                        i < prior.live().len(),
                        self.combo_buckets().dom().finite(),
                        forall|k: Seq<u64>, id2: u64|
                            id2 != id ==> #[trigger] bucket_or_empty(
                                self.combo_buckets(),
                                k,
                            ).contains(id2) == bucket_or_empty(prior.combo_buckets(), k).contains(
                                id2,
                            ),
                        forall|k: Seq<u64>|
                            #[trigger] bucket_or_empty(self.combo_buckets(), k).contains(id) == (
                            bucket_or_empty(prior.combo_buckets(), k).contains(id)
                                && !prior.live()[i as int].combos().subrange(
                                0,
                                jj as int,
                            ).contains(k)),
                    decreases ncombos - jj,
                {
                    let ghost pre_step = *self;
                    self.component_index.remove(&self.entities[i].components_combination[jj], id);
                    proof {
                        let kk = prior.live()[i as int].combos()[jj as int];
                        assert forall|k: Seq<u64>, id2: u64|
                            id2 != id implies #[trigger] bucket_or_empty(
                            self.combo_buckets(),
                            k,
                        ).contains(id2) == bucket_or_empty(prior.combo_buckets(), k).contains(
                            id2,
                        ) by {
                            assert(bucket_or_empty(pre_step.combo_buckets(), k).contains(id2)
                                == bucket_or_empty(prior.combo_buckets(), k).contains(id2));
                        }
                        assert forall|k: Seq<u64>|
                            #[trigger] bucket_or_empty(self.combo_buckets(), k).contains(id) == (
                            bucket_or_empty(prior.combo_buckets(), k).contains(id) && !prior.live()[
                                i as int
                            ].combos().subrange(0, jj as int + 1).contains(k)) by {
                            if k == kk {
                                assert(prior.live()[i as int].combos().subrange(
                                    0,
                                    jj as int + 1,
                                )[jj as int] == k);
                            } else {
                                assert(bucket_or_empty(self.combo_buckets(), k).contains(id)
                                    == bucket_or_empty(pre_step.combo_buckets(), k).contains(id));
                                assert(prior.live()[i as int].combos().subrange(
                                    0,
                                    jj as int + 1,
                                ).contains(k) == prior.live()[i as int].combos().subrange(
                                    0,
                                    jj as int,
                                ).contains(k)) by {
                                    let s1 = prior.live()[i as int].combos().subrange(
                                        0,
                                        jj as int + 1,
                                    );
                                    let s0 = prior.live()[i as int].combos().subrange(0, jj as int);
                                    assert(s1.drop_last() =~= s0);
                                    if s0.contains(k) {
                                        let w = choose|w: int| 0 <= w < s0.len() && s0[w] == k;
                                        assert(s1[w] == k);
                                    }
                                    if s1.contains(k) {
                                        let w = choose|w: int| 0 <= w < s1.len() && s1[w] == k;
                                        assert(w < s0.len() || s1[w] == kk);
                                        if w < s0.len() {
                                            assert(s0[w] == k);
                                        }
                                    }
                                }
                            }
                        }
                    }
                    jj += 1;
                }
                proof {
                    let e = prior.live()[i as int];
                    assert forall|k: Seq<u64>|
                        !(#[trigger] bucket_or_empty(self.combo_buckets(), k).contains(id)) by {
                        if bucket_or_empty(prior.combo_buckets(), k).contains(id) {
                            assert(prior.live_combo_has(k, id));
                            let w = choose|w: int|
                                0 <= w < prior.live().len() && (#[trigger] prior.live()[w]).id
                                    == id && prior.live()[w].combos().contains(k);
                            assert(w == i as int) by {
                                if w != i as int {
                                    assert(row_ids(prior.live())[w] == id);
                                    assert(row_ids(prior.live())[i as int] == id);
                                }
                            }
                            assert(e.combos().subrange(0, ncombos as int) =~= e.combos());
                        }
                    }
                }
                // remove the identifier from its tag bucket
                let ghost mid = *self;
                let tk = self.entities[i].tag.tag_key();
                self.tags.remove(tk, id);
                proof {
                    assert(mid.tag_buckets() == prior.tag_buckets());
                    assert forall|t: u64|
                        !(#[trigger] bucket_or_empty(self.tag_buckets(), t).contains(id)) by {
                        if t != tk {
                            assert(bucket_or_empty(mid.tag_buckets(), t).contains(id)
                                == prior.live_tag_has(t, id));
                            if prior.live_tag_has(t, id) {
                                let w = choose|w: int|
                                    0 <= w < prior.live().len() && (#[trigger] prior.live()[w]).id
                                        == id && prior.live()[w].tag.tag_key_spec() == t;
                                assert(w == i as int) by {
                                    if w != i as int {
                                        assert(row_ids(prior.live())[w] == id);
                                        assert(row_ids(prior.live())[i as int] == id);
                                    }
                                }
                            }
                        }
                    }
                }
                // drop the entity itself
                let ghost before_drop = *self;
                self.entities.remove(i);
                proof {
                    let oldrow = before_drop.live();
                    let newrow = self.live();
                    assert(newrow =~= oldrow.remove(i as int));
                    assert(self.tag_buckets() == before_drop.tag_buckets());
                    assert(self.combo_buckets() == before_drop.combo_buckets());
                    assert forall|t: u64|
                        !(#[trigger] bucket_or_empty(self.tag_buckets(), t).contains(id)) by {
                        assert(!bucket_or_empty(before_drop.tag_buckets(), t).contains(id));
                    }
                    assert forall|id2: u64| #[trigger] row_has_id(newrow, id2) implies row_has_id(
                        oldrow,
                        id2,
                    ) && id2 != id && entity_of(newrow, id2) == entity_of(oldrow, id2) by {
                        let w = row_index_of(newrow, id2);
                        let wo: int = if w < i as int {
                            w
                        } else {
                            w + 1
                        };
                        assert(newrow[w] == oldrow[wo]);
                        assert(row_has_id(oldrow, id2));
                        if id2 == id {
                            assert(row_ids(oldrow)[wo] == id);
                            assert(row_ids(oldrow)[i as int] == id);
                        }
                        assert(row_index_of(oldrow, id2) == wo) by {
                            let u = row_index_of(oldrow, id2);
                            if u != wo {
                                assert(row_ids(oldrow)[u] == id2);
                                assert(row_ids(oldrow)[wo] == id2);
                            }
                        }
                        assert(row_index_of(newrow, id2) == w);
                    }
                    assert forall|id2: u64|
                        row_has_id(oldrow, id2) && id2 != id implies #[trigger] row_has_id(
                        newrow,
                        id2,
                    ) by {
                        let u = row_index_of(oldrow, id2);
                        assert(u != i as int);
                        if u < i as int {
                            assert(newrow[u] == oldrow[u]);
                        } else {
                            assert(newrow[u - 1] == oldrow[u]);
                        }
                    }
                    assert(row_ids(newrow).no_duplicates()) by {
                        assert forall|a: int, b: int|
                            0 <= a < b < newrow.len() implies #[trigger] row_ids(newrow)[a]
                            != #[trigger] row_ids(newrow)[b] by {
                            let ao: int = if a < i as int {
                                a
                            } else {
                                a + 1
                            };
                            let bo: int = if b < i as int {
                                b
                            } else {
                                b + 1
                            };
                            assert(newrow[a] == oldrow[ao] && newrow[b] == oldrow[bo]);
                            assert(row_ids(oldrow)[ao] != row_ids(oldrow)[bo]);
                        }
                    }
                    assert forall|k: Seq<u64>, id2: u64|
                        #[trigger] bucket_or_empty(self.combo_buckets(), k).contains(id2)
                            == self.live_combo_has(k, id2) by {
                        if id2 == id {
                            if self.live_combo_has(k, id) {
                                let w = choose|w: int|
                                    0 <= w < newrow.len() && (#[trigger] newrow[w]).id == id
                                        && newrow[w].combos().contains(k);
                                assert(row_has_id(newrow, id));
                            }
                        } else {
                            assert(bucket_or_empty(self.combo_buckets(), k).contains(id2)
                                == bucket_or_empty(prior.combo_buckets(), k).contains(id2));
                            assert(bucket_or_empty(prior.combo_buckets(), k).contains(id2)
                                == prior.live_combo_has(k, id2));
                            if prior.live_combo_has(k, id2) {
                                let w = choose|w: int|
                                    0 <= w < oldrow.len() && (#[trigger] oldrow[w]).id == id2
                                        && oldrow[w].combos().contains(k);
                                assert(w != i as int);
                                if w < i as int {
                                    assert(newrow[w] == oldrow[w]);
                                } else {
                                    assert(newrow[w - 1] == oldrow[w]);
                                }
                                assert(self.live_combo_has(k, id2));
                            }
                            if self.live_combo_has(k, id2) {
                                let w = choose|w: int|
                                    0 <= w < newrow.len() && (#[trigger] newrow[w]).id == id2
                                        && newrow[w].combos().contains(k);
                                let wo: int = if w < i as int {
                                    w
                                } else {
                                    w + 1
                                };
                                assert(oldrow[wo] == newrow[w]);
                                assert(prior.live_combo_has(k, id2));
                            }
                        }
                    }
                    assert forall|t: u64, id2: u64|
                        #[trigger] bucket_or_empty(self.tag_buckets(), t).contains(id2)
                            == self.live_tag_has(t, id2) by {
                        if id2 == id {
                            if self.live_tag_has(t, id) {
                                let w = choose|w: int|
                                    0 <= w < newrow.len() && (#[trigger] newrow[w]).id == id
                                        && newrow[w].tag.tag_key_spec() == t;
                                assert(row_has_id(newrow, id));
                            }
                        } else {
                            assert(bucket_or_empty(self.tag_buckets(), t).contains(id2)
                                == bucket_or_empty(prior.tag_buckets(), t).contains(id2));
                            assert(bucket_or_empty(prior.tag_buckets(), t).contains(id2)
                                == prior.live_tag_has(t, id2));
                            if prior.live_tag_has(t, id2) {
                                let w = choose|w: int|
                                    0 <= w < oldrow.len() && (#[trigger] oldrow[w]).id == id2
                                        && oldrow[w].tag.tag_key_spec() == t;
                                assert(w != i as int);
                                if w < i as int {
                                    assert(newrow[w] == oldrow[w]);
                                } else {
                                    assert(newrow[w - 1] == oldrow[w]);
                                }
                                assert(self.live_tag_has(t, id2));
                            }
                            if self.live_tag_has(t, id2) {
                                let w = choose|w: int|
                                    0 <= w < newrow.len() && (#[trigger] newrow[w]).id == id2
                                        && newrow[w].tag.tag_key_spec() == t;
                                let wo: int = if w < i as int {
                                    w
                                } else {
                                    w + 1
                                };
                                assert(oldrow[wo] == newrow[w]);
                                assert(prior.live_tag_has(t, id2));
                            }
                        }
                    }
                    assert forall|j: int| 0 <= j < newrow.len() implies (
                    #[trigger] newrow[j]).wf() by {
                        if j < i as int {
                            assert(newrow[j] == oldrow[j]);
                        } else {
                            assert(newrow[j] == oldrow[j + 1]);
                        }
                    }
                    assert forall|j: int| 0 <= j < newrow.len() implies (#[trigger] newrow[j]).id
                        < self.size by {
                        if j < i as int {
                            assert(newrow[j] == oldrow[j]);
                        } else {
                            assert(newrow[j] == oldrow[j + 1]);
                        }
                    }
                    assert forall|id2: u64| row_has_id(newrow, id2) implies !row_has_id(
                        self.pending(),
                        id2,
                    ) by {
                        assert(row_has_id(prior.live(), id2));
                    }
                    assert forall|j: int| 0 <= j < i implies (#[trigger] self.live()[j])
                        .alive_spec() by {
                        assert(self.live()[j] == prior.live()[j]);
                    }
                }
            }
        }
    }
    /// The promote phase of `update`: drains the pending buffer, inserting
    /// each entity into the tag bucket for its tag key and into the
    /// combination bucket for every entry of its combination enumeration,
    /// then moving it into the live row — still carrying its death mark
    /// where it was destroyed while pending.
    #[verifier::loop_isolation(false)]
    fn safe_insert_entity(&mut self)
        requires
            old(self).wf(),
        ensures
            final(self).wf(),
            final(self).size == old(self).size,
            final(self).default_tag == old(self).default_tag,
            final(self).pending().len() == 0,
            forall|id: u64|
                #[trigger] row_has_id(final(self).live(), id) == (row_has_id(old(self).live(), id)
                    || row_has_id(old(self).pending(), id)),
            forall|id: u64|
                row_has_id(old(self).live(), id) ==> entity_of(final(self).live(), id) == entity_of(
                    old(self).live(),
                    id,
                ),
            forall|id: u64|
                #[trigger] row_has_id(old(self).pending(), id) ==> entity_of(
                    final(self).live(),
                    id,
                ) == entity_of(old(self).pending(), id),
    {
        while self.pending_add.len() > 0
            invariant
                self.wf(),
                self.size == old(self).size,
                self.default_tag == old(self).default_tag,
                self.pending().len() <= old(self).pending().len(),
                self.pending() == old(self).pending().subrange(0, self.pending().len() as int),
                forall|id: u64|
                    #[trigger] row_has_id(self.live(), id) == (row_has_id(old(self).live(), id) || (
                    row_has_id(old(self).pending(), id) && !row_has_id(self.pending(), id))),
                forall|id: u64|
                    row_has_id(old(self).live(), id) ==> entity_of(self.live(), id) == entity_of(
                        old(self).live(),
                        id,
                    ),
                forall|id: u64|
                    (row_has_id(old(self).pending(), id) && !row_has_id(self.pending(), id))
                        ==> entity_of(self.live(), id) == entity_of(old(self).pending(), id),
            decreases self.pending_add@.len(),
        {
            let ghost prior = *self;
            let popped = self.pending_add.pop();
            let e = match popped {
                Some(e) => e,
                None => {
                    proof {
                        assert(false);
                    }
                    return ;
                },
            };
            let ghost plen = prior.pending().len() as int;
            proof {
                assert(e == prior.pending()[plen - 1]);
                assert(self.pending() =~= prior.pending().drop_last());
                assert(row_ids(prior.pending())[plen - 1] == e.id);
                assert(row_has_id(prior.pending(), e.id));
                assert(!row_has_id(prior.live(), e.id)) by {
                    if row_has_id(prior.live(), e.id) {
                        assert(!row_has_id(prior.pending(), e.id));
                    }
                }
                assert(e.wf());
                assert forall|j: int| 0 <= j < plen - 1 implies (#[trigger] self.pending()[j]).id
                    != e.id by {
                    if self.pending()[j].id == e.id {
                        assert(row_ids(prior.pending())[j] == e.id);
                        assert(row_ids(prior.pending())[plen - 1] == e.id);
                    }
                }
            }
            let id = e.id;
            let tk = e.tag.tag_key();
            self.tags.add(tk, id);
            let ghost base = *self;
            let ncombos = e.components_combination.len();
            let mut jj: usize = 0;
            while jj < ncombos
                invariant
                    jj <= ncombos,
                    self.entities == base.entities,
                    self.tags == base.tags,
                    self.pending_add == base.pending_add,
                    self.size == base.size,
                    self.default_tag == base.default_tag,
                    ncombos == e.components_combination@.len(),
                    self.combo_buckets().dom().finite(),
                    forall|k: Seq<u64>, id2: u64|
                        id2 != id ==> #[trigger] bucket_or_empty(self.combo_buckets(), k).contains(
                            id2,
                        ) == bucket_or_empty(prior.combo_buckets(), k).contains(id2),
                    forall|k: Seq<u64>|
                        #[trigger] bucket_or_empty(self.combo_buckets(), k).contains(id) == (
                        bucket_or_empty(prior.combo_buckets(), k).contains(id) || e.combos()
                            .subrange(0, jj as int).contains(k)),
                decreases ncombos - jj,
            {
                let ghost pre_step = *self;
                self.component_index.add(&e.components_combination[jj], id);
                proof {
                    let kk = e.combos()[jj as int];
                    assert forall|k: Seq<u64>, id2: u64|
                        id2 != id implies #[trigger] bucket_or_empty(
                        self.combo_buckets(),
                        k,
                    ).contains(id2) == bucket_or_empty(prior.combo_buckets(), k).contains(id2) by {
                        assert(bucket_or_empty(pre_step.combo_buckets(), k).contains(id2)
                            == bucket_or_empty(prior.combo_buckets(), k).contains(id2));
                    }
                    assert forall|k: Seq<u64>|
                        #[trigger] bucket_or_empty(self.combo_buckets(), k).contains(id) == (
                        bucket_or_empty(prior.combo_buckets(), k).contains(id) || e.combos()
                            .subrange(0, jj as int + 1).contains(k)) by {
                        let s1 = e.combos().subrange(0, jj as int + 1);
                        let s0 = e.combos().subrange(0, jj as int);
                        assert(s1.drop_last() =~= s0);
                        assert(s1[jj as int] == kk);
                        if k == kk {
                            assert(s1.contains(k));
                        } else {
                            assert(bucket_or_empty(self.combo_buckets(), k).contains(id)
                                == bucket_or_empty(pre_step.combo_buckets(), k).contains(id));
                            assert(s1.contains(k) == s0.contains(k)) by {
                                if s0.contains(k) {
                                    let w = choose|w: int| 0 <= w < s0.len() && s0[w] == k;
                                    assert(s1[w] == k);
                                }
                                if s1.contains(k) {
                                    let w = choose|w: int| 0 <= w < s1.len() && s1[w] == k;
                                    if w < s0.len() {
                                        assert(s0[w] == k);
                                    }
                                }
                            }
                        }
                    }
                }
                jj += 1;
            }
            let ghost before_push = *self;
            self.entities.push(e);
            proof {
                let newrow = self.live();
                let oldrow = prior.live();
                assert(newrow =~= oldrow.push(e));
                assert(self.tag_buckets() == before_push.tag_buckets());
                assert(self.combo_buckets() == before_push.combo_buckets());
                assert(self.pending() == before_push.pending());
                assert(self.pending() =~= old(self).pending().subrange(
                    0,
                    self.pending().len() as int,
                )) by {
                    assert(prior.pending() == old(self).pending().subrange(0, plen));
                    assert(prior.pending().drop_last() =~= old(self).pending().subrange(
                        0,
                        plen - 1,
                    ));
                }
                // identifiers of the grown row
                assert(row_ids(newrow) =~= row_ids(oldrow).push(id));
                assert(row_ids(newrow).no_duplicates()) by {
                    assert forall|a: int, b: int|
                        0 <= a < b < newrow.len() implies #[trigger] row_ids(newrow)[a]
                        != #[trigger] row_ids(newrow)[b] by {
                        if b < newrow.len() - 1 {
                            assert(row_ids(oldrow)[a] != row_ids(oldrow)[b]);
                        } else {
                            assert(row_ids(newrow)[b] == id);
                            if row_ids(newrow)[a] == id {
                                assert(oldrow[a].id == id);
                                assert(row_has_id(oldrow, id));
                            }
                        }
                    }
                }
                assert forall|id2: u64| #[trigger] row_has_id(newrow, id2) == (row_has_id(
                    oldrow,
                    id2,
                ) || id2 == id) by {
                    if row_has_id(newrow, id2) {
                        let w = row_index_of(newrow, id2);
                        if w < newrow.len() - 1 {
                            assert(oldrow[w].id == id2);
                            assert(row_has_id(oldrow, id2));
                        }
                    }
                    if row_has_id(oldrow, id2) {
                        let w = row_index_of(oldrow, id2);
                        assert(newrow[w].id == id2);
                    }
                    if id2 == id {
                        assert(newrow[newrow.len() - 1].id == id);
                    }
                }
                // positions and values carry over
                assert forall|id2: u64| row_has_id(oldrow, id2) implies entity_of(newrow, id2)
                    == entity_of(oldrow, id2) by {
                    let w = row_index_of(oldrow, id2);
                    assert(newrow[w].id == id2);
                    assert(row_index_of(newrow, id2) == w) by {
                        let u = row_index_of(newrow, id2);
                        assert(row_has_id(newrow, id2));
                        if u != w {
                            assert(row_ids(newrow)[u] == id2);
                            assert(row_ids(newrow)[w] == id2);
                        }
                    }
                }
                assert(entity_of(newrow, id) == e) by {
                    let u = row_index_of(newrow, id);
                    assert(row_has_id(newrow, id));
                    if u != newrow.len() - 1 {
                        assert(row_ids(newrow)[u] == id);
                        assert(row_ids(newrow)[newrow.len() - 1] == id);
                    }
                }
                assert(entity_of(old(self).pending(), id) == e) by {
                    assert(old(self).pending()[plen - 1].id == id);
                    assert(row_has_id(old(self).pending(), id));
                    let u = row_index_of(old(self).pending(), id);
                    if u != plen - 1 {
                        assert(row_ids(old(self).pending())[u] == id);
                        assert(row_ids(old(self).pending())[plen - 1] == id);
                    }
                }
                // the combination equation
                assert forall|k: Seq<u64>, id2: u64|
                    #[trigger] bucket_or_empty(self.combo_buckets(), k).contains(id2)
                        == self.live_combo_has(k, id2) by {
                    if id2 == id {
                        assert(e.combos().subrange(0, ncombos as int) =~= e.combos());
                        assert(bucket_or_empty(prior.combo_buckets(), k).contains(id)
                            == prior.live_combo_has(k, id));
                        if prior.live_combo_has(k, id) {
                            let w = choose|w: int|
                                0 <= w < oldrow.len() && (#[trigger] oldrow[w]).id == id
                                    && oldrow[w].combos().contains(k);
                            assert(row_has_id(oldrow, id));
                        }
                        assert(bucket_or_empty(self.combo_buckets(), k).contains(id) == e.combos()
                            .contains(k));
                        if e.combos().contains(k) {
                            assert(newrow[newrow.len() - 1].id == id && newrow[newrow.len()
                                - 1].combos().contains(k));
                            assert(self.live_combo_has(k, id));
                        }
                        if self.live_combo_has(k, id) {
                            let w = choose|w: int|
                                0 <= w < newrow.len() && (#[trigger] newrow[w]).id == id
                                    && newrow[w].combos().contains(k);
                            if w != newrow.len() - 1 {
                                assert(row_ids(newrow)[w] == id);
                                assert(row_ids(newrow)[newrow.len() - 1] == id);
                            }
                            assert(e.combos().contains(k));
                        }
                    } else {
                        assert(bucket_or_empty(self.combo_buckets(), k).contains(id2)
                            == bucket_or_empty(prior.combo_buckets(), k).contains(id2));
                        if prior.live_combo_has(k, id2) {
                            let w = choose|w: int|
                                0 <= w < oldrow.len() && (#[trigger] oldrow[w]).id == id2
                                    && oldrow[w].combos().contains(k);
                            assert(newrow[w].id == id2 && newrow[w].combos().contains(k));
                            assert(self.live_combo_has(k, id2));
                        }
                        if self.live_combo_has(k, id2) {
                            let w = choose|w: int|
                                0 <= w < newrow.len() && (#[trigger] newrow[w]).id == id2
                                    && newrow[w].combos().contains(k);
                            assert(w != newrow.len() - 1);
                            assert(oldrow[w].id == id2 && oldrow[w].combos().contains(k));
                            assert(prior.live_combo_has(k, id2));
                        }
                    }
                }
                // the tag equation
                assert forall|t: u64, id2: u64|
                    #[trigger] bucket_or_empty(self.tag_buckets(), t).contains(id2)
                        == self.live_tag_has(t, id2) by {
                    assert(self.tag_buckets() == tag_index_view(prior.tags).insert(
                        tk,
                        bucket_or_empty(tag_index_view(prior.tags), tk).insert(id),
                    ));
                    if id2 == id {
                        assert(bucket_or_empty(prior.tag_buckets(), t).contains(id)
                            == prior.live_tag_has(t, id));
                        if prior.live_tag_has(t, id) {
                            let w = choose|w: int|
                                0 <= w < oldrow.len() && (#[trigger] oldrow[w]).id == id
                                    && oldrow[w].tag.tag_key_spec() == t;
                            assert(row_has_id(oldrow, id));
                        }
                        if t == tk {
                            assert(bucket_or_empty(self.tag_buckets(), t).contains(id));
                            assert(newrow[newrow.len() - 1].id == id && newrow[newrow.len()
                                - 1].tag.tag_key_spec() == tk);
                            assert(self.live_tag_has(tk, id));
                        } else {
                            assert(!bucket_or_empty(self.tag_buckets(), t).contains(id));
                            if self.live_tag_has(t, id) {
                                let w = choose|w: int|
                                    0 <= w < newrow.len() && (#[trigger] newrow[w]).id == id
                                        && newrow[w].tag.tag_key_spec() == t;
                                if w != newrow.len() - 1 {
                                    assert(row_ids(newrow)[w] == id);
                                    assert(row_ids(newrow)[newrow.len() - 1] == id);
                                }
                            }
                        }
                    } else {
                        assert(bucket_or_empty(self.tag_buckets(), t).contains(id2)
                            == bucket_or_empty(prior.tag_buckets(), t).contains(id2));
                        if prior.live_tag_has(t, id2) {
                            let w = choose|w: int|
                                0 <= w < oldrow.len() && (#[trigger] oldrow[w]).id == id2
                                    && oldrow[w].tag.tag_key_spec() == t;
                            assert(newrow[w].id == id2 && newrow[w].tag.tag_key_spec() == t);
                            assert(self.live_tag_has(t, id2));
                        }
                        if self.live_tag_has(t, id2) {
                            let w = choose|w: int|
                                0 <= w < newrow.len() && (#[trigger] newrow[w]).id == id2
                                    && newrow[w].tag.tag_key_spec() == t;
                            assert(w != newrow.len() - 1);
                            assert(oldrow[w].id == id2 && oldrow[w].tag.tag_key_spec() == t);
                            assert(prior.live_tag_has(t, id2));
                        }
                    }
                }
                // row well-formedness and disjointness
                assert forall|j: int| 0 <= j < newrow.len() implies (
                #[trigger] newrow[j]).wf() by {
                    if j < newrow.len() - 1 {
                        assert(newrow[j] == oldrow[j]);
                    } else {
                        assert(newrow[j] == e);
                    }
                }
                assert forall|j: int| 0 <= j < newrow.len() implies (#[trigger] newrow[j]).id
                    < self.size by {
                    if j < newrow.len() - 1 {
                        assert(newrow[j] == oldrow[j]);
                    } else {
                        assert(newrow[j] == e);
                        assert(prior.pending()[plen - 1].id < prior.size);
                    }
                }
                assert forall|id2: u64| row_has_id(newrow, id2) implies !row_has_id(
                    self.pending(),
                    id2,
                ) by {
                    if row_has_id(self.pending(), id2) {
                        let w = row_index_of(self.pending(), id2);
                        assert(prior.pending()[w].id == id2);
                        assert(row_has_id(prior.pending(), id2));
                        assert(!row_has_id(oldrow, id2));
                        assert(id2 != id);
                        assert(row_has_id(oldrow, id2));
                    }
                }
                assert(self.pending() =~= prior.pending().drop_last());
                assert forall|j: int| 0 <= j < self.pending().len() implies (
                #[trigger] self.pending()[j]).wf() by {
                    assert(self.pending()[j] == prior.pending()[j]);
                }
                assert forall|j: int| 0 <= j < self.pending().len() implies (
                #[trigger] self.pending()[j]).id < self.size by {
                    assert(self.pending()[j] == prior.pending()[j]);
                }
                assert(row_ids(self.pending()).no_duplicates()) by {
                    assert forall|a: int, b: int|
                        0 <= a < b < self.pending().len() implies #[trigger] row_ids(
                        self.pending(),
                    )[a] != #[trigger] row_ids(self.pending())[b] by {
                        assert(self.pending()[a] == prior.pending()[a]);
                        assert(self.pending()[b] == prior.pending()[b]);
                        assert(row_ids(prior.pending())[a] != row_ids(prior.pending())[b]);
                    }
                }
                assert(self.combo_buckets().dom().finite());
            }
        }
        proof {
            assert forall|id: u64| !(#[trigger] row_has_id(self.pending(), id)) by {
                if row_has_id(self.pending(), id) {
                    let w = row_index_of(self.pending(), id);
                }
            }
        }
    }

    /// No index entry dangles: every identifier that any bucket of either
    /// secondary index holds belongs to a present, committed entity. In
    /// particular an identifier that was reaped, is still pending, or was
    /// never created stands in no bucket.
    pub proof fn lemma_index_entries_backed(self)
        requires
            self.wf(),
        ensures
            forall|k: Seq<u64>, id: u64|
                #[trigger] bucket_or_empty(self.combo_buckets(), k).contains(id) ==> row_has_id(
                    self.live(),
                    id,
                ),
            forall|t: u64, id: u64|
                #[trigger] bucket_or_empty(self.tag_buckets(), t).contains(id) ==> row_has_id(
                    self.live(),
                    id,
                ),
    {
        assert forall|k: Seq<u64>, id: u64|
            #[trigger] bucket_or_empty(self.combo_buckets(), k).contains(id) implies row_has_id(
            self.live(),
            id,
        ) by {
            assert(self.live_combo_has(k, id));
            let w = choose|w: int|
                0 <= w < self.live().len() && (#[trigger] self.live()[w]).id == id
                    && self.live()[w].combos().contains(k);
        }
        assert forall|t: u64, id: u64|
            #[trigger] bucket_or_empty(self.tag_buckets(), t).contains(id) implies row_has_id(
            self.live(),
            id,
        ) by {
            assert(self.live_tag_has(t, id));
            let w = choose|w: int|
                0 <= w < self.live().len() && (#[trigger] self.live()[w]).id == id
                    && self.live()[w].tag.tag_key_spec() == t;
        }
    }

    /// An entity marked dead before a commit is wholly gone after it: the
    /// committed row no longer carries its identifier and no bucket of
    /// either index holds it. The hypotheses relating `pre` to `post` are
    /// what `update`'s contract gives its caller.
    pub proof fn lemma_update_reaps_dead(pre: Self, post: Self, id: u64)
        requires
            post.wf(),
            row_has_id(pre.live(), id),
            !entity_of(pre.live(), id).alive_spec(),
            !row_has_id(pre.pending(), id),
            forall|id2: u64|
                #[trigger] row_has_id(post.live(), id2) == ((row_has_id(pre.live(), id2)
                    && entity_of(pre.live(), id2).alive_spec()) || row_has_id(pre.pending(), id2)),
        ensures
            !row_has_id(post.live(), id),
            forall|k: Seq<u64>| !(#[trigger] bucket_or_empty(post.combo_buckets(), k).contains(id)),
            forall|t: u64| !(#[trigger] bucket_or_empty(post.tag_buckets(), t).contains(id)),
    {
        post.lemma_index_entries_backed();
    }

    /// Destroying one entity never touches another: every other committed
    /// entity that is still marked live keeps its exact value across a
    /// commit — whatever its tag — and stays in its tag bucket. The
    /// hypotheses relating `pre` to `post` are what `update`'s contract
    /// gives its caller.
    pub proof fn lemma_update_keeps_live(pre: Self, post: Self, other: u64)
        requires
            pre.wf(),
            post.wf(),
            row_has_id(pre.live(), other),
            entity_of(pre.live(), other).alive_spec(),
            forall|id2: u64|
                #[trigger] row_has_id(post.live(), id2) == ((row_has_id(pre.live(), id2)
                    && entity_of(pre.live(), id2).alive_spec()) || row_has_id(pre.pending(), id2)),
            forall|id2: u64|
                (row_has_id(pre.live(), id2) && entity_of(pre.live(), id2).alive_spec())
                    ==> entity_of(post.live(), id2) == entity_of(pre.live(), id2),
        ensures
            row_has_id(post.live(), other),
            entity_of(post.live(), other) == entity_of(pre.live(), other),
            bucket_or_empty(
                post.tag_buckets(),
                entity_of(pre.live(), other).tag.tag_key_spec(),
            ).contains(other),
    {
        let e = entity_of(pre.live(), other);
        assert(row_has_id(post.live(), other));
        assert(entity_of(post.live(), other) == e);
        let w = row_index_of(post.live(), other);
        assert(0 <= w < post.live().len() && (#[trigger] post.live()[w]).id == other);
        assert(post.live()[w] == entity_of(post.live(), other));
        assert(post.live()[w].tag.tag_key_spec() == e.tag.tag_key_spec());
        assert(post.live_tag_has(e.tag.tag_key_spec(), other));
        assert(bucket_or_empty(post.tag_buckets(), e.tag.tag_key_spec()).contains(other));
    }

    /// After creating one entity with a tag, attaching one component and
    /// committing, the tag bucket for that tag holds exactly the new
    /// entity, and exactly it has a component of that type — provided no
    /// other stored entity carries the tag's key or the component's type.
    /// The hypotheses relating `m0` through `m3` are what the contracts of
    /// `add_tag`, a successful `attach_component` and `update` give their
    /// caller.
    pub proof fn lemma_single_add_then_update(
        m0: Self,
        m1: Self,
        m2: Self,
        m3: Self,
        id: u64,
        tag: T,
        c: C,
    )
        requires
            m0.wf(),
            forall|i: int|
                0 <= i < m0.live().len() ==> (#[trigger] m0.live()[i]).tag.tag_key_spec()
                    != tag.tag_key_spec(),
            forall|i: int|
                0 <= i < m0.pending().len() ==> (#[trigger] m0.pending()[i]).tag.tag_key_spec()
                    != tag.tag_key_spec(),
            forall|i: int|
                0 <= i < m0.live().len() ==> !(#[trigger] m0.live()[i]).has_kind(c.kind_spec()),
            forall|i: int|
                0 <= i < m0.pending().len() ==> !(#[trigger] m0.pending()[i]).has_kind(
                    c.kind_spec(),
                ),
            // m1 stands to m0 as add_tag's contract states
            m1.live() == m0.live(),
            m1.pending().len() == m0.pending().len() + 1,
            m1.pending().drop_last() == m0.pending(),
            m1.pending().last().id == id,
            m1.pending().last().tag == tag,
            m1.pending().last().components@ == Seq::<C>::empty(),
            !row_has_id(m0.pending(), id),
            // m2 stands to m1 as a successful attach_component states
            m2.live() == m1.live(),
            m2.pending().len() == m1.pending().len(),
            (forall|i: int|
                0 <= i < m1.pending().len() && i != row_index_of(m1.pending(), id) ==> (
                #[trigger] m2.pending()[i]) == m1.pending()[i]),
            m2.pending()[row_index_of(m1.pending(), id)].id == id,
            m2.pending()[row_index_of(m1.pending(), id)].tag == m1.pending()[row_index_of(
                m1.pending(),
                id,
            )].tag,
            m2.pending()[row_index_of(m1.pending(), id)].kind_set() == m1.pending()[row_index_of(
                m1.pending(),
                id,
            )].kind_set().insert(c.kind_spec()),
            (exists|j: int|
                0 <= j <= m1.pending()[row_index_of(m1.pending(), id)].components@.len()
                    && m2.pending()[row_index_of(m1.pending(), id)].components@ == #[trigger] m1
                    .pending()[row_index_of(m1.pending(), id)].components@.insert(j, c)),
            // m3 stands to m2 as update's contract states
            m3.wf(),
            forall|id2: u64|
                #[trigger] row_has_id(m3.live(), id2) == ((row_has_id(m2.live(), id2) && entity_of(
                    m2.live(),
                    id2,
                ).alive_spec()) || row_has_id(m2.pending(), id2)),
            forall|id2: u64|
                #[trigger] row_has_id(m2.pending(), id2) ==> entity_of(m3.live(), id2) == entity_of(
                    m2.pending(),
                    id2,
                ),
            forall|id2: u64|
                (row_has_id(m2.live(), id2) && entity_of(m2.live(), id2).alive_spec())
                    ==> entity_of(m3.live(), id2) == entity_of(m2.live(), id2),
        ensures
            row_has_id(m3.live(), id),
            entity_of(m3.live(), id).tag == tag,
            entity_of(m3.live(), id).component_with(c.kind_spec()) == c,
            forall|id2: u64| m3.live_tag_has(tag.tag_key_spec(), id2) == (id2 == id),
            forall|id2: u64|
                (#[trigger] row_has_id(m3.live(), id2) && entity_of(m3.live(), id2).has_kind(
                    c.kind_spec(),
                )) == (id2 == id),
    {
        let tk = tag.tag_key_spec();
        let kd = c.kind_spec();
        let plen = m1.pending().len() as int;
        // the new entity sits at the end of the pending row of m1
        assert(row_has_id(m1.pending(), id)) by {
            assert(row_ids(m1.pending())[plen - 1] == id);
        }
        let p = row_index_of(m1.pending(), id);
        assert(p == plen - 1) by {
            if p != plen - 1 {
                assert(m1.pending()[p].id == id);
                assert(m1.pending().drop_last()[p] == m1.pending()[p]);
                assert(m0.pending()[p].id == id);
                assert(row_has_id(m0.pending(), id));
            }
        }
        let e1 = m1.pending()[p];
        let e2 = m2.pending()[p];
        assert(e2.id == id && e2.tag == tag);
        assert(e2.kind_set() =~= Set::empty().insert(kd)) by {
            assert(e1.kinds() =~= Seq::empty());
            assert forall|x: u64| e1.kind_set().contains(x) implies false by {
                assert(e1.kinds().contains(x));
            }
            assert(e1.kind_set() =~= Set::empty());
        }
        assert(e2.components@ =~= seq![c]) by {
            let j = choose|j: int|
                0 <= j <= e1.components@.len() && e2.components@ == #[trigger] e1.components@
                    .insert(j, c);
            assert(e1.components@.insert(0, c) =~= seq![c]);
        }
        // id is in m2's pending row, at the same spot
        assert(row_has_id(m2.pending(), id)) by {
            assert(row_ids(m2.pending())[p] == id);
        }
        assert(entity_of(m2.pending(), id) == e2) by {
            let u = row_index_of(m2.pending(), id);
            if u != p {
                assert(m2.pending()[u].id == id);
                if u < plen - 1 {
                    assert(m2.pending()[u] == m1.pending()[u]);
                    assert(m1.pending()[u].id == id);
                    assert(m1.pending().drop_last()[u] == m1.pending()[u]);
                    assert(m0.pending()[u].id == id);
                    assert(row_has_id(m0.pending(), id));
                }
            }
        }
        // after the commit the entity is live, with its exact value
        assert(row_has_id(m3.live(), id));
        let e3 = entity_of(m3.live(), id);
        assert(e3 == e2);
        assert(e3.component_with(kd) == c) by {
            assert(e3.kinds() =~= seq![kd]);
            assert(e3.kinds()[0] == kd);
            assert(e3.kinds().contains(kd));
            let w = e3.kind_index(kd);
            assert(0 <= w < e3.kinds().len() && e3.kinds()[w] == kd);
        }
        // no other committed entity carries the tag key or the component type
        assert forall|id2: u64| id2 != id && row_has_id(m3.live(), id2) implies entity_of(
            m3.live(),
            id2,
        ).tag.tag_key_spec() != tk && !entity_of(m3.live(), id2).has_kind(kd) by {
            if row_has_id(m2.live(), id2) && entity_of(m2.live(), id2).alive_spec() {
                assert(entity_of(m3.live(), id2) == entity_of(m2.live(), id2));
                let w = row_index_of(m2.live(), id2);
                assert(m0.live()[w].tag.tag_key_spec() != tk);
                assert(!m0.live()[w].has_kind(kd));
            } else {
                assert(row_has_id(m2.pending(), id2));
                assert(entity_of(m3.live(), id2) == entity_of(m2.pending(), id2));
                let w = row_index_of(m2.pending(), id2);
                assert(m2.pending()[w].id == id2);
                assert(w != p);
                assert(m2.pending()[w] == m1.pending()[w]);
                assert(w < plen - 1);
                assert(m1.pending().drop_last()[w] == m1.pending()[w]);
                assert(m0.pending()[w].tag.tag_key_spec() != tk);
                assert(!m0.pending()[w].has_kind(kd));
            }
        }
        assert forall|id2: u64| #[trigger] m3.live_tag_has(tk, id2) == (id2 == id) by {
            if id2 == id {
                let u = row_index_of(m3.live(), id);
                assert(m3.live()[u] == e3 && m3.live()[u].id == id);
                assert(m3.live_tag_has(tk, id));
            } else {
                if m3.live_tag_has(tk, id2) {
                    let w = choose|w: int|
                        0 <= w < m3.live().len() && (#[trigger] m3.live()[w]).id == id2
                            && m3.live()[w].tag.tag_key_spec() == tk;
                    assert(row_ids(m3.live())[w] == id2);
                    assert(row_has_id(m3.live(), id2));
                    assert(entity_of(m3.live(), id2) == m3.live()[w]) by {
                        let u = row_index_of(m3.live(), id2);
                        if u != w {
                            assert(row_ids(m3.live())[u] == id2);
                        }
                    }
                }
            }
        }
        assert forall|id2: u64|
            (#[trigger] row_has_id(m3.live(), id2) && entity_of(m3.live(), id2).has_kind(kd)) == (
            id2 == id) by {
            if id2 == id {
                assert(e3.kind_set().contains(kd));
            }
        }
    }

    /// Commits the frame's changes, in two phases: first every entity
    /// marked dead leaves the live row and both secondary indices, then
    /// every pending entity is indexed under its tag key and under each of
    /// its component-type combinations and joins the live row. Reaping
    /// always precedes promotion, so an entity destroyed while pending is
    /// promoted — still marked dead — and reaped only by the next call.
    pub fn update(&mut self)
        requires
            old(self).wf(),
        ensures
            final(self).wf(),
            final(self).size == old(self).size,
            final(self).default_tag == old(self).default_tag,
            final(self).pending().len() == 0,
            forall|id: u64|
                #[trigger] row_has_id(final(self).live(), id) == ((row_has_id(
                    old(self).live(),
                    id,
                ) && entity_of(old(self).live(), id).alive_spec()) || row_has_id(
                    old(self).pending(),
                    id,
                )),
            forall|id: u64|
                (row_has_id(old(self).live(), id) && entity_of(old(self).live(), id).alive_spec())
                    ==> entity_of(final(self).live(), id) == entity_of(old(self).live(), id),
            forall|id: u64|
                #[trigger] row_has_id(old(self).pending(), id) ==> entity_of(
                    final(self).live(),
                    id,
                ) == entity_of(old(self).pending(), id),
    {
        let ghost initial = *old(self);
        self.safe_remove_entity();
        let ghost reaped = *self;
        self.safe_insert_entity();
        proof {
            assert forall|id: u64|
                #[trigger] row_has_id(self.live(), id) == ((row_has_id(initial.live(), id)
                    && entity_of(initial.live(), id).alive_spec()) || row_has_id(
                    initial.pending(),
                    id,
                )) by {
                assert(row_has_id(self.live(), id) == (row_has_id(reaped.live(), id) || row_has_id(
                    reaped.pending(),
                    id,
                )));
            }
            assert forall|id: u64|
                (row_has_id(initial.live(), id) && entity_of(initial.live(), id).alive_spec())
                    implies entity_of(self.live(), id) == entity_of(initial.live(), id) by {
                assert(row_has_id(reaped.live(), id));
                assert(entity_of(reaped.live(), id) == entity_of(initial.live(), id));
            }
        }
    }
}

impl<T: Tag + Copy, C: Component> EntityManager<T, C> {
    /// Allocates a fresh identifier and buffers a new entity carrying it
    /// and the manager's default tag.
    pub fn add(&mut self) -> (id: EntityId)
        requires
            old(self).wf(),
            old(self).size < u64::MAX,
        ensures
            final(self).wf(),
            id == old(self).size,
            final(self).size == old(self).size + 1,
            final(self).live() == old(self).live(),
            final(self).combo_buckets() == old(self).combo_buckets(),
            final(self).tag_buckets() == old(self).tag_buckets(),
            final(self).default_tag == old(self).default_tag,
            final(self).pending().len() == old(self).pending().len() + 1,
            final(self).pending().drop_last() == old(self).pending(),
            final(self).pending().last().id == id,
            final(self).pending().last().tag == old(self).default_tag,
            final(self).pending().last().alive_spec(),
            final(self).pending().last().components@ == Seq::<C>::empty(),
            final(self).pending().last().combos() == Seq::<Seq<u64>>::empty(),
            !row_has_id(old(self).live(), id),
            !row_has_id(old(self).pending(), id),
    {
        let tag = self.default_tag;
        self.add_tag(tag)
    }
}

} // verus!
