use vstd::prelude::*;

verus! {

use crate::Component;
use crate::type_query::TypeQuery;

/// An unsigned identifier, unique for the lifetime of the manager that
/// allocated it. Identifiers are never reused.
pub type EntityId = u64;

/// Whether `s` is strictly increasing.
pub open spec fn sorted_strict(s: Seq<u64>) -> bool {
    forall|i: int, j: int| 0 <= i < j < s.len() ==> s[i] < s[j]
}

/// Two to the power `k`.
pub open spec fn pow2(k: nat) -> nat
    decreases k,
{
    if k == 0 {
        1
    } else {
        2 * pow2((k - 1) as nat)
    }
}

/// Whether `s` denotes a component-type combination over the identity set
/// `ks`: a non-empty, strictly sorted list of identities drawn from `ks`.
pub open spec fn is_combination_of(s: Seq<u64>, ks: Set<u64>) -> bool {
    &&& s.len() > 0
    &&& sorted_strict(s)
    &&& forall|i: int| 0 <= i < s.len() ==> ks.contains(#[trigger] s[i])
}

/// The views of a sequence of lists, as index keys.
pub open spec fn views_of(v: Seq<Vec<u64>>) -> Seq<Seq<u64>> {
    v.map_values(|x: Vec<u64>| x@)
}

/// A mutable borrow of the slot at position `i` of a vector.
fn vec_entry_mut<'a, A>(v: &'a mut Vec<A>, i: usize) -> (e: &'a mut A)
    requires
        i < old(v).len(),
    ensures
        *e == old(v)@[i as int],
        final(v)@ == old(v)@.update(i as int, *final(e)),
{
    &mut v[i]
}

/// Copies a list of type identities.
pub(crate) fn copy_list(v: &Vec<u64>) -> (r: Vec<u64>)
    ensures
        r@ == v@,
{
    let mut r: Vec<u64> = Vec::new();
    let mut i: usize = 0;
    while i < v.len()
        invariant
            i <= v@.len(),
            r@ == v@.subrange(0, i as int),
        decreases v@.len() - i,
    {
        r.push(v[i]);
        assert(r@ =~= v@.subrange(0, i + 1));
        i += 1;
    }
    assert(r@ =~= v@);
    r
}

/// Enumerates every combination over the identities in `kinds`: each
/// non-empty strictly sorted selection appears exactly once, so for `k`
/// identities the result has `2^k - 1` entries. Processing identities in
/// increasing order keeps every produced list sorted: for each identity,
/// the enumeration so far is doubled by extending a copy of each earlier
/// entry, and the new singleton is added.
fn all_combinations(kinds: &Vec<u64>) -> (r: Vec<Vec<u64>>)
    requires
        sorted_strict(kinds@),
    ensures
        r@.len() == pow2(kinds@.len() as nat) - 1,
        forall|i: int|
            0 <= i < r@.len() ==> is_combination_of(#[trigger] views_of(r@)[i], kinds@.to_set()),
        forall|s: Seq<u64>|
            #[trigger] is_combination_of(s, kinds@.to_set()) ==> views_of(r@).contains(s),
        views_of(r@).no_duplicates(),
{
    let n = kinds.len();
    let mut r: Vec<Vec<u64>> = Vec::new();
    proof {
        assert forall|s: Seq<u64>| #[trigger] is_combination_of(
            s,
            kinds@.subrange(0, 0).to_set(),
        ) implies views_of(r@).contains(s) by {
            assert(kinds@.subrange(0, 0).to_set().contains(s[0]));
            assert(kinds@.subrange(0, 0).contains(s[0]));
        }
    }
    let mut idx: usize = 0;
    while idx < n
        invariant
            idx <= n,
            n == kinds@.len(),
            sorted_strict(kinds@),
            r@.len() == pow2(idx as nat) - 1,
            forall|i: int|
                0 <= i < r@.len() ==> is_combination_of(
                    #[trigger] views_of(r@)[i],
                    kinds@.subrange(0, idx as int).to_set(),
                ),
            forall|s: Seq<u64>|
                #[trigger] is_combination_of(s, kinds@.subrange(0, idx as int).to_set())
                    ==> views_of(r@).contains(s),
            views_of(r@).no_duplicates(),
        decreases n - idx,
    {
        let ghost pset = kinds@.subrange(0, idx as int).to_set();
        let t = kinds[idx];
        proof {
            lemma_prefix_set_step(kinds@, idx as int);
        }
        let ghost snap = r@;
        let base = r.len();
        let mut single: Vec<u64> = Vec::new();
        single.push(t);
        assert(single@ =~= seq![t]);
        r.push(single);
        let mut j: usize = 0;
        while j < base
            invariant
                j <= base,
                base == snap.len(),
                n == kinds@.len(),
                idx < n,
                t == kinds@[idx as int],
                r@.len() == base + 1 + j,
                forall|i: int| 0 <= i < base ==> r@[i] == snap[i],
                views_of(r@)[base as int] == seq![t],
                forall|p: int|
                    base < p < r@.len() ==> #[trigger] views_of(r@)[p] == views_of(snap)[p - base
                        - 1].push(t),
            decreases base - j,
        {
            let ghost r0 = r@;
            let mut ext = copy_list(&r[j]);
            assert(ext@ == snap[j as int]@);
            ext.push(t);
            r.push(ext);
            proof {
                assert(r@ == r0.push(ext));
                assert forall|p: int| base < p < r@.len() implies #[trigger] views_of(r@)[p]
                    == views_of(snap)[p - base - 1].push(t) by {
                    if p < r@.len() - 1 {
                        assert(r@[p] == r0[p]);
                        assert(views_of(r0)[p] == views_of(snap)[p - base - 1].push(t));
                    } else {
                        assert(r@[p] == ext);
                        assert(p - base - 1 == j);
                    }
                }
            }
            j += 1;
        }
        proof {
            lemma_outer_step(kinds@, idx as int, snap, r@);
        }
        idx += 1;
    }
    proof {
        assert(kinds@.subrange(0, n as int) =~= kinds@);
    }
    r
}

/// The identity prefix one longer has the set of the shorter prefix plus
/// the next identity, and that identity is larger than all of the set.
proof fn lemma_prefix_set_step(kinds: Seq<u64>, idx: int)
    requires
        sorted_strict(kinds),
        0 <= idx < kinds.len(),
    ensures
        kinds.subrange(0, idx + 1).to_set() =~= kinds.subrange(0, idx).to_set().insert(
            kinds[idx],
        ),
        !kinds.subrange(0, idx).to_set().contains(kinds[idx]),
        forall|x: u64|
            kinds.subrange(0, idx).to_set().contains(x) ==> x < kinds[idx],
{
    let t = kinds[idx];
    let pre = kinds.subrange(0, idx);
    let pre1 = kinds.subrange(0, idx + 1);
    assert(pre1 =~= pre.push(t));
    pre.lemma_push_to_set_commute(t);
    assert forall|x: u64| pre.to_set().contains(x) implies x < t by {
        let i = choose|i: int| 0 <= i < pre.len() && pre[i] == x;
        assert(kinds[i] == x);
    }
}

/// One outer step of the enumeration is correct: given a correct
/// enumeration `snap` over the identities before `idx`, the grown
/// enumeration `grown` — `snap`, then the singleton of the identity at
/// `idx`, then each entry of `snap` extended by that identity — is a
/// correct enumeration over the identities through `idx`.
proof fn lemma_outer_step(kinds: Seq<u64>, idx: int, snap: Seq<Vec<u64>>, grown: Seq<Vec<u64>>)
    requires
        sorted_strict(kinds),
        0 <= idx < kinds.len(),
        snap.len() == pow2(idx as nat) - 1,
        forall|i: int|
            0 <= i < snap.len() ==> is_combination_of(
                #[trigger] views_of(snap)[i],
                kinds.subrange(0, idx).to_set(),
            ),
        forall|s: Seq<u64>|
            #[trigger] is_combination_of(s, kinds.subrange(0, idx).to_set()) ==> views_of(
                snap,
            ).contains(s),
        views_of(snap).no_duplicates(),
        grown.len() == 2 * snap.len() + 1,
        forall|i: int| 0 <= i < snap.len() ==> grown[i] == snap[i],
        views_of(grown)[snap.len() as int] == seq![kinds[idx]],
        forall|p: int|
            snap.len() < p < grown.len() ==> #[trigger] views_of(grown)[p] == views_of(
                snap,
            )[p - snap.len() - 1].push(kinds[idx]),
    ensures
        grown.len() == pow2((idx + 1) as nat) - 1,
        forall|i: int|
            0 <= i < grown.len() ==> is_combination_of(
                #[trigger] views_of(grown)[i],
                kinds.subrange(0, idx + 1).to_set(),
            ),
        forall|s: Seq<u64>|
            #[trigger] is_combination_of(s, kinds.subrange(0, idx + 1).to_set()) ==> views_of(
                grown,
            ).contains(s),
        views_of(grown).no_duplicates(),
{
    let t = kinds[idx];
    let pset = kinds.subrange(0, idx).to_set();
    let pset1 = kinds.subrange(0, idx + 1).to_set();
    let base = snap.len() as int;
    lemma_prefix_set_step(kinds, idx);
    assert(pow2((idx + 1) as nat) == 2 * pow2(idx as nat));

    // Entries of snap never contain t, since their elements lie below t.
    assert forall|i: int| 0 <= i < base implies !views_of(snap)[i].contains(t) by {
        if views_of(snap)[i].contains(t) {
            let p = choose|p: int|
                0 <= p < views_of(snap)[i].len() && views_of(snap)[i][p] == t;
            assert(pset.contains(t));
        }
    }

    // Soundness of every entry of grown.
    assert forall|i: int| 0 <= i < grown.len() implies is_combination_of(
        views_of(grown)[i],
        pset1,
    ) by {
        if i < base {
            assert(views_of(grown)[i] == views_of(snap)[i]);
            assert(is_combination_of(views_of(snap)[i], pset));
            assert forall|p: int|
                0 <= p < views_of(grown)[i].len() implies pset1.contains(
                #[trigger] views_of(grown)[i][p],
            ) by {
                assert(pset.contains(views_of(snap)[i][p]));
            }
        } else if i == base {
            let s = views_of(grown)[i];
            assert(s == seq![t]);
            assert(s.len() == 1);
            assert(s[0] == t);
            assert(pset1.contains(t));
        } else {
            let jj = i - base - 1;
            let s0 = views_of(snap)[jj];
            let s = views_of(grown)[i];
            assert(views_of(grown)[i] == views_of(snap)[i - base - 1].push(t));
            assert(s == s0.push(t));
            assert(is_combination_of(s0, pset));
            assert forall|a: int, b: int| 0 <= a < b < s.len() implies s[a] < s[b] by {
                if b < s.len() - 1 {
                    assert(s[a] == s0[a] && s[b] == s0[b]);
                } else {
                    assert(s[b] == t);
                    assert(s[a] == s0[a]);
                    assert(pset.contains(s0[a]));
                }
            }
            assert forall|p: int| 0 <= p < s.len() implies pset1.contains(#[trigger] s[p]) by {
                if p < s.len() - 1 {
                    assert(pset.contains(s0[p]));
                } else {
                    assert(s[p] == t);
                }
            }
        }
    }

    // Completeness: every combination over pset1 appears in grown.
    assert forall|s: Seq<u64>| #[trigger] is_combination_of(s, pset1) implies views_of(
        grown,
    ).contains(s) by {
        if s.contains(t) {
            // t is the largest element, so it sits at the end and only there.
            assert forall|q: int| 0 <= q < s.len() implies #[trigger] s[q] <= t by {
                assert(pset1.contains(s[q]));
                if s[q] != t {
                    assert(pset.contains(s[q]));
                }
            }
            assert(s[s.len() - 1] == t) by {
                let p = choose|p: int| 0 <= p < s.len() && s[p] == t;
                if p < s.len() - 1 {
                    assert(s[p] < s[s.len() - 1]);
                }
            }
            assert forall|q: int| 0 <= q < s.len() - 1 implies pset.contains(#[trigger] s[q]) by {
                assert(pset1.contains(s[q]));
                assert(s[q] < s[s.len() - 1]);
            }
            if s.len() == 1 {
                assert(s =~= seq![t]);
                assert(views_of(grown)[base] == s);
                assert(views_of(grown).contains(s));
            } else {
                let s0 = s.drop_last();
                assert(s0.len() == s.len() - 1);
                assert(is_combination_of(s0, pset)) by {
                    assert forall|q: int| 0 <= q < s0.len() implies pset.contains(
                        #[trigger] s0[q],
                    ) by {
                        assert(s0[q] == s[q]);
                    }
                }
                let jj = choose|jj: int|
                    0 <= jj < views_of(snap).len() && views_of(snap)[jj] == s0;
                let q = base + 1 + jj;
                assert(views_of(grown)[q] == views_of(snap)[q - base - 1].push(t));
                assert(s0.push(t) =~= s);
                assert(views_of(grown).contains(s));
            }
        } else {
            assert(is_combination_of(s, pset)) by {
                assert forall|q: int| 0 <= q < s.len() implies pset.contains(#[trigger] s[q]) by {
                    assert(pset1.contains(s[q]));
                    if s[q] == t {
                        assert(s.contains(t));
                    }
                }
            }
            let i = choose|i: int| 0 <= i < views_of(snap).len() && views_of(snap)[i] == s;
            assert(views_of(grown)[i] == views_of(snap)[i]);
            assert(views_of(grown).contains(s));
        }
    }

    // No entry of grown repeats.
    assert forall|i: int, j: int|
        0 <= i < grown.len() && 0 <= j < grown.len() && i != j implies views_of(grown)[i]
        != views_of(grown)[j] by {
        lemma_grown_distinct(kinds, idx, snap, grown, i, j);
    }
}

/// Distinctness of two entries of the grown enumeration of
/// [`lemma_outer_step`], by cases on which of its three zones each is in.
proof fn lemma_grown_distinct(
    kinds: Seq<u64>,
    idx: int,
    snap: Seq<Vec<u64>>,
    grown: Seq<Vec<u64>>,
    i: int,
    j: int,
)
    requires
        sorted_strict(kinds),
        0 <= idx < kinds.len(),
        forall|i0: int|
            0 <= i0 < snap.len() ==> is_combination_of(
                #[trigger] views_of(snap)[i0],
                kinds.subrange(0, idx).to_set(),
            ),
        views_of(snap).no_duplicates(),
        grown.len() == 2 * snap.len() + 1,
        forall|i0: int| 0 <= i0 < snap.len() ==> grown[i0] == snap[i0],
        views_of(grown)[snap.len() as int] == seq![kinds[idx]],
        forall|p: int|
            snap.len() < p < grown.len() ==> #[trigger] views_of(grown)[p] == views_of(
                snap,
            )[p - snap.len() - 1].push(kinds[idx]),
        0 <= i < grown.len(),
        0 <= j < grown.len(),
        i != j,
    ensures
        views_of(grown)[i] != views_of(grown)[j],
{
    let t = kinds[idx];
    let pset = kinds.subrange(0, idx).to_set();
    let base = snap.len() as int;
    lemma_prefix_set_step(kinds, idx);
    assert forall|i0: int| 0 <= i0 < base implies !views_of(snap)[i0].contains(t) by {
        if views_of(snap)[i0].contains(t) {
            let p = choose|p: int|
                0 <= p < views_of(snap)[i0].len() && views_of(snap)[i0][p] == t;
            assert(pset.contains(t));
        }
    }
    let (a, b) = if i < j {
        (i, j)
    } else {
        (j, i)
    };
    if b < base {
        assert(views_of(grown)[a] == views_of(snap)[a]);
        assert(views_of(grown)[b] == views_of(snap)[b]);
    } else if b == base {
        // a is a snap entry; it cannot be the singleton of t.
        assert(views_of(grown)[a] == views_of(snap)[a]);
        if views_of(grown)[a] == views_of(grown)[b] {
            assert(views_of(snap)[a].contains(t)) by {
                assert(views_of(snap)[a][0] == t);
            }
        }
    } else {
        let jjb = b - base - 1;
        let sb = views_of(snap)[jjb].push(t);
        assert(views_of(grown)[b] == views_of(snap)[b - base - 1].push(t));
        assert(views_of(grown)[b] == sb);
        assert(sb[sb.len() - 1] == t);
        assert(sb.contains(t));
        if a < base {
            if views_of(grown)[a] == sb {
                assert(views_of(snap)[a].contains(t));
            }
        } else if a == base {
            assert(views_of(grown)[a] == seq![t]);
            assert(sb.len() == views_of(snap)[jjb].len() + 1);
            assert(is_combination_of(views_of(snap)[jjb], pset));
        } else {
            let jja = a - base - 1;
            let sa = views_of(snap)[jja].push(t);
            assert(views_of(grown)[a] == views_of(snap)[a - base - 1].push(t));
            assert(views_of(grown)[a] == sa);
            if sa == sb {
                assert(sa.drop_last() =~= views_of(snap)[jja]);
                assert(sb.drop_last() =~= views_of(snap)[jjb]);
                assert(views_of(snap)[jja] == views_of(snap)[jjb]);
                assert(jja != jjb);
            }
        }
    }
}

/// Inserting an element into a sequence adds exactly it to the element set.
pub proof fn lemma_insert_to_set(s: Seq<u64>, i: int, x: u64)
    requires
        0 <= i <= s.len(),
    ensures
        s.insert(i, x).to_set() =~= s.to_set().insert(x),
{
    s.insert_ensures(i, x);
    let grown = s.insert(i, x);
    assert forall|y: u64| grown.to_set().contains(y) implies s.to_set().insert(x).contains(
        y,
    ) by {
        let j = choose|j: int| 0 <= j < grown.len() && grown[j] == y;
        if j < i {
            assert(s[j] == y);
        } else if j > i {
            assert(grown[(j - 1) + 1] == s[j - 1]);
            assert(s[j - 1] == y);
        }
    }
    assert forall|y: u64| s.to_set().insert(x).contains(y) implies grown.to_set().contains(
        y,
    ) by {
        if y == x {
            assert(grown[i] == y);
        } else {
            let j = choose|j: int| 0 <= j < s.len() && s[j] == y;
            if j < i {
                assert(grown[j] == y);
            } else {
                assert(grown[j + 1] == y);
            }
        }
    }
}

/// Inserting an element between everything smaller and everything larger
/// keeps a sequence strictly sorted.
pub proof fn lemma_insert_sorted(s: Seq<u64>, i: int, x: u64)
    requires
        sorted_strict(s),
        0 <= i <= s.len(),
        forall|j: int| 0 <= j < i ==> s[j] < x,
        forall|j: int| i <= j < s.len() ==> s[j] > x,
    ensures
        sorted_strict(s.insert(i, x)),
{
    s.insert_ensures(i, x);
    let grown = s.insert(i, x);
    assert forall|a: int, b: int| 0 <= a < b < grown.len() implies grown[a] < grown[b] by {
        if a < i {
            assert(grown[a] == s[a]);
        } else if a == i {
            assert(grown[a] == x);
        } else {
            assert(grown[(a - 1) + 1] == s[a - 1]);
        }
        if b < i {
            assert(grown[b] == s[b]);
        } else if b == i {
            assert(grown[b] == x);
        } else {
            assert(grown[(b - 1) + 1] == s[b - 1]);
        }
    }
}

/// An identity plus a bag of components plus a tag. An entity owns at most
/// one component per type identity and keeps a precomputed enumeration of
/// every non-empty combination of its component types, which the manager
/// uses as index keys.
#[derive(Debug)]
pub struct Entity<T, C> {
    /// The entity's identifier; immutable once assigned.
    pub id: EntityId,
    /// The entity's tag; immutable once assigned.
    pub tag: T,
    pub alive: bool,
    pub components: Vec<C>,
    pub components_combination: Vec<Vec<u64>>,
}

impl<T, C: Component> Entity<T, C> {
    /// The type identities of the attached components, in storage order.
    pub open spec fn kinds(self) -> Seq<u64> {
        self.components@.map_values(|c: C| c.kind_spec())
    }

    /// The set of type identities attached to this entity.
    pub open spec fn kind_set(self) -> Set<u64> {
        self.kinds().to_set()
    }

    /// Whether a component of type identity `k` is attached.
    pub open spec fn has_kind(self, k: u64) -> bool {
        self.kind_set().contains(k)
    }

    /// The precomputed combination enumeration, as a sequence of lists.
    pub open spec fn combos(self) -> Seq<Seq<u64>> {
        self.components_combination@.map_values(|v: Vec<u64>| v@)
    }

    /// Whether the entity is still marked live.
    pub open spec fn alive_spec(self) -> bool {
        self.alive
    }

    /// The storage index of the component with type identity `k`.
    pub open spec fn kind_index(self, k: u64) -> int {
        choose|i: int| 0 <= i < self.kinds().len() && self.kinds()[i] == k
    }

    /// The component value stored under type identity `k`.
    pub open spec fn component_with(self, k: u64) -> C {
        self.components@[self.kind_index(k)]
    }

    /// Well-formedness: components are stored in strictly increasing order
    /// of type identity (hence identities are unique), and the combination
    /// enumeration holds exactly the combinations over the attached
    /// identities, each exactly once — `2^k - 1` of them for `k` components.
    pub open spec fn wf(self) -> bool {
        &&& sorted_strict(self.kinds())
        &&& (forall|i: int|
            0 <= i < self.combos().len() ==> is_combination_of(
                #[trigger] self.combos()[i],
                self.kind_set(),
            ))
        &&& (forall|s: Seq<u64>|
            #[trigger] is_combination_of(s, self.kind_set()) ==> self.combos().contains(s))
        &&& self.combos().no_duplicates()
        &&& self.combos().len() == pow2(self.components@.len() as nat) - 1
    }

    /// Creates a fresh entity with no components. Entities are normally
    /// created through a manager, which allocates the identifier.
    pub fn new(id: EntityId, tag: T) -> (e: Self)
        ensures
            e.wf(),
            e.id == id,
            e.tag == tag,
            e.alive_spec(),
            e.components@ == Seq::<C>::empty(),
            e.combos() == Seq::<Seq<u64>>::empty(),
    {
        let e = Entity {
            id,
            tag,
            alive: true,
            components: Vec::new(),
            components_combination: Vec::new(),
        };
        proof {
            assert(e.kinds() =~= Seq::empty());
            assert(e.combos() =~= Seq::empty());
            assert forall|s: Seq<u64>| is_combination_of(s, e.kind_set()) implies e.combos()
                .contains(s) by {
                assert(e.kind_set().contains(s[0]));
                assert(!e.kinds().contains(s[0]));
            }
            assert(e.components@ =~= Seq::empty());
        }
        e
    }

    /// Marks the entity dead. Idempotent; the mark is never cleared, and the
    /// entity leaves the live set on the manager's next commit.
    pub fn destroy(&mut self)
        ensures
            !final(self).alive_spec(),
            final(self).id == old(self).id,
            final(self).tag == old(self).tag,
            final(self).components == old(self).components,
            final(self).components_combination == old(self).components_combination,
    {
        self.alive = false;
    }

    /// Whether the entity is still marked live.
    pub fn is_alive(&self) -> (r: bool)
        ensures
            r == self.alive_spec(),
    {
        self.alive
    }

    /// Whether a component of type identity `kind` is attached.
    pub fn has_component(&self, kind: u64) -> (r: bool)
        ensures
            r == self.has_kind(kind),
    {
        let n = self.components.len();
        let mut i: usize = 0;
        while i < n
            invariant
                i <= n,
                n == self.components@.len(),
                forall|j: int| 0 <= j < i ==> self.kinds()[j] != kind,
            decreases n - i,
        {
            if self.components[i].kind() == kind {
                assert(self.kinds()[i as int] == kind);
                assert(self.kinds().contains(kind));
                return true;
            }
            i += 1;
        }
        proof {
            if self.kind_set().contains(kind) {
                let j = choose|j: int| 0 <= j < self.kinds().len() && self.kinds()[j] == kind;
                assert(self.kinds()[j] != kind);
            }
        }
        false
    }

    /// Returns the component of type identity `kind`, or nothing where no
    /// such component is attached.
    pub fn get_component(&self, kind: u64) -> (r: Option<&C>)
        requires
            self.wf(),
        ensures
            r.is_some() == self.has_kind(kind),
            r matches Some(c) ==> *c == self.component_with(kind) && c.kind_spec() == kind,
    {
        let n = self.components.len();
        let mut i: usize = 0;
        while i < n
            invariant
                i <= n,
                n == self.components@.len(),
                self.wf(),
                forall|j: int| 0 <= j < i ==> self.kinds()[j] != kind,
            decreases n - i,
        {
            if self.components[i].kind() == kind {
                proof {
                    assert(self.kinds()[i as int] == kind);
                    assert(self.kinds().contains(kind));
                    let j = self.kind_index(kind);
                    assert(0 <= j < self.kinds().len() && self.kinds()[j] == kind);
                    if j != i as int {
                        assert(false);
                    }
                }
                return Some(&self.components[i]);
            }
            i += 1;
        }
        proof {
            if self.kind_set().contains(kind) {
                let j = choose|j: int| 0 <= j < self.kinds().len() && self.kinds()[j] == kind;
                assert(self.kinds()[j] != kind);
            }
        }
        None
    }

    /// Extracts references to all of the components `q` lists, in list
    /// order, or nothing where any listed type is absent.
    pub fn get_components<'e>(&'e self, q: &TypeQuery) -> (r: Option<Vec<&'e C>>)
        requires
            self.wf(),
            q.wf(),
        ensures
            r.is_some() == q.type_set().subset_of(self.kind_set()),
            r matches Some(v) ==> v@.len() == q.list().len() && forall|i: int|
                0 <= i < v@.len() ==> *(#[trigger] v@[i]) == self.component_with(q.list()[i]),
    {
        let n = q.types.len();
        let mut out: Vec<&'e C> = Vec::new();
        let mut i: usize = 0;
        while i < n
            invariant
                i <= n,
                n == q.types@.len(),
                self.wf(),
                out@.len() == i,
                forall|j: int| 0 <= j < i ==> self.has_kind(#[trigger] q.list()[j]),
                forall|j: int|
                    0 <= j < i ==> *(#[trigger] out@[j]) == self.component_with(q.list()[j]),
            decreases n - i,
        {
            match self.get_component(q.types[i]) {
                Some(c) => {
                    out.push(c);
                },
                None => {
                    proof {
                        assert(q.list().contains(q.list()[i as int]));
                        assert(!q.type_set().subset_of(self.kind_set()));
                    }
                    return None;
                },
            }
            i += 1;
        }
        proof {
            assert forall|x: u64| q.type_set().contains(x) implies self.kind_set().contains(
                x,
            ) by {
                let j = choose|j: int| 0 <= j < q.list().len() && q.list()[j] == x;
                assert(self.has_kind(q.list()[j]));
            }
        }
        Some(out)
    }

    /// Whether components of all the types `q` lists are attached.
    pub fn has_components(&self, q: &TypeQuery) -> (r: bool)
        ensures
            r == q.type_set().subset_of(self.kind_set()),
    {
        let n = q.types.len();
        let mut i: usize = 0;
        while i < n
            invariant
                i <= n,
                n == q.types@.len(),
                forall|j: int| 0 <= j < i ==> self.kind_set().contains(#[trigger] q.list()[j]),
            decreases n - i,
        {
            if !self.has_component(q.types[i]) {
                proof {
                    assert(q.list().contains(q.list()[i as int]));
                    assert(!q.type_set().subset_of(self.kind_set()));
                }
                return false;
            }
            i += 1;
        }
        proof {
            assert forall|x: u64| q.type_set().contains(x) implies self.kind_set().contains(
                x,
            ) by {
                let j = choose|j: int| 0 <= j < q.list().len() && q.list()[j] == x;
            }
        }
        true
    }

    /// For an entity with `k` distinct component types attached, the
    /// combination enumeration has exactly `2^k - 1` entries, pairwise
    /// distinct, each a combination over the attached identities; every
    /// singleton is among them, and so is the full sorted identity list.
    pub proof fn lemma_combination_enumeration(self)
        requires
            self.wf(),
        ensures
            self.combos().len() == pow2(self.kind_set().len()) - 1,
            self.combos().no_duplicates(),
            forall|i: int|
                0 <= i < self.combos().len() ==> is_combination_of(
                    #[trigger] self.combos()[i],
                    self.kind_set(),
                ),
            forall|k: u64| self.kind_set().contains(k) ==> self.combos().contains(seq![k]),
            self.components@.len() > 0 ==> self.combos().contains(self.kinds()),
    {
        assert(self.kinds().no_duplicates());
        self.kinds().unique_seq_to_set();
        assert forall|k: u64| self.kind_set().contains(k) implies self.combos().contains(
            seq![k],
        ) by {
            assert(seq![k][0] == k);
            assert(is_combination_of(seq![k], self.kind_set()));
        }
        if self.components@.len() > 0 {
            assert(is_combination_of(self.kinds(), self.kind_set())) by {
                assert forall|i: int| 0 <= i < self.kinds().len() implies self.kind_set()
                    .contains(#[trigger] self.kinds()[i]) by {
                    assert(self.kinds().contains(self.kinds()[i]));
                }
            }
        }
    }

    /// Whether an entity has all components of a query depends only on the
    /// set of identities the query lists, never on their order: two queries
    /// listing the same identities agree, as `has_components` answers over
    /// the listed set alone.
    pub proof fn lemma_has_components_order_independent(self, q1: TypeQuery, q2: TypeQuery)
        requires
            q1.type_set() == q2.type_set(),
        ensures
            q1.type_set().subset_of(self.kind_set()) == q2.type_set().subset_of(self.kind_set()),
    {
    }

    /// Well-formedness depends on the component type identities and the
    /// combination enumeration alone, so it carries over to any entity
    /// sharing them — in particular across a change of the liveness mark
    /// or of a component's value.
    pub proof fn lemma_wf_same_shape(a: Self, b: Self)
        requires
            a.wf(),
            b.kinds() == a.kinds(),
            b.components_combination == a.components_combination,
        ensures
            b.wf(),
    {
        assert(b.kinds() =~= a.kinds());
        assert(b.combos() =~= a.combos());
        assert(a.components@.len() == a.kinds().len());
        assert(b.components@.len() == b.kinds().len());
        assert forall|s: Seq<u64>| #[trigger] is_combination_of(s, b.kind_set()) implies b.combos()
            .contains(s) by {
            assert(is_combination_of(s, a.kind_set()));
            assert(a.combos().contains(s));
            let j = choose|j: int| 0 <= j < a.combos().len() && a.combos()[j] == s;
            assert(b.combos()[j] == s);
        }
    }

    /// Rebuilds the combination enumeration from the attached components.
    fn update_combinations(&mut self)
        requires
            sorted_strict(old(self).kinds()),
        ensures
            final(self).id == old(self).id,
            final(self).tag == old(self).tag,
            final(self).alive == old(self).alive,
            final(self).components == old(self).components,
            final(self).wf(),
    {
        let mut ks: Vec<u64> = Vec::new();
        let n = self.components.len();
        let mut i: usize = 0;
        while i < n
            invariant
                i <= n,
                n == self.components@.len(),
                *self == *old(self),
                ks@ == self.kinds().subrange(0, i as int),
            decreases n - i,
        {
            ks.push(self.components[i].kind());
            assert(ks@ =~= self.kinds().subrange(0, i + 1));
            i += 1;
        }
        assert(ks@ =~= self.kinds());
        let combos = all_combinations(&ks);
        self.components_combination = combos;
    }

    /// Attaches `component` under its type identity and recomputes the
    /// combination enumeration. Attaching a second component of an identity
    /// already present is a caller error, excluded here by precondition;
    /// `try_add_component` is the checked form.
    pub fn add_component(&mut self, component: C) -> (r: &mut Self)
        requires
            old(self).wf(),
            !old(self).has_kind(component.kind_spec()),
        ensures
            r.wf(),
            r.id == old(self).id,
            r.tag == old(self).tag,
            r.alive_spec() == old(self).alive_spec(),
            exists|i: int|
                0 <= i <= old(self).components@.len() && r.components@ == #[trigger] old(
                    self,
                ).components@.insert(i, component),
            r.kind_set() == old(self).kind_set().insert(component.kind_spec()),
            *final(self) == *final(r),
    {
        let k = component.kind();
        proof {
            if old(self).kinds().contains(k) {
                assert(old(self).kind_set().contains(k));
            }
        }
        let n = self.components.len();
        let mut i: usize = 0;
        while i < n && self.components[i].kind() < k
            invariant
                i <= n,
                n == self.components@.len(),
                *self == *old(self),
                forall|j: int| 0 <= j < i ==> self.kinds()[j] < k,
            decreases n - i,
        {
            i += 1;
        }
        proof {
            assert forall|j: int| i <= j < n implies self.kinds()[j] > k by {
                assert(self.kinds()[j] != k);
                if j > i {
                    assert(self.kinds()[i as int] < self.kinds()[j]);
                }
                assert(self.kinds()[i as int] != k);
            }
        }
        let ghost pos = i as int;
        let ghost oldkinds = old(self).kinds();
        self.components.insert(i, component);
        proof {
            old(self).components@.insert_ensures(pos, component);
            oldkinds.insert_ensures(pos, k);
            assert forall|j: int| 0 <= j < self.kinds().len() implies self.kinds()[j]
                == oldkinds.insert(pos, k)[j] by {
                if j < pos {
                } else if j == pos {
                } else {
                    assert(self.components@[j] == old(self).components@[j - 1]);
                    assert(oldkinds.insert(pos, k)[(j - 1) + 1] == oldkinds[j - 1]);
                }
            }
            assert(self.kinds() =~= oldkinds.insert(pos, k));
            lemma_insert_sorted(oldkinds, pos, k);
            lemma_insert_to_set(oldkinds, pos, k);
            assert(self.kind_set() == old(self).kind_set().insert(k));
        }
        self.update_combinations();
        self
    }

    /// Returns a mutable borrow of the component of type identity `kind`,
    /// or nothing where no such component is attached. Writing a value of
    /// a different type identity through the borrow breaks the entity's
    /// well-formedness; `replace_component` keeps it by construction.
    #[verifier::loop_isolation(false)]
    pub fn get_component_mut(&mut self, kind: u64) -> (r: Option<&mut C>)
        requires
            old(self).wf(),
        ensures
            r.is_some() == old(self).has_kind(kind),
            r matches Some(c) ==> {
                &&& *c == old(self).component_with(kind)
                &&& final(self).components@ == old(self).components@.update(
                    old(self).kind_index(kind),
                    *final(c),
                )
                &&& final(self).id == old(self).id
                &&& final(self).tag == old(self).tag
                &&& final(self).alive_spec() == old(self).alive_spec()
                &&& final(self).components_combination == old(self).components_combination
            },
            r is None ==> *final(self) == *old(self),
    {
        let n = self.components.len();
        let mut i: usize = 0;
        while i < n
            invariant
                i <= n,
                n == self.components@.len(),
                *self == *old(self),
                forall|j: int| 0 <= j < i ==> self.kinds()[j] != kind,
            decreases n - i,
        {
            if self.components[i].kind() == kind {
                proof {
                    assert(self.kinds()[i as int] == kind);
                    assert(self.kinds().contains(kind));
                    let j = self.kind_index(kind);
                    assert(0 <= j < self.kinds().len() && self.kinds()[j] == kind);
                    if j != i as int {
                        assert(false);
                    }
                }
                return Some(vec_entry_mut(&mut self.components, i));
            }
            i += 1;
        }
        proof {
            if self.kind_set().contains(kind) {
                let j = choose|j: int| 0 <= j < self.kinds().len() && self.kinds()[j] == kind;
                assert(self.kinds()[j] != kind);
            }
        }
        None
    }

    /// The checked form of `add_component`: attaches the component and
    /// reports true, or reports false and leaves the entity unchanged where
    /// a component of the same type identity is already present.
    pub fn try_add_component(&mut self, component: C) -> (r: bool)
        requires
            old(self).wf(),
        ensures
            r == !old(self).has_kind(component.kind_spec()),
            final(self).wf(),
            final(self).id == old(self).id,
            final(self).tag == old(self).tag,
            final(self).alive_spec() == old(self).alive_spec(),
            !r ==> *final(self) == *old(self),
            r ==> final(self).kind_set() == old(self).kind_set().insert(component.kind_spec()),
            r ==> exists|i: int|
                0 <= i <= old(self).components@.len() && final(self).components@ == #[trigger] old(
                    self,
                ).components@.insert(i, component),
    {
        let k = component.kind();
        if self.has_component(k) {
            false
        } else {
            self.add_component(component);
            true
        }
    }

    /// Replaces the value of the component whose type identity matches
    /// `component`, and reports whether one was there to replace. The set
    /// of attached identities never changes; where the identity is absent
    /// the entity is left unchanged and false comes back.
    #[verifier::loop_isolation(false)]
    pub fn replace_component(&mut self, component: C) -> (r: bool)
        requires
            old(self).wf(),
        ensures
            r == old(self).has_kind(component.kind_spec()),
            final(self).wf(),
            final(self).id == old(self).id,
            final(self).tag == old(self).tag,
            final(self).alive_spec() == old(self).alive_spec(),
            final(self).components_combination == old(self).components_combination,
            final(self).kinds() == old(self).kinds(),
            !r ==> *final(self) == *old(self),
            r ==> final(self).components@ == old(self).components@.update(
                old(self).kind_index(component.kind_spec()),
                component,
            ),
    {
        let k = component.kind();
        let n = self.components.len();
        let mut i: usize = 0;
        while i < n
            invariant
                i <= n,
                n == self.components@.len(),
                *self == *old(self),
                forall|j: int| 0 <= j < i ==> self.kinds()[j] != k,
            decreases n - i,
        {
            if self.components[i].kind() == k {
                proof {
                    assert(self.kinds()[i as int] == k);
                    assert(self.kinds().contains(k));
                    let j = self.kind_index(k);
                    assert(0 <= j < self.kinds().len() && self.kinds()[j] == k);
                    if j != i as int {
                        assert(false);
                    }
                }
                let slot = vec_entry_mut(&mut self.components, i);
                *slot = component;
                proof {
                    assert(self.kinds() =~= old(self).kinds());
                    Self::lemma_wf_same_shape(*old(self), *self);
                }
                return true;
            }
            i += 1;
        }
        proof {
            if self.kind_set().contains(k) {
                let j = choose|j: int| 0 <= j < self.kinds().len() && self.kinds()[j] == k;
                assert(self.kinds()[j] != k);
            }
        }
        false
    }

    /// The precomputed combination enumeration. The manager reads it to
    /// index the entity under every combination of its component types.
    pub fn get_components_combination(&self) -> (r: &Vec<Vec<u64>>)
        ensures
            views_of(r@) == self.combos(),
    {
        &self.components_combination
    }
}

} // verus!
