//! Mathematical model of the dependency-tracking call graph.
//!
//! A graph is a table of slots. Each slot ever allocated keeps its index for
//! the lifetime of the session: deleting a function only clears its `live`
//! flag and its callee set, so indices are never re-used. Edges run from a
//! caller to each function it depends on; the functions *affected by* `v` are
//! its transitive callers, the least set closed under taking callers.

use vstd::prelude::*;

verus! {

/// One ghost state of a call graph: slot `i` holds the name `names[i]`,
/// is present in the graph iff `live[i]`, and depends on the slots in
/// `callees[i]`.
#[verifier::ext_equal]
pub struct GraphModel {
    pub names: Seq<Seq<char>>,
    pub live: Seq<bool>,
    pub callees: Seq<Set<usize>>,
}

impl GraphModel {
    /// Number of slots ever allocated, live or dead.
    pub open spec fn len(self) -> nat {
        self.names.len()
    }

    /// Slot `u` is allocated and not deleted.
    pub open spec fn is_live(self, u: usize) -> bool {
        (u as int) < self.len() && self.live[u as int]
    }

    /// Well-formedness: the three columns agree in length, only live slots
    /// have outgoing edges, every edge ends in a live slot, and no two live
    /// slots share a name.
    pub open spec fn wf(self) -> bool {
        &&& self.live.len() == self.names.len()
        &&& self.callees.len() == self.names.len()
        &&& forall|u: int, v: usize|
            0 <= u < self.len() && #[trigger] self.callees[u].contains(v) ==> self.live[u]
                && (v as int) < self.len() && self.live[v as int]
        &&& forall|i: int, j: int|
            0 <= i < j < self.len() && self.live[i] && self.live[j] ==> #[trigger] self.names[i]
                !== #[trigger] self.names[j]
    }

    /// A function of this name is in the graph.
    pub open spec fn contains_name(self, name: Seq<char>) -> bool {
        exists|i: usize| self.is_live(i) && self.names[i as int] == name
    }

    /// The slot of the live function of this name (meaningful only when
    /// `contains_name` holds; unique by well-formedness).
    pub open spec fn index_of(self, name: Seq<char>) -> usize {
        choose|i: usize| self.is_live(i) && self.names[i as int] == name
    }

    /// `u` directly calls `v`.
    pub open spec fn edge(self, u: usize, v: usize) -> bool {
        (u as int) < self.len() && self.callees[u as int].contains(v)
    }

    /// The direct callers of `v`.
    pub open spec fn callers(self, v: usize) -> Set<usize> {
        Set::new(|u: usize| self.edge(u, v))
    }

    /// `u` calls `v` through a chain of at most `k + 1` edges.
    pub open spec fn reaches(self, u: usize, v: usize, k: nat) -> bool
        decreases k,
    {
        self.edge(u, v) || (k > 0 && exists|w: usize|
            #[trigger] self.edge(u, w) && self.reaches(w, v, (k - 1) as nat))
    }

    /// The set of functions affected by `v`: its transitive callers.
    pub open spec fn affected(self, v: usize) -> Set<usize> {
        Set::new(|u: usize| exists|k: nat| self.reaches(u, v, k))
    }

    /// The slots removed by deleting slot `v`: the function itself and
    /// everything affected by it.
    pub open spec fn kill_set(self, v: usize) -> Set<usize> {
        self.affected(v).insert(v)
    }

    /// Every name in `deps` is in the graph.
    pub open spec fn deps_known(self, deps: Seq<Seq<char>>) -> bool {
        forall|i: int| 0 <= i < deps.len() ==> self.contains_name(#[trigger] deps[i])
    }

    /// The slots of the named dependencies.
    pub open spec fn dep_ids(self, deps: Seq<Seq<char>>) -> Set<usize> {
        Set::new(
            |p: usize|
                exists|i: int|
                    0 <= i < deps.len() && self.contains_name(#[trigger] deps[i]) && p
                        == self.index_of(deps[i]),
        )
    }

    /// The slot that holds `f` after `updated(f, _)`: its existing slot, or
    /// the freshly allocated one.
    pub open spec fn updated_slot(self, f: Seq<char>) -> usize {
        if self.contains_name(f) {
            self.index_of(f)
        } else {
            self.len() as usize
        }
    }

    /// The graph after `update(f, deps)`: `f`'s outgoing edges are replaced
    /// by edges to the slots of `deps`; a new slot is allocated when `f` is
    /// not yet in the graph.
    pub open spec fn updated(self, f: Seq<char>, deps: Seq<Seq<char>>) -> GraphModel {
        if self.contains_name(f) {
            GraphModel {
                names: self.names,
                live: self.live,
                callees: self.callees.update(self.index_of(f) as int, self.dep_ids(deps)),
            }
        } else {
            GraphModel {
                names: self.names.push(f),
                live: self.live.push(true),
                callees: self.callees.push(self.dep_ids(deps)),
            }
        }
    }

    /// The graph after deleting slot `v`: the kill set of `v` is tombstoned
    /// and loses its outgoing edges; all other slots are untouched.
    pub open spec fn deleted_at(self, v: usize) -> GraphModel {
        let kills = self.kill_set(v);
        GraphModel {
            names: self.names,
            live: Seq::new(self.live.len(), |i: int| self.live[i] && !kills.contains(i as usize)),
            callees: Seq::new(
                self.callees.len(),
                |i: int|
                    if kills.contains(i as usize) {
                        Set::empty()
                    } else {
                        self.callees[i]
                    },
            ),
        }
    }

    /// The graph after `delete(f)`.
    pub open spec fn deleted(self, f: Seq<char>) -> GraphModel {
        self.deleted_at(self.index_of(f))
    }

    /// The slots of a set, listed in increasing order: the order of first
    /// definition.
    pub open spec fn affected_ids(self, v: usize) -> Seq<usize> {
        ids_up_to(self.affected(v), self.len() as int)
    }

    /// The names at a list of slots.
    pub open spec fn name_seq(self, ids: Seq<usize>) -> Seq<Seq<char>> {
        ids.map_values(|u: usize| self.names[u as int])
    }

    /// The names of the functions affected by `v`, in insertion order.
    pub open spec fn affected_names(self, v: usize) -> Seq<Seq<char>> {
        self.name_seq(self.affected_ids(v))
    }

    /// The live slots in increasing order.
    pub open spec fn live_ids(self) -> Seq<usize> {
        ids_up_to(Set::new(|u: usize| self.is_live(u)), self.len() as int)
    }

    /// The names of the live functions, in insertion order.
    pub open spec fn live_names(self) -> Seq<Seq<char>> {
        self.name_seq(self.live_ids())
    }
}

/// The members of `s` below `n`, listed in increasing order.
pub open spec fn ids_up_to(s: Set<usize>, n: int) -> Seq<usize>
    decreases n,
{
    if n <= 0 {
        Seq::empty()
    } else if s.contains((n - 1) as usize) {
        ids_up_to(s, n - 1).push((n - 1) as usize)
    } else {
        ids_up_to(s, n - 1)
    }
}

/// Membership in `ids_up_to(s, n)` is membership in `s` below `n`.
pub proof fn lemma_ids_up_to_membership(s: Set<usize>, n: int)
    requires
        n <= usize::MAX + 1,
    ensures
        forall|u: usize| #[trigger] ids_up_to(s, n).contains(u) <==> s.contains(u) && (u as int)
            < n,
    decreases n,
{
    let cur = ids_up_to(s, n);
    if n > 0 {
        lemma_ids_up_to_membership(s, n - 1);
        let prev = ids_up_to(s, n - 1);
        let last = (n - 1) as usize;
        assert forall|u: usize| #[trigger] cur.contains(u) <==> s.contains(u) && (u as int)
            < n by {
            if s.contains(last) {
                assert(cur == prev.push(last));
                if cur.contains(u) {
                    let i = choose|i: int| 0 <= i < cur.len() && #[trigger] cur[i] == u;
                    if i < prev.len() {
                        assert(prev[i] == u);
                        assert(prev.contains(u));
                    } else {
                        assert(u == last);
                    }
                }
                if s.contains(u) && (u as int) < n {
                    if (u as int) < n - 1 {
                        assert(prev.contains(u));
                        let j = choose|j: int| 0 <= j < prev.len() && #[trigger] prev[j] == u;
                        assert(cur[j] == u);
                        assert(cur.contains(u));
                    } else {
                        assert(u == last);
                        assert(cur[cur.len() - 1] == u);
                        assert(cur.contains(u));
                    }
                }
            } else {
                assert(cur == prev);
                if s.contains(u) && (u as int) < n {
                    assert((u as int) != n - 1);
                    assert(prev.contains(u));
                }
            }
        }
    } else {
        assert forall|u: usize| !(#[trigger] cur.contains(u)) by {
            assert(cur.len() == 0);
        }
    }
}

/// The listing is strictly increasing, and every entry is below `n`.
pub proof fn lemma_ids_up_to_sorted(s: Set<usize>, n: int)
    requires
        n <= usize::MAX + 1,
    ensures
        forall|i: int, j: int|
            0 <= i < j < ids_up_to(s, n).len() ==> #[trigger] ids_up_to(s, n)[i]
                < #[trigger] ids_up_to(s, n)[j],
        forall|i: int| 0 <= i < ids_up_to(s, n).len() ==> (#[trigger] ids_up_to(s, n)[i] as int)
            < n,
    decreases n,
{
    if n > 0 {
        lemma_ids_up_to_sorted(s, n - 1);
        let prev = ids_up_to(s, n - 1);
        let cur = ids_up_to(s, n);
        if s.contains((n - 1) as usize) {
            assert(cur == prev.push((n - 1) as usize));
            assert(forall|i: int| 0 <= i < prev.len() ==> cur[i] == #[trigger] prev[i]);
            assert(cur[cur.len() - 1] == (n - 1) as usize);
            assert forall|i: int, j: int| 0 <= i < j < cur.len() implies #[trigger] cur[i]
                < #[trigger] cur[j] by {
                if j < prev.len() {
                } else {
                    assert(cur[j] == (n - 1) as usize);
                    assert((cur[i] as int) < n - 1);
                }
            }
        } else {
            assert(cur == prev);
        }
    }
}

/// Two sets that agree below `n` have the same listing.
pub proof fn lemma_ids_up_to_congruent(s1: Set<usize>, s2: Set<usize>, n: int)
    requires
        forall|u: usize| (u as int) < n ==> (s1.contains(u) <==> s2.contains(u)),
    ensures
        ids_up_to(s1, n) == ids_up_to(s2, n),
    decreases n,
{
    if n > 0 {
        lemma_ids_up_to_congruent(s1, s2, n - 1);
        assert(s1.contains((n - 1) as usize) <==> s2.contains((n - 1) as usize));
    }
}

/// The slot found by `index_of` for a name in the graph is live, in range,
/// and holds that name.
pub proof fn lemma_index_of(m: GraphModel, name: Seq<char>)
    requires
        m.contains_name(name),
    ensures
        m.is_live(m.index_of(name)),
        m.names[m.index_of(name) as int] == name,
{
}

/// In a well-formed graph the slot of a name is the only live slot with
/// that name.
pub proof fn lemma_index_of_unique(m: GraphModel, name: Seq<char>, i: usize)
    requires
        m.wf(),
        m.is_live(i),
        m.names[i as int] == name,
    ensures
        m.contains_name(name),
        m.index_of(name) == i,
{
    let j = m.index_of(name);
    assert(m.is_live(j) && m.names[j as int] == name);
    if i != j {
        if (i as int) < (j as int) {
            assert(m.names[i as int] !== m.names[j as int]);
        } else {
            assert(m.names[j as int] !== m.names[i as int]);
        }
    }
}

/// One more edge in front of a chain is still a chain.
pub proof fn lemma_reaches_extend(m: GraphModel, u: usize, w: usize, v: usize, k: nat)
    requires
        m.edge(u, w),
        m.reaches(w, v, k),
    ensures
        m.reaches(u, v, k + 1),
        m.affected(v).contains(u),
{
    assert(m.reaches(u, v, k + 1));
}

/// An edge into the kill set of `v` starts inside the kill set: no surviving
/// function ever calls a deleted one.
pub proof fn lemma_kill_closed(m: GraphModel, v: usize, u: usize, d: usize)
    requires
        m.edge(u, d),
        m.kill_set(v).contains(d),
    ensures
        m.kill_set(v).contains(u),
{
    if d == v {
        assert(m.reaches(u, v, 0));
        assert(m.affected(v).contains(u));
    } else {
        let k = choose|k: nat| m.reaches(d, v, k);
        lemma_reaches_extend(m, u, d, v, k);
    }
}

/// Nothing reaches a slot that has no direct callers.
pub proof fn lemma_no_callers_no_reach(m: GraphModel, v: usize, k: nat)
    requires
        forall|u: usize| !m.edge(u, v),
    ensures
        forall|u: usize| !m.reaches(u, v, k),
    decreases k,
{
    if k > 0 {
        lemma_no_callers_no_reach(m, v, (k - 1) as nat);
    }
    assert forall|u: usize| !m.reaches(u, v, k) by {
        assert(!m.edge(u, v));
        if k > 0 {
            assert forall|w: usize| !(#[trigger] m.edge(u, w) && m.reaches(w, v, (k - 1) as nat))
                by {
                assert(!m.reaches(w, v, (k - 1) as nat));
            }
        }
    }
}

/// A slot with no direct callers has an empty affected set.
pub proof fn lemma_affected_no_callers(m: GraphModel, v: usize)
    requires
        forall|u: usize| !m.edge(u, v),
    ensures
        m.affected(v) =~= Set::<usize>::empty(),
{
    assert forall|u: usize| !(#[trigger] m.affected(v).contains(u)) by {
        if exists|k: nat| m.reaches(u, v, k) {
            let k = choose|k: nat| m.reaches(u, v, k);
            lemma_no_callers_no_reach(m, v, k);
        }
    }
}

/// In a well-formed graph, a slot outside the table has an empty affected
/// set.
pub proof fn lemma_affected_out_of_range(m: GraphModel, v: usize)
    requires
        m.wf(),
        (v as int) >= m.len(),
    ensures
        m.affected(v) =~= Set::<usize>::empty(),
{
    assert forall|u: usize| !m.edge(u, v) by {
        if (u as int) < m.len() && m.callees[u as int].contains(v) {
            assert((v as int) < m.len());
        }
    }
    lemma_affected_no_callers(m, v);
}

/// `update` preserves well-formedness.
pub proof fn lemma_updated_wf(m: GraphModel, f: Seq<char>, deps: Seq<Seq<char>>)
    requires
        m.wf(),
        m.deps_known(deps),
        m.len() <= usize::MAX,
    ensures
        m.updated(f, deps).wf(),
        m.updated(f, deps).contains_name(f),
        m.updated(f, deps).index_of(f) == m.updated_slot(f),
{
    let m2 = m.updated(f, deps);
    let slot = m.updated_slot(f);
    let ds = m.dep_ids(deps);
    assert forall|p: usize| #[trigger] ds.contains(p) implies m.is_live(p) by {
        let i = choose|i: int|
            0 <= i < deps.len() && m.contains_name(#[trigger] deps[i]) && p == m.index_of(deps[i]);
        lemma_index_of(m, deps[i]);
    }
    if m.contains_name(f) {
        lemma_index_of(m, f);
        assert forall|u: int, v: usize|
            0 <= u < m2.len() && #[trigger] m2.callees[u].contains(v) implies m2.live[u] && (
        v as int) < m2.len() && m2.live[v as int] by {
            if u == slot as int {
                assert(ds.contains(v));
            } else {
                assert(m.callees[u].contains(v));
            }
        }
    } else {
        assert(m2.names == m.names.push(f));
        assert forall|u: int, v: usize|
            0 <= u < m2.len() && #[trigger] m2.callees[u].contains(v) implies m2.live[u] && (
        v as int) < m2.len() && m2.live[v as int] by {
            if u == m.len() {
                assert(ds.contains(v));
                assert(m.is_live(v));
            } else {
                assert(m.callees[u].contains(v));
            }
        }
        assert forall|i: int, j: int|
            0 <= i < j < m2.len() && m2.live[i] && m2.live[j] implies #[trigger] m2.names[i]
            !== #[trigger] m2.names[j] by {
            if j == m.len() {
                assert(m2.names[j] == f);
                assert(m.is_live(i as usize));
                if m.names[i] == f {
                    assert(m.contains_name(f));
                }
            }
        }
    }
    assert(m2.is_live(slot));
    assert(m2.names[slot as int] == f);
    lemma_index_of_unique(m2, f, slot);
}

/// `delete` preserves well-formedness.
pub proof fn lemma_deleted_wf(m: GraphModel, v: usize)
    requires
        m.wf(),
        m.len() <= usize::MAX,
    ensures
        m.deleted_at(v).wf(),
{
    let m2 = m.deleted_at(v);
    let kills = m.kill_set(v);
    assert forall|u: int, w: usize|
        0 <= u < m2.len() && #[trigger] m2.callees[u].contains(w) implies m2.live[u] && (w as int)
        < m2.len() && m2.live[w as int] by {
        assert(!kills.contains(u as usize));
        assert(m.callees[u].contains(w));
        assert(m.edge(u as usize, w));
        if kills.contains(w) {
            lemma_kill_closed(m, v, u as usize, w);
        }
    }
}

/// The affected set is a fixed point: it is exactly the direct callers of
/// `v` together with the callers of anything already affected.
pub proof fn lemma_affected_fixed_point(m: GraphModel, v: usize)
    ensures
        m.affected(v) =~= m.callers(v).union(
            Set::new(
                |u: usize|
                    exists|w: usize| #[trigger] m.affected(v).contains(w) && m.edge(u, w),
            ),
        ),
{
    let aff = m.affected(v);
    let rhs = m.callers(v).union(
        Set::new(|u: usize| exists|w: usize| #[trigger] aff.contains(w) && m.edge(u, w)),
    );
    assert forall|u: usize| #[trigger] aff.contains(u) implies rhs.contains(u) by {
        let k = choose|k: nat| m.reaches(u, v, k);
        if m.edge(u, v) {
            assert(m.callers(v).contains(u));
        } else {
            let w = choose|w: usize| #[trigger] m.edge(u, w) && m.reaches(w, v, (k - 1) as nat);
            assert(aff.contains(w));
        }
    }
    assert forall|u: usize| #[trigger] rhs.contains(u) implies aff.contains(u) by {
        if m.callers(v).contains(u) {
            assert(m.reaches(u, v, 0));
        } else {
            let w = choose|w: usize| #[trigger] aff.contains(w) && m.edge(u, w);
            let k = choose|k: nat| m.reaches(w, v, k);
            lemma_reaches_extend(m, u, w, v, k);
        }
    }
}

/// Every chain into `v` stays inside a set that holds the direct callers of
/// `v` and is closed under taking callers.
proof fn lemma_reach_in_closed(m: GraphModel, v: usize, s: Set<usize>, u: usize, k: nat)
    requires
        forall|c: usize| #[trigger] m.edge(c, v) ==> s.contains(c),
        forall|c: usize, w: usize| s.contains(w) && #[trigger] m.edge(c, w) ==> s.contains(c),
        m.reaches(u, v, k),
    ensures
        s.contains(u),
    decreases k,
{
    if m.edge(u, v) {
    } else {
        let w = choose|w: usize| #[trigger] m.edge(u, w) && m.reaches(w, v, (k - 1) as nat);
        lemma_reach_in_closed(m, v, s, w, (k - 1) as nat);
    }
}

/// The affected set is the least such fixed point: it is contained in every
/// set that holds the direct callers of `v` and is closed under taking
/// callers.
pub proof fn lemma_affected_least(m: GraphModel, v: usize, s: Set<usize>)
    requires
        forall|c: usize| #[trigger] m.edge(c, v) ==> s.contains(c),
        forall|c: usize, w: usize| s.contains(w) && #[trigger] m.edge(c, w) ==> s.contains(c),
    ensures
        m.affected(v).subset_of(s),
{
    assert forall|u: usize| #[trigger] m.affected(v).contains(u) implies s.contains(u) by {
        let k = choose|k: nat| m.reaches(u, v, k);
        lemma_reach_in_closed(m, v, s, u, k);
    }
}

/// An update of a name that is already in the graph changes no slot of any
/// dependency, so the dependency slots resolve as before.
proof fn lemma_updated_same_deps(m: GraphModel, f: Seq<char>, deps: Seq<Seq<char>>)
    requires
        m.wf(),
        m.deps_known(deps),
        m.len() < usize::MAX,
    ensures
        m.updated(f, deps).deps_known(deps),
        m.updated(f, deps).dep_ids(deps) =~= m.dep_ids(deps),
{
    let m1 = m.updated(f, deps);
    lemma_updated_wf(m, f, deps);
    assert forall|i: int| 0 <= i < deps.len() implies m1.contains_name(#[trigger] deps[i])
        && m1.index_of(deps[i]) == m.index_of(deps[i]) by {
        lemma_index_of(m, deps[i]);
        let p = m.index_of(deps[i]);
        assert(m1.is_live(p));
        assert(m1.names[p as int] == m.names[p as int]);
        lemma_index_of_unique(m1, deps[i], p);
    }
    assert forall|p: usize| #[trigger] m1.dep_ids(deps).contains(p) implies m.dep_ids(
        deps,
    ).contains(p) by {
        let i = choose|i: int|
            0 <= i < deps.len() && m1.contains_name(#[trigger] deps[i]) && p == m1.index_of(
                deps[i],
            );
        assert(p == m.index_of(deps[i]));
    }
    assert forall|p: usize| #[trigger] m.dep_ids(deps).contains(p) implies m1.dep_ids(
        deps,
    ).contains(p) by {
        let i = choose|i: int|
            0 <= i < deps.len() && m.contains_name(#[trigger] deps[i]) && p == m.index_of(deps[i]);
        assert(p == m1.index_of(deps[i]));
    }
}

/// Updating a function twice with the same dependencies is the same as
/// updating it once, and the second update reports the same affected set.
pub proof fn lemma_update_idempotent(m: GraphModel, f: Seq<char>, deps: Seq<Seq<char>>)
    requires
        m.wf(),
        m.deps_known(deps),
        m.len() < usize::MAX,
    ensures
        ({
            let m1 = m.updated(f, deps);
            let m2 = m1.updated(f, deps);
            &&& m2 == m1
            &&& m2.affected_names(m2.index_of(f)) == m1.affected_names(m1.index_of(f))
        }),
{
    let m1 = m.updated(f, deps);
    let m2 = m1.updated(f, deps);
    lemma_updated_wf(m, f, deps);
    lemma_updated_same_deps(m, f, deps);
    let slot = m.updated_slot(f);
    assert(m1.contains_name(f) && m1.index_of(f) == slot);
    assert(m1.callees[slot as int] == m.dep_ids(deps));
    assert(m2.callees =~= m1.callees) by {
        assert(m2.callees == m1.callees.update(slot as int, m1.dep_ids(deps)));
        assert(m1.dep_ids(deps) =~= m.dep_ids(deps));
    }
    assert(m2 =~~= m1);
}

/// Adding a fresh function and deleting it right away restores the graph:
/// the same functions are live under the same names, and the edges are as
/// before. (Only the tombstone of the briefly allocated slot remains, so
/// that indices are never re-used.) Nothing else can have come to depend on
/// the fresh function in between, which is the condition the law asks for.
pub proof fn lemma_add_delete_round_trip(m: GraphModel, f: Seq<char>, deps: Seq<Seq<char>>)
    requires
        m.wf(),
        !m.contains_name(f),
        m.deps_known(deps),
        m.len() < usize::MAX,
    ensures
        ({
            let m1 = m.updated(f, deps);
            let m2 = m1.deleted(f);
            &&& m2.names == m.names.push(f)
            &&& m2.live =~= m.live.push(false)
            &&& m2.callees =~= m.callees.push(Set::<usize>::empty())
            &&& m2.live_names() == m.live_names()
            &&& forall|u: usize, w: usize| #[trigger] m2.edge(u, w) <==> m.edge(u, w)
        }),
{
    let n = m.len() as usize;
    let m1 = m.updated(f, deps);
    let m2 = m1.deleted(f);
    lemma_updated_wf(m, f, deps);
    assert(m1.index_of(f) == n);
    assert(m2 == m1.deleted_at(n));
    assert forall|u: usize| !m1.edge(u, n) by {
        if (u as int) < m1.len() && m1.callees[u as int].contains(n) {
            if (u as int) < m.len() {
                assert(m.callees[u as int].contains(n));
                assert((n as int) < m.len());
            } else {
                assert(m1.callees[u as int] == m.dep_ids(deps));
                let i = choose|i: int|
                    0 <= i < deps.len() && m.contains_name(#[trigger] deps[i]) && n == m.index_of(
                        deps[i],
                    );
                lemma_index_of(m, deps[i]);
            }
        }
    }
    lemma_affected_no_callers(m1, n);
    let kills = m1.kill_set(n);
    assert(forall|u: usize| #[trigger] kills.contains(u) <==> u == n);
    assert(m2.live =~= m.live.push(false));
    assert(m2.callees =~= m.callees.push(Set::<usize>::empty()));
    assert forall|u: usize, w: usize| #[trigger] m2.edge(u, w) <==> m.edge(u, w) by {
        if (u as int) < m.len() {
            assert(m2.callees[u as int] == m.callees[u as int]);
        }
    }
    let s2 = Set::new(|u: usize| m2.is_live(u));
    let s0 = Set::new(|u: usize| m.is_live(u));
    assert(!s2.contains(n));
    assert(ids_up_to(s2, m2.len() as int) == ids_up_to(s2, n as int));
    lemma_ids_up_to_congruent(s2, s0, n as int);
    lemma_ids_up_to_sorted(s0, n as int);
    assert(m2.live_names() =~= m.live_names());
}

/// Every affected slot is in range.
pub proof fn lemma_affected_in_range(m: GraphModel, v: usize)
    ensures
        forall|u: usize| #[trigger] m.affected(v).contains(u) ==> (u as int) < m.len(),
{
    assert forall|u: usize| #[trigger] m.affected(v).contains(u) implies (u as int) < m.len() by {
        let k = choose|k: nat| m.reaches(u, v, k);
        if m.edge(u, v) {
        } else {
            let w = choose|w: usize| #[trigger] m.edge(u, w) && m.reaches(w, v, (k - 1) as nat);
        }
    }
}

/// The live-name listing holds exactly the names in the graph.
pub proof fn lemma_live_names_contains(m: GraphModel, nm: Seq<char>)
    requires
        m.len() <= usize::MAX,
    ensures
        m.live_names().contains(nm) <==> m.contains_name(nm),
{
    let s = Set::new(|u: usize| m.is_live(u));
    let n = m.len() as int;
    let ids = m.live_ids();
    lemma_ids_up_to_membership(s, n);
    lemma_ids_up_to_sorted(s, n);
    if m.live_names().contains(nm) {
        let j = choose|j: int| 0 <= j < ids.len() && #[trigger] m.live_names()[j] == nm;
        let u = ids[j];
        assert(ids.contains(u));
        assert(m.is_live(u) && m.names[u as int] == nm);
    }
    if m.contains_name(nm) {
        let i = choose|i: usize| m.is_live(i) && m.names[i as int] == nm;
        assert(s.contains(i));
        assert(ids.contains(i));
        let j = choose|j: int| 0 <= j < ids.len() && #[trigger] ids[j] == i;
        assert(m.live_names()[j] == nm);
    }
}

/// A freshly allocated function affects nothing: no function can already
/// call it.
pub proof fn lemma_updated_fresh_affected(m: GraphModel, f: Seq<char>, deps: Seq<Seq<char>>)
    requires
        m.wf(),
        m.deps_known(deps),
        !m.contains_name(f),
        m.len() <= usize::MAX,
    ensures
        m.updated(f, deps).affected(m.len() as usize) =~= Set::<usize>::empty(),
        m.updated(f, deps).affected_names(m.len() as usize) == Seq::<Seq<char>>::empty(),
{
    let n = m.len() as usize;
    let m1 = m.updated(f, deps);
    assert forall|u: usize| !m1.edge(u, n) by {
        if (u as int) < m1.len() && m1.callees[u as int].contains(n) {
            if (u as int) < m.len() {
                assert(m.callees[u as int].contains(n));
                assert((n as int) < m.len());
            } else {
                assert(m1.callees[u as int] == m.dep_ids(deps));
                let i = choose|i: int|
                    0 <= i < deps.len() && m.contains_name(#[trigger] deps[i]) && n == m.index_of(
                        deps[i],
                    );
                lemma_index_of(m, deps[i]);
            }
        }
    }
    lemma_affected_no_callers(m1, n);
    lemma_ids_up_to_empty(m1.affected(n), m1.len() as int);
    assert(m1.affected_names(n) =~= Seq::<Seq<char>>::empty());
}

/// A set with no members below `n` has an empty listing.
pub proof fn lemma_ids_up_to_empty(s: Set<usize>, n: int)
    requires
        forall|u: usize| (u as int) < n ==> !s.contains(u),
    ensures
        ids_up_to(s, n) == Seq::<usize>::empty(),
    decreases n,
{
    if n > 0 {
        lemma_ids_up_to_empty(s, n - 1);
    }
}

} // verus!
