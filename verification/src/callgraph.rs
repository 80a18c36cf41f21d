//! The dependency-tracking call graph, in three interchangeable
//! representations sharing one trait.
//!
//! `CallerToCalleeGraph` stores, for each function, the functions it calls;
//! `CalleeToCallerGraph` stores, for each function, the functions that call
//! it; `BothWayGraph` keeps both orientations in lock-step and so checks one
//! against the other. All three are specified against the same mathematical
//! `GraphModel`, so the affected sets they report are provably identical.

use crate::graph_model::GraphModel;
use crate::graph_model::ids_up_to;
use crate::graph_model::lemma_ids_up_to_membership;
use crate::graph_model::lemma_ids_up_to_sorted;
use crate::graph_model::lemma_ids_up_to_empty;
use crate::graph_model::lemma_index_of_unique;
use crate::graph_model::lemma_updated_wf;
use crate::graph_model::lemma_deleted_wf;
use crate::graph_model::lemma_kill_closed;
use crate::graph_model::lemma_affected_out_of_range;
use crate::graph_model::lemma_index_of;
use vstd::prelude::*;

verus! {

/// A semantic rejection from the call graph.
#[derive(Clone, Copy, Debug, PartialEq, Eq, Structural)]
pub enum GraphError {
    /// An `update` or `add` named a dependency that is not in the graph.
    DepNotInGraph,
    /// A `delete` named a function that is not in the graph.
    FnNotInGraph,
}

impl GraphError {
    /// The printable description of the rejection.
    pub fn message(&self) -> (s: &'static str)
        ensures
            *self == GraphError::DepNotInGraph ==> s@ == "Dependency not in graph"@,
            *self == GraphError::FnNotInGraph ==> s@ == "Function not in graph"@,
    {
        match self {
            GraphError::DepNotInGraph => "Dependency not in graph",
            GraphError::FnNotInGraph => "Function not in graph",
        }
    }
}

/// The per-row views of an adjacency table.
pub open spec fn rows(adj: Seq<Vec<usize>>) -> Seq<Seq<usize>> {
    adj.map_values(|r: Vec<usize>| r@)
}

/// Every entry of the adjacency table is a valid row index.
pub open spec fn adj_in_range(adj: Seq<Seq<usize>>) -> bool {
    forall|x: int, i: int|
        0 <= x < adj.len() && 0 <= i < adj[x].len() ==> (#[trigger] adj[x][i] as int) < adj.len()
}

/// In a callers table (`adj[v]` lists the direct callers of `v`), `u`
/// directly calls `v`.
pub open spec fn adj_edge(adj: Seq<Seq<usize>>, u: usize, v: usize) -> bool {
    (v as int) < adj.len() && adj[v as int].contains(u)
}

/// `u` calls `v` through a chain of at most `k + 1` edges of the callers
/// table.
pub open spec fn adj_reaches(adj: Seq<Seq<usize>>, u: usize, v: usize, k: nat) -> bool
    decreases k,
{
    adj_edge(adj, u, v) || (k > 0 && exists|w: usize|
        #[trigger] adj_edge(adj, u, w) && adj_reaches(adj, w, v, (k - 1) as nat))
}

/// The transitive callers of `v` in the callers table.
pub open spec fn adj_affected(adj: Seq<Seq<usize>>, v: usize) -> Set<usize> {
    Set::new(|u: usize| exists|k: nat| adj_reaches(adj, u, v, k))
}

/// The set of marked indices.
pub open spec fn marks_set(s: Seq<bool>) -> Set<usize> {
    Set::new(|u: usize| (u as int) < s.len() && s[u as int])
}

/// One more edge in front of a chain in the callers table is still a chain.
proof fn lemma_adj_reaches_extend(adj: Seq<Seq<usize>>, u: usize, w: usize, v: usize, k: nat)
    requires
        adj_edge(adj, u, w),
        adj_reaches(adj, w, v, k),
    ensures
        adj_reaches(adj, u, v, k + 1),
        adj_affected(adj, v).contains(u),
{
    assert(adj_reaches(adj, u, v, k + 1));
}

/// Every chain into `v` ends inside a set that holds the direct callers of
/// `v` and is closed under taking callers.
proof fn lemma_adj_closure_complete(
    adj: Seq<Seq<usize>>,
    v: usize,
    s: Set<usize>,
    u: usize,
    k: nat,
)
    requires
        forall|c: usize| #[trigger] adj_edge(adj, c, v) ==> s.contains(c),
        forall|c: usize, w: usize| s.contains(w) && #[trigger] adj_edge(adj, c, w) ==> s.contains(
            c,
        ),
        adj_reaches(adj, u, v, k),
    ensures
        s.contains(u),
    decreases k,
{
    if adj_edge(adj, u, v) {
    } else {
        let w = choose|w: usize| #[trigger] adj_edge(adj, u, w) && adj_reaches(adj, w, v, (k - 1) as nat);
        lemma_adj_closure_complete(adj, v, s, w, (k - 1) as nat);
    }
}

/// Chains in a callers table are chains of the graph model whose edge
/// relation it mirrors.
proof fn lemma_adj_reaches_equiv(adj: Seq<Seq<usize>>, m: GraphModel, v: usize, k: nat)
    requires
        forall|a: usize, b: usize| #[trigger] adj_edge(adj, a, b) <==> m.edge(a, b),
    ensures
        forall|u: usize| #[trigger] adj_reaches(adj, u, v, k) <==> m.reaches(u, v, k),
    decreases k,
{
    if k > 0 {
        lemma_adj_reaches_equiv(adj, m, v, (k - 1) as nat);
    }
    assert forall|u: usize| #[trigger] adj_reaches(adj, u, v, k) <==> m.reaches(u, v, k) by {
        if k > 0 {
            assert forall|w: usize|
                #[trigger] adj_edge(adj, u, w) && adj_reaches(adj, w, v, (k - 1) as nat) implies m.edge(
                u,
                w,
            ) && m.reaches(w, v, (k - 1) as nat) by {
                assert(adj_reaches(adj, w, v, (k - 1) as nat) <==> m.reaches(w, v, (k - 1) as nat));
            }
            assert forall|w: usize|
                #[trigger] m.edge(u, w) && m.reaches(w, v, (k - 1) as nat) implies adj_edge(
                adj,
                u,
                w,
            ) && adj_reaches(adj, w, v, (k - 1) as nat) by {
                assert(adj_reaches(adj, w, v, (k - 1) as nat) <==> m.reaches(w, v, (k - 1) as nat));
            }
        }
    }
}

/// The affected sets of a callers table and of the graph model whose edge
/// relation it mirrors coincide.
proof fn lemma_adj_affected_equiv(adj: Seq<Seq<usize>>, m: GraphModel, v: usize)
    requires
        forall|a: usize, b: usize| #[trigger] adj_edge(adj, a, b) <==> m.edge(a, b),
    ensures
        adj_affected(adj, v) =~= m.affected(v),
{
    assert forall|u: usize|
        #[trigger] adj_affected(adj, v).contains(u) <==> m.affected(v).contains(u) by {
        if adj_affected(adj, v).contains(u) {
            let k = choose|k: nat| adj_reaches(adj, u, v, k);
            lemma_adj_reaches_equiv(adj, m, v, k);
            assert(m.reaches(u, v, k));
        }
        if m.affected(v).contains(u) {
            let k = choose|k: nat| m.reaches(u, v, k);
            lemma_adj_reaches_equiv(adj, m, v, k);
            assert(adj_reaches(adj, u, v, k));
        }
    }
}

/// Whether a list of slots holds the given one.
fn vec_contains(v: &Vec<usize>, x: usize) -> (r: bool)
    ensures
        r == v@.contains(x),
{
    let mut i: usize = 0;
    while i < v.len()
        invariant
            i <= v@.len(),
            forall|j: int| 0 <= j < i ==> v@[j] != x,
        decreases v@.len() - i,
    {
        if v[i] == x {
            return true;
        }
        i += 1;
    }
    false
}

/// The marked indices, in increasing order.
fn collect_marked(marks: &Vec<bool>) -> (r: Vec<usize>)
    ensures
        r@ == ids_up_to(marks_set(marks@), marks@.len() as int),
{
    let mut r: Vec<usize> = Vec::new();
    let mut u: usize = 0;
    while u < marks.len()
        invariant
            u <= marks@.len(),
            r@ == ids_up_to(marks_set(marks@), u as int),
        decreases marks@.len() - u,
    {
        if marks[u] {
            r.push(u);
            assert(marks_set(marks@).contains(u));
        } else {
            assert(!marks_set(marks@).contains(u));
        }
        u += 1;
    }
    r
}

/// The names at the given slots, cloned in order.
fn names_of(names: &Vec<String>, ids: &Vec<usize>) -> (r: Vec<String>)
    requires
        forall|j: int| 0 <= j < ids@.len() ==> (#[trigger] ids@[j] as int) < names@.len(),
    ensures
        r.deep_view() == ids@.map_values(|u: usize| names.deep_view()[u as int]),
{
    let mut r: Vec<String> = Vec::new();
    let mut j: usize = 0;
    while j < ids.len()
        invariant
            j <= ids@.len(),
            r@.len() == j,
            forall|k: int| 0 <= k < ids@.len() ==> (#[trigger] ids@[k] as int) < names@.len(),
            forall|k: int| 0 <= k < j ==> #[trigger] r@[k]@ == names@[ids@[k] as int]@,
        decreases ids@.len() - j,
    {
        let u = ids[j];
        r.push(names[u].clone());
        j += 1;
    }
    assert(r.deep_view() =~= ids@.map_values(|u: usize| names.deep_view()[u as int]));
    r
}

/// How many entries are still unmarked; the measure of the closure loop.
pub open spec fn count_false(s: Seq<bool>) -> nat
    decreases s.len(),
{
    if s.len() == 0 {
        0
    } else {
        count_false(s.drop_last()) + if s.last() {
            0nat
        } else {
            1nat
        }
    }
}

/// Marking one unmarked entry lowers the count of unmarked entries by one.
proof fn lemma_count_false_update(s: Seq<bool>, i: int)
    requires
        0 <= i < s.len(),
        !s[i],
    ensures
        count_false(s) == count_false(s.update(i, true)) + 1,
    decreases s.len(),
{
    let t = s.update(i, true);
    if i == s.len() - 1 {
        assert(t.drop_last() =~= s.drop_last());
    } else {
        lemma_count_false_update(s.drop_last(), i);
        assert(t.drop_last() =~= s.drop_last().update(i, true));
    }
}

/// Membership in a pushed stack is membership in the stack or the pushed
/// element.
proof fn lemma_push_contains(s: Seq<usize>, x: usize)
    ensures
        forall|y: usize| #[trigger] s.push(x).contains(y) <==> s.contains(y) || y == x,
{
    assert forall|y: usize| #[trigger] s.push(x).contains(y) implies s.contains(y) || y == x by {
        let idx = choose|idx: int| 0 <= idx < s.push(x).len() && #[trigger] s.push(x)[idx] == y;
        if idx < s.len() {
            assert(s[idx] == y);
        }
    };
    assert forall|y: usize| s.contains(y) || y == x implies #[trigger] s.push(x).contains(y) by {
        if s.contains(y) {
            let idx = choose|idx: int| 0 <= idx < s.len() && #[trigger] s[idx] == y;
            assert(s.push(x)[idx] == y);
        } else {
            assert(s.push(x)[s.len() as int] == y);
        }
    };
}

/// Marks the transitive callers of `id` in the callers table.
fn closure_marks(callers: &Vec<Vec<usize>>, id: usize) -> (marks: Vec<bool>)
    requires
        adj_in_range(rows(callers@)),
        (id as int) < callers@.len(),
    ensures
        marks@.len() == callers@.len(),
        marks_set(marks@) =~= adj_affected(rows(callers@), id),
{
    let ghost adj = rows(callers@);
    let n = callers.len();
    let mut marks: Vec<bool> = Vec::new();
    while marks.len() < n
        invariant
            marks@.len() <= n,
            forall|u: int| 0 <= u < marks@.len() ==> !marks@[u],
        decreases n - marks@.len(),
    {
        marks.push(false);
    }
    let mut stack: Vec<usize> = Vec::new();
    let mut unmarked: usize = n;
    proof {
        lemma_count_false_all(marks@);
    }
    // seed with the direct callers of id
    let row_len = callers[id].len();
    let mut i: usize = 0;
    while i < row_len
        invariant
            (id as int) < callers@.len(),
            adj == rows(callers@),
            adj_in_range(adj),
            i <= row_len,
            row_len == adj[id as int].len(),
            marks@.len() == n,
            n == callers@.len(),
            unmarked == count_false(marks@),
            forall|x: int| 0 <= x < stack@.len() ==> (#[trigger] stack@[x] as int) < n
                && marks@[stack@[x] as int],
            forall|u: usize| (u as int) < n && marks@[u as int]
                ==> #[trigger] adj_affected(adj, id).contains(u),
            forall|u: usize| (u as int) < n && marks@[u as int] ==> stack@.contains(u),
            forall|c: usize| #[trigger] adj[id as int].take(i as int).contains(c) ==> (c as int)
                < n && marks@[c as int],
        decreases row_len - i,
    {
        let c = callers[id][i];
        assert(adj_edge(adj, c, id));
        if !marks[c] {
            proof {
                lemma_count_false_update(marks@, c as int);
                assert(adj_reaches(adj, c, id, 0));
            }
            marks.set(c, true);
            unmarked = unmarked - 1;
            let ghost sk = stack@;
            stack.push(c);
            proof {
                lemma_push_contains(sk, c);
            }
        }
        proof {
            assert forall|cc: usize| #[trigger] adj[id as int].take(i + 1).contains(cc) implies (
            cc as int) < n && marks@[cc as int] by {
                if adj[id as int].take(i as int).contains(cc) {
                } else {
                    assert(cc == adj[id as int][i as int]);
                }
            }
        }
        i += 1;
    }
    proof {
        assert(adj[id as int].take(row_len as int) == adj[id as int]);
        assert forall|c: usize| #[trigger] adj_edge(adj, c, id) implies (c as int) < n
            && marks@[c as int] by {
            assert(adj[id as int].contains(c));
        }
        assert forall|u: usize|
            ((u as int) < n && marks@[u as int] && !stack@.contains(u)) implies forall|c: usize|
                #[trigger] adj_edge(adj, c, u) ==> (c as int) < n && marks@[c as int] by {
            assert(stack@.contains(u));
        }
    }
    // walk callers until no new function is marked
    while stack.len() > 0
        invariant
            adj == rows(callers@),
            adj_in_range(adj),
            (id as int) < n,
            marks@.len() == n,
            n == callers@.len(),
            unmarked == count_false(marks@),
            forall|x: int| 0 <= x < stack@.len() ==> (#[trigger] stack@[x] as int) < n
                && marks@[stack@[x] as int],
            forall|u: usize| (u as int) < n && marks@[u as int]
                ==> #[trigger] adj_affected(adj, id).contains(u),
            forall|u: usize|
                ((u as int) < n && marks@[u as int] && !stack@.contains(u)) ==> forall|c: usize|
                    #[trigger] adj_edge(adj, c, u) ==> (c as int) < n && marks@[c as int],
            forall|c: usize| #[trigger] adj_edge(adj, c, id) ==> (c as int) < n
                && marks@[c as int],
        decreases count_false(marks@), stack@.len(),
    {
        let ghost old_stack = stack@;
        let ghost old_marks = marks@;
        let x = stack.pop().unwrap();
        proof {
            assert(old_stack =~= stack@.push(x));
            lemma_push_contains(stack@, x);
        }
        let row_len = callers[x].len();
        let mut i: usize = 0;
        while i < row_len
            invariant
                adj == rows(callers@),
                adj_in_range(adj),
                (id as int) < n,
                (x as int) < n,
                i <= row_len,
                row_len == adj[x as int].len(),
                marks@.len() == n,
                n == callers@.len(),
                unmarked == count_false(marks@),
                marks@[x as int],
                adj_affected(adj, id).contains(x),
                count_false(marks@) <= count_false(old_marks),
                count_false(marks@) == count_false(old_marks) ==> stack@.len() < old_stack.len(),
                forall|y: int| 0 <= y < stack@.len() ==> (#[trigger] stack@[y] as int) < n
                    && marks@[stack@[y] as int],
                forall|u: usize| (u as int) < n && marks@[u as int]
                    ==> #[trigger] adj_affected(adj, id).contains(u),
                forall|u: usize|
                    ((u as int) < n && marks@[u as int] && !stack@.contains(u) && u != x)
                        ==> forall|c: usize|
                        #[trigger] adj_edge(adj, c, u) ==> (c as int) < n && marks@[c as int],
                forall|c: usize| #[trigger] adj[x as int].take(i as int).contains(c) ==> (c as int)
                    < n && marks@[c as int],
                forall|c: usize| #[trigger] adj_edge(adj, c, id) ==> (c as int) < n
                    && marks@[c as int],
            decreases row_len - i,
        {
            let c = callers[x][i];
            assert(adj_edge(adj, c, x));
            if !marks[c] {
                proof {
                    lemma_count_false_update(marks@, c as int);
                    let k = choose|k: nat| adj_reaches(adj, x, id, k);
                    lemma_adj_reaches_extend(adj, c, x, id, k);
                }
                marks.set(c, true);
                unmarked = unmarked - 1;
                let ghost sk = stack@;
                stack.push(c);
                proof {
                    lemma_push_contains(sk, c);
                }
            }
            proof {
                assert forall|cc: usize| #[trigger] adj[x as int].take(i + 1).contains(cc) implies (
                cc as int) < n && marks@[cc as int] by {
                    if adj[x as int].take(i as int).contains(cc) {
                    } else {
                        assert(cc == adj[x as int][i as int]);
                    }
                }
            }
            i += 1;
        }
        proof {
            assert(adj[x as int].take(row_len as int) == adj[x as int]);
            assert forall|u: usize|
                ((u as int) < n && marks@[u as int] && !stack@.contains(u)) implies forall|c: usize|
                #[trigger] adj_edge(adj, c, u) ==> (c as int) < n && marks@[c as int] by {
                if u == x {
                    assert forall|c: usize| #[trigger] adj_edge(adj, c, x) implies (c as int) < n
                        && marks@[c as int] by {
                        assert(adj[x as int].contains(c));
                    }
                }
            }
        }
    }
    // the marks now hold exactly the affected set
    proof {
        assert forall|u: usize| #[trigger] marks_set(marks@).contains(u) implies adj_affected(
            adj,
            id,
        ).contains(u) by {}
        assert forall|u: usize| #[trigger] adj_affected(adj, id).contains(u) implies marks_set(
            marks@,
        ).contains(u) by {
            let k = choose|k: nat| adj_reaches(adj, u, id, k);
            lemma_adj_closure_complete(adj, id, marks_set(marks@), u, k);
        }
    }
    marks
}

/// A sequence of all-false marks has only unmarked entries.
proof fn lemma_count_false_all(s: Seq<bool>)
    requires
        forall|u: int| 0 <= u < s.len() ==> !s[u],
    ensures
        count_false(s) == s.len(),
    decreases s.len(),
{
    if s.len() > 0 {
        lemma_count_false_all(s.drop_last());
    }
}

/// The callers table of a callees table: `t[v]` lists the rows of `edges`
/// that contain `v`.
fn transpose(edges: &Vec<Vec<usize>>) -> (t: Vec<Vec<usize>>)
    requires
        adj_in_range(rows(edges@)),
    ensures
        t@.len() == edges@.len(),
        forall|u: usize, v: usize| #[trigger] adj_edge(rows(t@), u, v) <==> ((u as int)
            < edges@.len() && rows(edges@)[u as int].contains(v)),
        adj_in_range(rows(t@)),
{
    let n = edges.len();
    let mut t: Vec<Vec<usize>> = Vec::new();
    while t.len() < n
        invariant
            t@.len() <= n,
            forall|x: int| 0 <= x < t@.len() ==> (#[trigger] t@[x])@.len() == 0,
        decreases n - t@.len(),
    {
        t.push(Vec::new());
    }
    let mut u: usize = 0;
    while u < n
        invariant
            u <= n,
            t@.len() == n,
            n == edges@.len(),
            adj_in_range(rows(edges@)),
            forall|a: usize, b: usize|
                ((b as int) < n && #[trigger] rows(t@)[b as int].contains(a)) <==> ((a as int) < u
                    && rows(edges@)[a as int].contains(b)),
            forall|b: int, x: int|
                0 <= b < n && 0 <= x < (t@[b])@.len() ==> ((#[trigger] (t@[b])@[x]) as int) < n,
        decreases n - u,
    {
        let row_len = edges[u].len();
        let mut i: usize = 0;
        while i < row_len
            invariant
                u < n,
                i <= row_len,
                t@.len() == n,
                n == edges@.len(),
                adj_in_range(rows(edges@)),
                row_len == (edges@[u as int])@.len(),
                forall|a: usize, b: usize|
                    ((b as int) < n && #[trigger] rows(t@)[b as int].contains(a)) <==> (((a as int)
                        < u && rows(edges@)[a as int].contains(b)) || (a == u && exists|x: int|
                        0 <= x < i && (#[trigger] (edges@[u as int])@[x]) == b)),
            forall|b: int, x: int|
                0 <= b < n && 0 <= x < (t@[b])@.len() ==> ((#[trigger] (t@[b])@[x]) as int) < n,
            decreases row_len - i,
        {
            let v = edges[u][i];
            proof {
                assert(rows(edges@)[u as int][i as int] == v);
            }
            assert((v as int) < n);
            let ghost before = t@;
            t[v].push(u);
            proof {
                assert(t@[v as int]@ == before[v as int]@.push(u));
                assert forall|a: usize, b: usize|
                    ((b as int) < n && #[trigger] rows(t@)[b as int].contains(a)) implies (((
                a as int) < u && rows(edges@)[a as int].contains(b)) || (a == u && exists|x: int|
                    0 <= x < i + 1 && (#[trigger] (edges@[u as int])@[x]) == b)) by {
                    if b == v {
                        if before[b as int]@.contains(a) {
                            assert(rows(before)[b as int].contains(a));
                        } else {
                            assert(a == u);
                            assert((edges@[u as int])@[i as int] == v);
                        }
                    } else {
                        assert(rows(before)[b as int].contains(a));
                    }
                }
                assert forall|a: usize, b: usize|
                    (((a as int) < u && rows(edges@)[a as int].contains(b)) || (a == u && exists|
                    x: int|
                        0 <= x < i + 1 && (#[trigger] (edges@[u as int])@[x]) == b)) implies ((
                b as int) < n && rows(t@)[b as int].contains(a)) by {
                    if (a as int) < u && rows(edges@)[a as int].contains(b) {
                        assert(rows(before)[b as int].contains(a));
                        if b == v {
                            assert(t@[b as int]@.contains(a)) by {
                                let x = choose|x: int|
                                    0 <= x < before[b as int]@.len() && #[trigger] before[b
                                        as int]@[x] == a;
                                assert(t@[b as int]@[x] == a);
                            }
                        }
                    } else {
                        let x = choose|x: int|
                            0 <= x < i + 1 && (#[trigger] (edges@[u as int])@[x]) == b;
                        if x < i {
                            assert(rows(before)[b as int].contains(u));
                            if b == v {
                                let y = choose|y: int|
                                    0 <= y < before[b as int]@.len() && #[trigger] before[b
                                        as int]@[y] == u;
                                assert(t@[b as int]@[y] == u);
                            }
                        } else {
                            assert(b == v);
                            assert(t@[b as int]@.last() == u);
                        }
                    }
                }
            }
            i += 1;
        }
        proof {
            assert forall|a: usize, b: usize|
                ((b as int) < n && #[trigger] rows(t@)[b as int].contains(a)) <==> ((a as int) < u
                    + 1 && rows(edges@)[a as int].contains(b)) by {
                if (b as int) < n && rows(t@)[b as int].contains(a) {
                    if a == u {
                        let x = choose|x: int|
                            0 <= x < row_len && (#[trigger] (edges@[u as int])@[x]) == b;
                        assert(rows(edges@)[a as int][x] == b);
                    }
                }
                if (a as int) < u + 1 && rows(edges@)[a as int].contains(b) {
                    if a == u {
                        let x = choose|x: int|
                            0 <= x < rows(edges@)[a as int].len() && #[trigger] rows(edges@)[a
                                as int][x] == b;
                        assert(0 <= x < row_len && (edges@[u as int])@[x] == b);
                    }
                }
            }
        }
        u += 1;
    }
    t
}

/// The shared name table of the graph representations: the names ever
/// added, with a liveness flag per slot.
struct NameTable {
    names: Vec<String>,
    live: Vec<bool>,
}

impl NameTable {
    /// The names of all slots.
    spec fn names_view(&self) -> Seq<Seq<char>> {
        self.names.deep_view()
    }

    /// The liveness flags of all slots.
    spec fn live_view(&self) -> Seq<bool> {
        self.live@
    }

    /// The two columns agree in length.
    spec fn wf0(&self) -> bool {
        self.names@.len() == self.live@.len()
    }

    fn new() -> (t: NameTable)
        ensures
            t.wf0(),
            t.names_view() == Seq::<Seq<char>>::empty(),
            t.live_view() == Seq::<bool>::empty(),
    {
        let t = NameTable { names: Vec::new(), live: Vec::new() };
        assert(t.names_view() =~= Seq::<Seq<char>>::empty());
        t
    }

    fn len(&self) -> (n: usize)
        requires
            self.wf0(),
        ensures
            n == self.names_view().len(),
    {
        self.names.len()
    }

    /// The slot of the live function with this name, if any.
    fn find_slot(&self, name: &String) -> (r: Option<usize>)
        requires
            self.wf0(),
        ensures
            match r {
                Some(i) => (i as int) < self.names_view().len() && self.live_view()[i as int]
                    && self.names_view()[i as int] == name@,
                None => forall|i: int|
                    0 <= i < self.names_view().len() && self.live_view()[i]
                        ==> #[trigger] self.names_view()[i] != name@,
            },
    {
        let n = self.names.len();
        let mut i: usize = 0;
        while i < n
            invariant
                self.wf0(),
                i <= n,
                n == self.names_view().len(),
                forall|j: int| 0 <= j < i && self.live_view()[j] ==> #[trigger] self.names_view()[j]
                    != name@,
            decreases n - i,
        {
            if self.live[i] && self.names[i] == *name {
                return Some(i);
            }
            i += 1;
        }
        None
    }

    /// Allocates a slot for a new live function.
    fn push(&mut self, name: String)
        requires
            old(self).wf0(),
        ensures
            final(self).wf0(),
            final(self).names_view() =~= old(self).names_view().push(name@),
            final(self).live_view() == old(self).live_view().push(true),
    {
        self.names.push(name);
        self.live.push(true);
    }

    /// Tombstones a slot.
    fn kill(&mut self, i: usize)
        requires
            old(self).wf0(),
            (i as int) < old(self).names_view().len(),
        ensures
            final(self).wf0(),
            final(self).names_view() =~= old(self).names_view(),
            final(self).live_view() == old(self).live_view().update(i as int, false),
    {
        self.live.set(i, false);
    }

    /// The names of the live slots, in insertion order.
    fn live_names(&self) -> (r: Vec<String>)
        requires
            self.wf0(),
        ensures
            r.deep_view() == ids_up_to(
                marks_set(self.live_view()),
                self.names_view().len() as int,
            ).map_values(|u: usize| self.names_view()[u as int]),
    {
        let n = self.names.len();
        let ids = collect_marked(&self.live);
        proof {
            lemma_ids_up_to_sorted(marks_set(self.live_view()), n as int);
        }
        names_of(&self.names, &ids)
    }
}

/// The index of the first occurrence of a name in a list, if any.
fn position(s: &String, l: &Vec<String>) -> (r: Option<usize>)
    ensures
        match r {
            Some(i) => (i as int) < l@.len() && l.deep_view()[i as int] == s@ && forall|j: int|
                0 <= j < i ==> #[trigger] l.deep_view()[j] != s@,
            None => forall|i: int| 0 <= i < l@.len() ==> #[trigger] l.deep_view()[i] != s@,
        },
{
    let n = l.len();
    let mut i: usize = 0;
    while i < n
        invariant
            i <= n,
            n == l@.len(),
            forall|j: int| 0 <= j < i ==> #[trigger] l.deep_view()[j] != s@,
        decreases n - i,
    {
        if l[i] == *s {
            return Some(i);
        }
        i += 1;
    }
    None
}

/// Whether every queried name occurs in the list.
fn contains_all(queries: &Vec<String>, list: &Vec<String>) -> (r: bool)
    ensures
        r == (forall|i: int|
            0 <= i < queries@.len() ==> list.deep_view().contains(
                #[trigger] queries.deep_view()[i],
            )),
{
    let n = queries.len();
    let mut i: usize = 0;
    while i < n
        invariant
            i <= n,
            n == queries@.len(),
            forall|j: int| 0 <= j < i ==> list.deep_view().contains(
                #[trigger] queries.deep_view()[j],
            ),
        decreases n - i,
    {
        match position(&queries[i], list) {
            None => {
                proof {
                    assert forall|ii: int|
                        !(0 <= ii < list.deep_view().len() && #[trigger] list.deep_view()[ii]
                            == queries.deep_view()[i as int]) by {}
                    assert(!list.deep_view().contains(queries.deep_view()[i as int]));
                }
                return false;
            },
            Some(p) => {
                proof {
                    assert(list.deep_view()[p as int] == queries.deep_view()[i as int]);
                }
            },
        }
        i += 1;
    }
    true
}

/// Resolves the named dependencies to their slots, rejecting on the first
/// name that is not in the graph. Duplicates are dropped.
fn resolve_deps(table: &NameTable, dependencies: &Vec<String>, Ghost(m): Ghost<GraphModel>) -> (r:
    Option<Vec<usize>>)
    requires
        table.wf0(),
        m.wf(),
        m.names == table.names_view(),
        m.live == table.live_view(),
    ensures
        match r {
            Some(ids) => {
                &&& m.deps_known(dependencies.deep_view())
                &&& forall|p: usize| #[trigger] ids@.contains(p) <==> m.dep_ids(
                    dependencies.deep_view(),
                ).contains(p)
                &&& forall|p: usize| #[trigger] ids@.contains(p) ==> m.is_live(p)
            },
            None => !m.deps_known(dependencies.deep_view()),
        },
{
    let ghost deps = dependencies.deep_view();
    let mut dep_vec: Vec<usize> = Vec::new();
    let mut i: usize = 0;
    while i < dependencies.len()
        invariant
            table.wf0(),
            m.wf(),
            m.names == table.names_view(),
            m.live == table.live_view(),
            deps == dependencies.deep_view(),
            i <= dependencies@.len(),
            forall|j: int| 0 <= j < i ==> m.contains_name(#[trigger] deps[j]),
            forall|p: usize| #[trigger] dep_vec@.contains(p) <==> exists|j: int|
                0 <= j < i && m.contains_name(#[trigger] deps[j]) && p == m.index_of(deps[j]),
        decreases dependencies@.len() - i,
    {
        match table.find_slot(&dependencies[i]) {
            None => {
                proof {
                    if m.contains_name(deps[i as int]) {
                        let w = choose|w: usize| m.is_live(w) && m.names[w as int] == deps[i as int];
                    }
                }
                return None;
            },
            Some(p) => {
                proof {
                    lemma_index_of_unique(m, deps[i as int], p);
                }
                let ghost dv = dep_vec@;
                if !vec_contains(&dep_vec, p) {
                    dep_vec.push(p);
                    proof {
                        lemma_push_contains(dv, p);
                    }
                }
                proof {
                    assert forall|q: usize| #[trigger] dep_vec@.contains(q) implies exists|j: int|
                        0 <= j < i + 1 && m.contains_name(#[trigger] deps[j]) && q == m.index_of(
                            deps[j],
                        ) by {
                        if dv.contains(q) {
                        } else {
                            assert(q == p);
                            assert(m.contains_name(deps[i as int]) && q == m.index_of(
                                deps[i as int],
                            ));
                        }
                    }
                }
            },
        }
        i += 1;
    }
    proof {
        assert forall|p: usize| #[trigger] dep_vec@.contains(p) <==> m.dep_ids(deps).contains(
            p,
        ) by {}
        assert forall|p: usize| #[trigger] dep_vec@.contains(p) implies m.is_live(p) by {
            let j = choose|j: int|
                0 <= j < deps.len() && m.contains_name(#[trigger] deps[j]) && p == m.index_of(
                    deps[j],
                );
            lemma_index_of(m, deps[j]);
        }
    }
    Some(dep_vec)
}

/// The entries of a list with every occurrence of one value removed.
fn remove_all(v: &Vec<usize>, x: usize) -> (r: Vec<usize>)
    ensures
        forall|y: usize| #[trigger] r@.contains(y) <==> v@.contains(y) && y != x,
{
    let n = v.len();
    let mut r: Vec<usize> = Vec::new();
    let mut i: usize = 0;
    while i < n
        invariant
            i <= n,
            n == v@.len(),
            forall|y: usize| #[trigger] r@.contains(y) <==> v@.take(i as int).contains(y) && y
                != x,
        decreases n - i,
    {
        let e = v[i];
        let ghost rv = r@;
        if e != x {
            r.push(e);
            proof {
                lemma_push_contains(rv, e);
            }
        }
        proof {
            assert(v@.take(i + 1).drop_last() == v@.take(i as int));
            assert(v@.take(i + 1)[i as int] == v@[i as int]);
            assert forall|y: usize| #[trigger] v@.take(i + 1).contains(y) <==> (v@.take(
                i as int,
            ).contains(y) || y == v@[i as int]) by {
                if v@.take(i + 1).contains(y) {
                    let q = choose|q: int| 0 <= q < i + 1 && #[trigger] v@.take(i + 1)[q] == y;
                    if q < i {
                        assert(v@.take(i as int)[q] == y);
                    }
                } else {
                    if v@.take(i as int).contains(y) {
                        let q = choose|q: int|
                            0 <= q < i && #[trigger] v@.take(i as int)[q] == y;
                        assert(v@.take(i + 1)[q] == y);
                    }
                }
            }
        }
        i += 1;
    }
    proof {
        assert(v@.take(n as int) == v@);
    }
    r
}

/// The entries of a list with every marked value removed.
fn remove_marked(v: &Vec<usize>, killed: &Vec<bool>) -> (r: Vec<usize>)
    requires
        forall|j: int| 0 <= j < v@.len() ==> (#[trigger] v@[j] as int) < killed@.len(),
    ensures
        forall|y: usize| #[trigger] r@.contains(y) <==> v@.contains(y) && !killed@[y as int],
{
    let n = v.len();
    let mut r: Vec<usize> = Vec::new();
    let mut i: usize = 0;
    while i < n
        invariant
            i <= n,
            n == v@.len(),
            forall|j: int| 0 <= j < v@.len() ==> (#[trigger] v@[j] as int) < killed@.len(),
            forall|y: usize| #[trigger] r@.contains(y) <==> v@.take(i as int).contains(y)
                && !killed@[y as int],
        decreases n - i,
    {
        let e = v[i];
        let ghost rv = r@;
        if !killed[e] {
            r.push(e);
            proof {
                lemma_push_contains(rv, e);
            }
        }
        proof {
            assert(v@.take(i + 1).drop_last() == v@.take(i as int));
            assert(v@.take(i + 1)[i as int] == v@[i as int]);
            assert forall|y: usize| #[trigger] v@.take(i + 1).contains(y) <==> (v@.take(
                i as int,
            ).contains(y) || y == v@[i as int]) by {
                if v@.take(i + 1).contains(y) {
                    let q = choose|q: int| 0 <= q < i + 1 && #[trigger] v@.take(i + 1)[q] == y;
                    if q < i {
                        assert(v@.take(i as int)[q] == y);
                    }
                } else {
                    if v@.take(i as int).contains(y) {
                        let q = choose|q: int|
                            0 <= q < i && #[trigger] v@.take(i as int)[q] == y;
                        assert(v@.take(i + 1)[q] == y);
                    }
                }
            }
        }
        i += 1;
    }
    proof {
        assert(v@.take(n as int) == v@);
    }
    r
}

/// The shared capability set of the three graph representations. Every
/// method is specified against the representation's `GraphModel`, so any two
/// well-formed representations with equal models report equal results.
pub trait CallGraph: Sized {
    /// The mathematical graph this value represents.
    spec fn model(&self) -> GraphModel;

    /// The representation invariant.
    spec fn wf(&self) -> bool;

    /// Inserts `func`, or re-defines it after first retracting its old
    /// outgoing edges. Every dependency must already be in the graph, or the
    /// update is rejected unchanged. Returns the names of the functions
    /// affected by `func` (its transitive callers under the resulting
    /// graph), in insertion order.
    fn update(&mut self, func: String, dependencies: &Vec<String>) -> (r: Result<
        Vec<String>,
        GraphError,
    >)
        requires
            old(self).wf(),
        ensures
            final(self).wf(),
            ({
                let m = old(self).model();
                let deps = dependencies.deep_view();
                match r {
                    Ok(affected) => {
                        &&& m.deps_known(deps)
                        &&& final(self).model() == m.updated(func@, deps)
                        &&& affected.deep_view() == final(self).model().affected_names(
                            m.updated_slot(func@),
                        )
                    },
                    Err(e) => {
                        &&& e == GraphError::DepNotInGraph
                        &&& !m.deps_known(deps)
                        &&& final(self).model() == m
                    },
                }
            }),
    ;

    /// Removes `func` and every function affected by it, or rejects when
    /// `func` is not in the graph. Returns the names of the removed affected
    /// functions, in insertion order.
    fn delete(&mut self, func: &String) -> (r: Result<Vec<String>, GraphError>)
        requires
            old(self).wf(),
        ensures
            final(self).wf(),
            ({
                let m = old(self).model();
                match r {
                    Ok(affected) => {
                        &&& m.contains_name(func@)
                        &&& final(self).model() == m.deleted(func@)
                        &&& affected.deep_view() == m.affected_names(m.index_of(func@))
                    },
                    Err(e) => {
                        &&& e == GraphError::FnNotInGraph
                        &&& !m.contains_name(func@)
                        &&& final(self).model() == m
                    },
                }
            }),
    ;

    /// The names of the functions in the graph, in insertion order.
    fn fns(&self) -> (r: Vec<String>)
        requires
            self.wf(),
        ensures
            r.deep_view() == self.model().live_names(),
    ;

    /// The slots of the direct callers of slot `id`, in increasing order.
    fn fns_directly_affected_by(&self, id: usize) -> (r: Vec<usize>)
        requires
            self.wf(),
        ensures
            r@ == ids_up_to(self.model().callers(id), self.model().len() as int),
    ;

    /// The slots of the functions affected by slot `id` — its transitive
    /// callers — in increasing order.
    fn fns_affected_by(&self, id: usize) -> (r: Vec<usize>)
        requires
            self.wf(),
        ensures
            r@ == self.model().affected_ids(id),
    ;

    /// Inserts a function that is not yet in the graph; such a function can
    /// affect nothing, so no affected names are returned.
    fn add(&mut self, func: String, dependencies: &Vec<String>) -> (r: Result<(), GraphError>)
        requires
            old(self).wf(),
            !old(self).model().contains_name(func@),
        ensures
            final(self).wf(),
            ({
                let m = old(self).model();
                let deps = dependencies.deep_view();
                match r {
                    Ok(u) => {
                        &&& m.deps_known(deps)
                        &&& final(self).model() == m.updated(func@, deps)
                    },
                    Err(e) => {
                        &&& e == GraphError::DepNotInGraph
                        &&& !m.deps_known(deps)
                        &&& final(self).model() == m
                    },
                }
            }),
    ;

    /// Whether every one of the given names is in the graph.
    fn contains(&self, queries: &Vec<String>) -> (r: bool)
        requires
            self.wf(),
        ensures
            r == (forall|i: int|
                0 <= i < queries@.len() ==> self.model().contains_name(
                    #[trigger] queries.deep_view()[i],
                )),
    ;
}

/// The graph stored in the caller-to-callee orientation: `edges[i]` lists
/// the functions that slot `i` invokes.
pub struct CallerToCalleeGraph {
    table: NameTable,
    edges: Vec<Vec<usize>>,
}

impl CallerToCalleeGraph {
    /// An empty graph.
    pub fn new() -> (g: CallerToCalleeGraph)
        ensures
            g.wf(),
            g.model() == (GraphModel {
                names: Seq::<Seq<char>>::empty(),
                live: Seq::<bool>::empty(),
                callees: Seq::<Set<usize>>::empty(),
            }),
    {
        let g = CallerToCalleeGraph { table: NameTable::new(), edges: Vec::new() };
        proof {
            assert(g.model().callees =~= Seq::<Set<usize>>::empty());
            assert(g.model() =~~= (GraphModel {
                names: Seq::<Seq<char>>::empty(),
                live: Seq::<bool>::empty(),
                callees: Seq::<Set<usize>>::empty(),
            }));
        }
        g
    }
}

impl CallGraph for CallerToCalleeGraph {
    closed spec fn model(&self) -> GraphModel {
        GraphModel {
            names: self.table.names_view(),
            live: self.table.live_view(),
            callees: Seq::new(
                self.table.live_view().len(),
                |i: int| Set::new(|v: usize| (self.edges@[i])@.contains(v)),
            ),
        }
    }

    closed spec fn wf(&self) -> bool {
        &&& self.table.wf0()
        &&& self.edges@.len() == self.table.names_view().len()
        &&& self.model().wf()
    }

    fn update(&mut self, func: String, dependencies: &Vec<String>) -> (r: Result<
        Vec<String>,
        GraphError,
    >) {
        let ghost m = old(self).model();
        let ghost deps = dependencies.deep_view();
        let n = self.table.len();
        // resolve the dependency slots; reject on the first unknown name
        let dep_vec: Vec<usize>;
        match resolve_deps(&self.table, dependencies, Ghost(m)) {
            None => {
                return Err(GraphError::DepNotInGraph);
            },
            Some(ids) => {
                dep_vec = ids;
            },
        }
        // find the slot of func, or allocate a fresh one
        let slot: usize;
        match self.table.find_slot(&func) {
            Some(p) => {
                proof {
                    lemma_index_of_unique(m, func@, p);
                }
                slot = p;
            },
            None => {
                proof {
                    if m.contains_name(func@) {
                        let w = choose|w: usize| m.is_live(w) && m.names[w as int] == func@;
                    }
                }
                slot = n;
                self.table.push(func);
                self.edges.push(Vec::new());
            },
        }
        self.edges.set(slot, dep_vec);
        proof {
            lemma_updated_wf(m, func@, deps);
            assert(self.model() =~~= m.updated(func@, deps)) by {
                assert(m.updated_slot(func@) == slot);
                assert forall|x: int|
                    0 <= x < self.model().callees.len() implies self.model().callees[x]
                    =~= m.updated(func@, deps).callees[x] by {
                    if x == slot as int {
                        assert(self.model().callees[x] =~= m.dep_ids(deps));
                    }
                }
            }
        }
        // report everything affected by the new definition
        let aff = self.fns_affected_by(slot);
        proof {
            lemma_ids_up_to_sorted(self.model().affected(slot), self.model().len() as int);
        }
        let out = names_of(&self.table.names, &aff);
        proof {
            assert(out.deep_view() =~= self.model().affected_names(slot));
        }
        Ok(out)
    }

    fn delete(&mut self, func: &String) -> (r: Result<Vec<String>, GraphError>) {
        let ghost m = old(self).model();
        let n = self.table.len();
        let v: usize;
        match self.table.find_slot(func) {
            None => {
                proof {
                    if m.contains_name(func@) {
                        let w = choose|w: usize| m.is_live(w) && m.names[w as int] == func@;
                    }
                }
                return Err(GraphError::FnNotInGraph);
            },
            Some(p) => {
                proof {
                    lemma_index_of_unique(m, func@, p);
                }
                v = p;
            },
        }
        let aff = self.fns_affected_by(v);
        proof {
            lemma_ids_up_to_sorted(m.affected(v), n as int);
            lemma_ids_up_to_membership(m.affected(v), n as int);
        }
        let out = names_of(&self.table.names, &aff);
        proof {
            assert(out.deep_view() =~= m.affected_names(v));
        }
        // tombstone the function and everything affected by it
        self.table.kill(v);
        self.edges.set(v, Vec::new());
        let mut j: usize = 0;
        while j < aff.len()
            invariant
                self.table.wf0(),
                self.edges@.len() == n,
                n == m.len(),
                j <= aff@.len(),
                aff@ == ids_up_to(m.affected(v), n as int),
                (v as int) < n,
                forall|x: int, y: int|
                    0 <= x < y < aff@.len() ==> #[trigger] aff@[x] < #[trigger] aff@[y],
                forall|x: int| 0 <= x < aff@.len() ==> (#[trigger] aff@[x] as int) < n,
                forall|u: usize| #[trigger] aff@.contains(u) <==> m.affected(v).contains(u) && (
                u as int) < n,
                self.table.names_view() == m.names,
                forall|x: int|
                    0 <= x < n ==> (#[trigger] self.table.live_view()[x] <==> (m.live[x] && x != v
                        as int && !aff@.take(j as int).contains(x as usize))),
                forall|x: int|
                    0 <= x < n && !(x == v as int || aff@.take(j as int).contains(x as usize))
                        ==> (#[trigger] self.edges@[x])@ == rows(old(self).edges@)[x],
                forall|x: int|
                    0 <= x < n && (x == v as int || aff@.take(j as int).contains(x as usize))
                        ==> (#[trigger] self.edges@[x])@.len() == 0,
            decreases aff@.len() - j,
        {
            let u = aff[j];
            proof {
                assert(aff@.contains(u));
            }
            self.table.kill(u);
            self.edges.set(u, Vec::new());
            proof {
                assert(aff@.take(j + 1).drop_last() == aff@.take(j as int));
                assert(aff@.take(j + 1)[j as int] == u);
                assert(aff@.take(j + 1).contains(u));
                assert forall|x: int|
                    0 <= x < n implies (self.table.live_view()[x] <==> (m.live[x] && x != v as int
                    && !aff@.take(j + 1).contains(x as usize))) by {
                    assert(aff@.take(j + 1).drop_last() == aff@.take(j as int));
                    if aff@.take(j + 1).contains(x as usize) {
                        if !aff@.take(j as int).contains(x as usize) {
                            let y = choose|y: int|
                                0 <= y < j + 1 && #[trigger] aff@.take(j + 1)[y] == x as usize;
                            assert(y == j);
                        }
                    } else {
                        assert(!aff@.take(j as int).contains(x as usize)) by {
                            if aff@.take(j as int).contains(x as usize) {
                                let y = choose|y: int|
                                    0 <= y < j && #[trigger] aff@.take(j as int)[y] == x as usize;
                                assert(aff@.take(j + 1)[y] == x as usize);
                            }
                        }
                        assert(x != u as int);
                    }
                }
                assert forall|x: int|
                    0 <= x < n && (x == v as int || aff@.take(j + 1).contains(x as usize))
                        implies (#[trigger] self.edges@[x])@.len() == 0 by {
                    if x != v as int && aff@.take(j + 1).contains(x as usize)
                        && !aff@.take(j as int).contains(x as usize) {
                        let y = choose|y: int|
                            0 <= y < j + 1 && #[trigger] aff@.take(j + 1)[y] == x as usize;
                        assert(aff@.take(j + 1).drop_last() == aff@.take(j as int));
                        assert(y == j);
                    }
                }
                assert forall|x: int|
                    0 <= x < n && !(x == v as int || aff@.take(j + 1).contains(x as usize))
                        implies (#[trigger] self.edges@[x])@ == rows(old(self).edges@)[x] by {
                    assert(aff@.take(j + 1).drop_last() == aff@.take(j as int));
                    if aff@.take(j as int).contains(x as usize) {
                        let y = choose|y: int|
                            0 <= y < j && #[trigger] aff@.take(j as int)[y] == x as usize;
                        assert(aff@.take(j + 1)[y] == x as usize);
                    }
                }
            }
            j += 1;
        }
        proof {
            assert(aff@.take(aff@.len() as int) == aff@);
            lemma_deleted_wf(m, v);
            assert(self.model() =~~= m.deleted_at(v)) by {
                let kills = m.kill_set(v);
                assert forall|x: int|
                    0 <= x < n implies (#[trigger] kills.contains(x as usize) <==> (x == v
                    as int || aff@.contains(x as usize))) by {
                    crate::graph_model::lemma_affected_in_range(m, v);
                }
                assert forall|x: int|
                    0 <= x < n implies self.model().callees[x] =~= m.deleted_at(v).callees[x] by {
                    if !(x == v as int || aff@.contains(x as usize)) {
                        assert((self.edges@[x])@ == rows(old(self).edges@)[x]);
                    }
                }
            }
        }
        Ok(out)
    }

    fn fns(&self) -> (r: Vec<String>) {
        // the exec length pins the table size below usize::MAX for the
        // listing lemma
        let _table_len = self.table.len();
        let r = self.table.live_names();
        proof {
            let m = self.model();
            assert(marks_set(self.table.live_view()) =~= Set::new(|u: usize| m.is_live(u)));
            lemma_ids_up_to_sorted(Set::new(|u: usize| m.is_live(u)), m.len() as int);
            assert(r.deep_view() =~= m.live_names());
        }
        r
    }

    fn fns_directly_affected_by(&self, id: usize) -> (r: Vec<usize>) {
        let ghost m = self.model();
        let n = self.edges.len();
        let mut r: Vec<usize> = Vec::new();
        let mut i: usize = 0;
        while i < n
            invariant
                self.wf(),
                m == self.model(),
                n == m.len(),
                i <= n,
                r@ == ids_up_to(m.callers(id), i as int),
            decreases n - i,
        {
            if vec_contains(&self.edges[i], id) {
                proof {
                    assert(m.callers(id).contains(i));
                }
                r.push(i);
            } else {
                proof {
                    assert(!m.callers(id).contains(i));
                }
            }
            i += 1;
        }
        r
    }

    fn fns_affected_by(&self, id: usize) -> (r: Vec<usize>) {
        let ghost m = self.model();
        let n = self.edges.len();
        if id >= n {
            proof {
                lemma_affected_out_of_range(m, id);
                lemma_ids_up_to_empty(m.affected(id), m.len() as int);
            }
            let r: Vec<usize> = Vec::new();
            proof {
                assert(r@ =~= m.affected_ids(id));
            }
            return r;
        }
        proof {
            assert forall|x: int, i: int|
                0 <= x < rows(self.edges@).len() && 0 <= i < rows(self.edges@)[x].len() implies (
            #[trigger] rows(self.edges@)[x][i] as int) < rows(self.edges@).len() by {
                let e = rows(self.edges@)[x][i];
                assert((self.edges@[x])@.contains(e));
                assert(m.callees[x].contains(e));
            }
        }
        let callers = transpose(&self.edges);
        proof {
            assert forall|a: usize, b: usize| #[trigger] adj_edge(rows(callers@), a, b) <==> m.edge(
                a,
                b,
            ) by {
                if adj_edge(rows(callers@), a, b) {
                    assert((self.edges@[a as int])@.contains(b));
                    assert(m.callees[a as int].contains(b));
                }
                if m.edge(a, b) {
                    assert((self.edges@[a as int])@.contains(b));
                    assert((b as int) < n) by {
                        assert(m.callees[a as int].contains(b));
                    }
                }
            }
        }
        let marks = closure_marks(&callers, id);
        proof {
            lemma_adj_affected_equiv(rows(callers@), m, id);
            assert(marks_set(marks@) =~= m.affected(id));
        }
        let r = collect_marked(&marks);
        proof {
            assert(marks_set(marks@) == m.affected(id));
        }
        r
    }

    fn add(&mut self, func: String, dependencies: &Vec<String>) -> (r: Result<(), GraphError>) {
        let ghost m = old(self).model();
        let ghost deps = dependencies.deep_view();
        let ghost fname = func@;
        // the exec length pins the table size below usize::MAX for the
        // fresh-function lemma
        let _table_len = self.table.len();
        match self.update(func, dependencies) {
            Ok(affected) => {
                proof {
                    // as promised, a fresh function affects nothing
                    crate::graph_model::lemma_updated_fresh_affected(m, fname, deps);
                    assert(affected.deep_view() == Seq::<Seq<char>>::empty());
                }
                Ok(())
            },
            Err(e) => Err(e),
        }
    }

    fn contains(&self, queries: &Vec<String>) -> (r: bool) {
        let ghost m = self.model();
        // the exec length pins the table size below usize::MAX for the
        // live-name lemma
        let _table_len = self.table.len();
        let list = self.fns();
        let r = contains_all(queries, &list);
        proof {
            assert forall|i: int|
                0 <= i < queries@.len() implies (list.deep_view().contains(
                #[trigger] queries.deep_view()[i],
            ) <==> m.contains_name(queries.deep_view()[i])) by {
                crate::graph_model::lemma_live_names_contains(m, queries.deep_view()[i]);
            }
        }
        r
    }
}

/// The graph stored in the callee-to-caller orientation: `edges[v]` lists
/// the functions that invoke slot `v`.
pub struct CalleeToCallerGraph {
    table: NameTable,
    edges: Vec<Vec<usize>>,
}

impl CalleeToCallerGraph {
    /// An empty graph.
    pub fn new() -> (g: CalleeToCallerGraph)
        ensures
            g.wf(),
            g.model() == (GraphModel {
                names: Seq::<Seq<char>>::empty(),
                live: Seq::<bool>::empty(),
                callees: Seq::<Set<usize>>::empty(),
            }),
    {
        let g = CalleeToCallerGraph { table: NameTable::new(), edges: Vec::new() };
        proof {
            assert(g.model().callees =~= Seq::<Set<usize>>::empty());
            assert(g.model() =~~= (GraphModel {
                names: Seq::<Seq<char>>::empty(),
                live: Seq::<bool>::empty(),
                callees: Seq::<Set<usize>>::empty(),
            }));
        }
        g
    }
}

impl CallGraph for CalleeToCallerGraph {
    closed spec fn model(&self) -> GraphModel {
        let n = self.table.live_view().len();
        GraphModel {
            names: self.table.names_view(),
            live: self.table.live_view(),
            callees: Seq::new(
                n,
                |u: int|
                    Set::new(
                        |x: usize| (x as int) < n && (self.edges@[x as int])@.contains(u as usize),
                    ),
            ),
        }
    }

    closed spec fn wf(&self) -> bool {
        &&& self.table.wf0()
        &&& self.edges@.len() == self.table.names_view().len()
        &&& adj_in_range(rows(self.edges@))
        &&& self.model().wf()
    }

    fn update(&mut self, func: String, dependencies: &Vec<String>) -> (r: Result<
        Vec<String>,
        GraphError,
    >) {
        let ghost m = old(self).model();
        let ghost deps = dependencies.deep_view();
        let n = self.table.len();
        // resolve the dependency slots; reject on the first unknown name
        let dep_vec: Vec<usize>;
        match resolve_deps(&self.table, dependencies, Ghost(m)) {
            None => {
                return Err(GraphError::DepNotInGraph);
            },
            Some(ids) => {
                dep_vec = ids;
            },
        }
        // find the slot of func, or allocate a fresh one
        let slot: usize;
        match self.table.find_slot(&func) {
            Some(p) => {
                proof {
                    lemma_index_of_unique(m, func@, p);
                }
                slot = p;
            },
            None => {
                proof {
                    if m.contains_name(func@) {
                        let w = choose|w: usize| m.is_live(w) && m.names[w as int] == func@;
                    }
                }
                slot = n;
                self.table.push(func);
                self.edges.push(Vec::new());
            },
        }
        let n2 = self.edges.len();
        let ghost m1 = m.updated(func@, deps);
        let ghost mid_rows = rows(self.edges@);
        let ghost old_rows = rows(old(self).edges@);
        proof {
            lemma_updated_wf(m, func@, deps);
            assert(m.updated_slot(func@) == slot);
            assert((slot as int) < n2);
            assert(n2 == m1.len());
            assert(self.table.names_view() == m1.names);
            assert(self.table.live_view() == m1.live);
            assert(forall|y: int| 0 <= y < n ==> #[trigger] mid_rows[y] == old_rows[y]);
            assert forall|y: int, i: int|
                0 <= y < n2 && 0 <= i < mid_rows[y].len() implies (#[trigger] mid_rows[y][i] as int)
                < n2 by {
                if y < n {
                    assert(old_rows[y][i] == mid_rows[y][i]);
                }
            }
        }
        // retract the old outgoing edges of func: drop it from every callers list
        let mut x: usize = 0;
        while x < n2
            invariant
                self.table.wf0(),
                self.table.names_view() == m1.names,
                self.table.live_view() == m1.live,
                x <= n2,
                self.edges@.len() == n2,
                n2 == m1.len(),
                forall|y: int| x <= y < n2 ==> (#[trigger] self.edges@[y])@ == mid_rows[y],
                forall|y: int, c: usize|
                    0 <= y < x ==> ((#[trigger] (self.edges@[y])@.contains(c)) <==> mid_rows[
                        y
                    ].contains(c) && c != slot),
            decreases n2 - x,
        {
            let filtered = remove_all(&self.edges[x], slot);
            self.edges.set(x, filtered);
            x += 1;
        }
        // record the new dependencies: func becomes a caller of each of them
        let mut j: usize = 0;
        while j < dep_vec.len()
            invariant
                self.table.wf0(),
                self.table.names_view() == m1.names,
                self.table.live_view() == m1.live,
                j <= dep_vec@.len(),
                self.edges@.len() == n2,
                n2 == m1.len(),
                n == m.len(),
                n <= n2,
                (slot as int) < n2,
                forall|p: usize| #[trigger] dep_vec@.contains(p) <==> m.dep_ids(deps).contains(p),
                forall|p: usize| #[trigger] dep_vec@.contains(p) ==> m.is_live(p),
                forall|y: int, c: usize|
                    0 <= y < n2 ==> ((#[trigger] (self.edges@[y])@.contains(c)) <==> ((mid_rows[
                        y
                    ].contains(c) && c != slot) || (c == slot && dep_vec@.take(j as int).contains(
                        y as usize,
                    )))),
            decreases dep_vec@.len() - j,
        {
            let p = dep_vec[j];
            proof {
                assert(dep_vec@.contains(p));
                assert(m.is_live(p));
                assert((p as int) < n2);
            }
            let ghost before = self.edges@;
            self.edges[p].push(slot);
            proof {
                assert((self.edges@[p as int])@ == (before[p as int])@.push(slot));
                lemma_push_contains((before[p as int])@, slot);
                assert(dep_vec@.take(j + 1).drop_last() == dep_vec@.take(j as int));
                assert(dep_vec@.take(j + 1)[j as int] == p);
                assert forall|y: int, c: usize|
                    0 <= y < n2 implies ((#[trigger] (self.edges@[y])@.contains(c)) <==> ((
                mid_rows[y].contains(c) && c != slot) || (c == slot && dep_vec@.take(
                    j + 1,
                ).contains(y as usize)))) by {
                    if dep_vec@.take(j + 1).contains(y as usize) {
                        if !dep_vec@.take(j as int).contains(y as usize) {
                            let q = choose|q: int|
                                0 <= q < j + 1 && #[trigger] dep_vec@.take(j + 1)[q] == y as usize;
                            assert(q == j);
                            assert(y == p as int);
                        }
                    } else {
                        if dep_vec@.take(j as int).contains(y as usize) {
                            let q = choose|q: int|
                                0 <= q < j && #[trigger] dep_vec@.take(j as int)[q] == y as usize;
                            assert(dep_vec@.take(j + 1)[q] == y as usize);
                        }
                    }
                }
            }
            j += 1;
        }
        proof {
            assert(dep_vec@.take(dep_vec@.len() as int) == dep_vec@);
            // the rebuilt callers lists encode exactly the updated model
            assert forall|y: int, i: int|
                0 <= y < n2 && 0 <= i < rows(self.edges@)[y].len() implies (#[trigger] rows(
                self.edges@,
            )[y][i] as int) < n2 by {
                let c = rows(self.edges@)[y][i];
                assert((self.edges@[y])@.contains(c));
                if c != slot {
                    assert(mid_rows[y].contains(c));
                    let q = choose|q: int|
                        0 <= q < mid_rows[y].len() && #[trigger] mid_rows[y][q] == c;
                }
            }
            assert(self.model() =~~= m1) by {
                assert forall|u: int|
                    0 <= u < n2 implies self.model().callees[u] =~= m1.callees[u] by {
                    let uu = u as usize;
                    assert forall|c: usize| #[trigger] self.model().callees[u].contains(c) implies
                        m1.callees[u].contains(c) by {
                        assert((self.edges@[c as int])@.contains(uu));
                        if uu == slot {
                            assert(dep_vec@.contains(c));
                            assert(m.dep_ids(deps).contains(c));
                        } else {
                            assert(mid_rows[c as int].contains(uu));
                            assert(old_rows[c as int].contains(uu));
                            assert(m.callees[u].contains(c));
                        }
                    }
                    assert forall|c: usize| #[trigger] m1.callees[u].contains(c) implies
                        self.model().callees[u].contains(c) by {
                        if uu == slot {
                            assert(m.dep_ids(deps).contains(c));
                            assert(dep_vec@.contains(c));
                            assert(m.is_live(c));
                            assert((self.edges@[c as int])@.contains(slot));
                        } else {
                            assert(m.callees[u].contains(c));
                            assert((c as int) < m.len());
                            assert(old_rows[c as int].contains(uu));
                            assert(mid_rows[c as int].contains(uu));
                            assert((self.edges@[c as int])@.contains(uu));
                        }
                    }
                }
            }
        }
        // report everything affected by the new definition
        let aff = self.fns_affected_by(slot);
        proof {
            lemma_ids_up_to_sorted(self.model().affected(slot), self.model().len() as int);
        }
        let out = names_of(&self.table.names, &aff);
        proof {
            assert(out.deep_view() =~= self.model().affected_names(slot));
        }
        Ok(out)
    }

    fn delete(&mut self, func: &String) -> (r: Result<Vec<String>, GraphError>) {
        let ghost m = old(self).model();
        let n = self.table.len();
        let v: usize;
        match self.table.find_slot(func) {
            None => {
                proof {
                    if m.contains_name(func@) {
                        let w = choose|w: usize| m.is_live(w) && m.names[w as int] == func@;
                    }
                }
                return Err(GraphError::FnNotInGraph);
            },
            Some(p) => {
                proof {
                    lemma_index_of_unique(m, func@, p);
                }
                v = p;
            },
        }
        let aff = self.fns_affected_by(v);
        proof {
            lemma_ids_up_to_sorted(m.affected(v), n as int);
            lemma_ids_up_to_membership(m.affected(v), n as int);
        }
        let out = names_of(&self.table.names, &aff);
        proof {
            assert(out.deep_view() =~= m.affected_names(v));
        }
        let ghost old_rows = rows(old(self).edges@);
        // build the kill marks: the function itself and everything affected
        let mut killed: Vec<bool> = Vec::new();
        while killed.len() < n
            invariant
                killed@.len() <= n,
                forall|i: int| 0 <= i < killed@.len() ==> !killed@[i],
            decreases n - killed@.len(),
        {
            killed.push(false);
        }
        killed.set(v, true);
        let mut j: usize = 0;
        while j < aff.len()
            invariant
                killed@.len() == n,
                j <= aff@.len(),
                (v as int) < n,
                aff@ == ids_up_to(m.affected(v), n as int),
                forall|i: int| 0 <= i < aff@.len() ==> (#[trigger] aff@[i] as int) < n,
                forall|i: int|
                    0 <= i < n ==> (#[trigger] killed@[i] <==> (i == v as int || aff@.take(
                        j as int,
                    ).contains(i as usize))),
            decreases aff@.len() - j,
        {
            let u = aff[j];
            killed.set(u, true);
            proof {
                assert(aff@.take(j + 1).drop_last() == aff@.take(j as int));
                assert(aff@.take(j + 1)[j as int] == u);
                assert forall|i: int|
                    0 <= i < n implies (#[trigger] killed@[i] <==> (i == v as int || aff@.take(
                        j + 1,
                    ).contains(i as usize))) by {
                    if aff@.take(j + 1).contains(i as usize) {
                        if !aff@.take(j as int).contains(i as usize) {
                            let q = choose|q: int|
                                0 <= q < j + 1 && #[trigger] aff@.take(j + 1)[q] == i as usize;
                            assert(q == j);
                        }
                    } else {
                        if aff@.take(j as int).contains(i as usize) {
                            let q = choose|q: int|
                                0 <= q < j && #[trigger] aff@.take(j as int)[q] == i as usize;
                            assert(aff@.take(j + 1)[q] == i as usize);
                        }
                        assert(i != u as int);
                    }
                }
            }
            j += 1;
        }
        proof {
            assert(aff@.take(aff@.len() as int) == aff@);
            crate::graph_model::lemma_affected_in_range(m, v);
            assert forall|i: int|
                0 <= i < n implies (#[trigger] killed@[i] <==> m.kill_set(v).contains(
                i as usize,
            )) by {}
        }
        // tombstone the killed slots and scrub them from every callers list
        let mut x: usize = 0;
        while x < n
            invariant
                self.table.wf0(),
                self.table.names_view() == m.names,
                x <= n,
                n == m.len(),
                (v as int) < n,
                killed@.len() == n,
                self.edges@.len() == n,
                adj_in_range(old_rows),
                old_rows.len() == n,
                forall|i: int| 0 <= i < n ==> (#[trigger] killed@[i] <==> m.kill_set(v).contains(
                    i as usize,
                )),
                forall|i: int|
                    0 <= i < n ==> (#[trigger] self.table.live_view()[i] <==> (m.live[i] && !(i < x
                        && killed@[i]))),
                forall|y: int| x <= y < n ==> (#[trigger] self.edges@[y])@ == old_rows[y],
                forall|y: int|
                    0 <= y < x && killed@[y] ==> (#[trigger] self.edges@[y])@.len() == 0,
                forall|y: int, c: usize|
                    0 <= y < x && !killed@[y] ==> ((#[trigger] (self.edges@[y])@.contains(c))
                        <==> (old_rows[y].contains(c) && !((c as int) < n && killed@[c as int]))),
            decreases n - x,
        {
            if killed[x] {
                self.table.kill(x);
                self.edges.set(x, Vec::new());
            } else {
                proof {
                    assert((self.edges@[x as int])@ == old_rows[x as int]);
                    assert forall|q: int|
                        0 <= q < (self.edges@[x as int])@.len() implies (#[trigger] (self.edges@[x
                        as int])@[q] as int) < n by {
                        assert(old_rows[x as int][q] == (self.edges@[x as int])@[q]);
                    }
                }
                let filtered = remove_marked(&self.edges[x], &killed);
                self.edges.set(x, filtered);
                proof {
                    assert forall|c: usize|
                        #[trigger] (self.edges@[x as int])@.contains(c) implies (old_rows[x
                        as int].contains(c) && !((c as int) < n && killed@[c as int])) by {
                        assert(old_rows[x as int].contains(c));
                        let q = choose|q: int|
                            0 <= q < old_rows[x as int].len() && #[trigger] old_rows[x as int][q]
                                == c;
                    }
                }
            }
            x += 1;
        }
        proof {
            lemma_deleted_wf(m, v);
            let m1 = m.deleted_at(v);
            let kills = m.kill_set(v);
            assert forall|y: int, q: int|
                0 <= y < rows(self.edges@).len() && 0 <= q < rows(self.edges@)[y].len() implies (
            #[trigger] rows(self.edges@)[y][q] as int) < rows(self.edges@).len() by {
                let c = rows(self.edges@)[y][q];
                assert((self.edges@[y])@.contains(c));
                assert(!killed@[y]);
                assert(old_rows[y].contains(c));
                let qq = choose|qq: int|
                    0 <= qq < old_rows[y].len() && #[trigger] old_rows[y][qq] == c;
            }
            assert(self.model() =~~= m1) by {
                assert(self.table.live_view() =~= m1.live);
                assert forall|u: int|
                    0 <= u < n implies self.model().callees[u] =~= m1.callees[u] by {
                    let uu = u as usize;
                    assert forall|c: usize| #[trigger] self.model().callees[u].contains(c) implies
                        m1.callees[u].contains(c) by {
                        assert((self.edges@[c as int])@.contains(uu));
                        assert(!killed@[c as int] && !killed@[u]);
                        assert(old_rows[c as int].contains(uu));
                        assert(m.callees[u].contains(c));
                    }
                    assert forall|c: usize| #[trigger] m1.callees[u].contains(c) implies
                        self.model().callees[u].contains(c) by {
                        assert(!kills.contains(uu));
                        assert(m.callees[u].contains(c));
                        assert((c as int) < n);
                        assert(old_rows[c as int].contains(uu));
                        assert(m.edge(uu, c));
                        if kills.contains(c) {
                            lemma_kill_closed(m, v, uu, c);
                        }
                        assert(!killed@[c as int]);
                        assert((self.edges@[c as int])@.contains(uu));
                    }
                }
            }
        }
        Ok(out)
    }

    fn fns(&self) -> (r: Vec<String>) {
        // the exec length pins the table size below usize::MAX for the
        // listing lemma
        let _table_len = self.table.len();
        let r = self.table.live_names();
        proof {
            let m = self.model();
            assert(marks_set(self.table.live_view()) =~= Set::new(|u: usize| m.is_live(u)));
            lemma_ids_up_to_sorted(Set::new(|u: usize| m.is_live(u)), m.len() as int);
            assert(r.deep_view() =~= m.live_names());
        }
        r
    }

    fn fns_directly_affected_by(&self, id: usize) -> (r: Vec<usize>) {
        let ghost m = self.model();
        let n = self.edges.len();
        if id >= n {
            proof {
                assert forall|u: usize| !(#[trigger] m.callers(id).contains(u)) by {
                    if m.edge(u, id) {
                        assert(m.callees[u as int].contains(id));
                    }
                }
                lemma_ids_up_to_empty(m.callers(id), m.len() as int);
            }
            let r: Vec<usize> = Vec::new();
            proof {
                assert(r@ =~= ids_up_to(m.callers(id), m.len() as int));
            }
            return r;
        }
        let mut r: Vec<usize> = Vec::new();
        let mut u: usize = 0;
        while u < n
            invariant
                self.wf(),
                m == self.model(),
                n == m.len(),
                (id as int) < n,
                u <= n,
                r@ == ids_up_to(m.callers(id), u as int),
            decreases n - u,
        {
            if vec_contains(&self.edges[id], u) {
                proof {
                    assert(m.callees[u as int].contains(id));
                    assert(m.callers(id).contains(u));
                }
                r.push(u);
            } else {
                proof {
                    assert(!m.callers(id).contains(u));
                }
            }
            u += 1;
        }
        r
    }

    fn fns_affected_by(&self, id: usize) -> (r: Vec<usize>) {
        let ghost m = self.model();
        let n = self.edges.len();
        if id >= n {
            proof {
                lemma_affected_out_of_range(m, id);
                lemma_ids_up_to_empty(m.affected(id), m.len() as int);
            }
            let r: Vec<usize> = Vec::new();
            proof {
                assert(r@ =~= m.affected_ids(id));
            }
            return r;
        }
        proof {
            assert forall|a: usize, b: usize| #[trigger] adj_edge(rows(self.edges@), a, b)
                <==> m.edge(a, b) by {
                if adj_edge(rows(self.edges@), a, b) {
                    assert((self.edges@[b as int])@.contains(a));
                    let q = choose|q: int|
                        0 <= q < (self.edges@[b as int])@.len() && #[trigger] (self.edges@[b
                            as int])@[q] == a;
                    assert(rows(self.edges@)[b as int][q] == a);
                    assert((a as int) < n);
                    assert(m.callees[a as int].contains(b));
                }
                if m.edge(a, b) {
                    assert(m.callees[a as int].contains(b));
                }
            }
        }
        let marks = closure_marks(&self.edges, id);
        proof {
            lemma_adj_affected_equiv(rows(self.edges@), m, id);
            assert(marks_set(marks@) =~= m.affected(id));
            assert(marks_set(marks@) == m.affected(id));
        }
        collect_marked(&marks)
    }

    fn add(&mut self, func: String, dependencies: &Vec<String>) -> (r: Result<(), GraphError>) {
        let ghost m = old(self).model();
        let ghost deps = dependencies.deep_view();
        let ghost fname = func@;
        // the exec length pins the table size below usize::MAX for the
        // fresh-function lemma
        let _table_len = self.table.len();
        match self.update(func, dependencies) {
            Ok(affected) => {
                proof {
                    // as promised, a fresh function affects nothing
                    crate::graph_model::lemma_updated_fresh_affected(m, fname, deps);
                    assert(affected.deep_view() == Seq::<Seq<char>>::empty());
                }
                Ok(())
            },
            Err(e) => Err(e),
        }
    }

    fn contains(&self, queries: &Vec<String>) -> (r: bool) {
        let ghost m = self.model();
        // the exec length pins the table size below usize::MAX for the
        // live-name lemma
        let _table_len = self.table.len();
        let list = self.fns();
        let r = contains_all(queries, &list);
        proof {
            assert forall|i: int|
                0 <= i < queries@.len() implies (list.deep_view().contains(
                #[trigger] queries.deep_view()[i],
            ) <==> m.contains_name(queries.deep_view()[i])) by {
                crate::graph_model::lemma_live_names_contains(m, queries.deep_view()[i]);
            }
        }
        r
    }
}

/// The bidirectional graph: both orientations, kept in lock-step as a
/// self-check — each operation is carried out on both representations,
/// which must agree. The agreement is proved rather than tested at run
/// time (see `lemma_bothway_symmetry`).
pub struct BothWayGraph {
    caller_callee: CallerToCalleeGraph,
    callee_caller: CalleeToCallerGraph,
}

impl BothWayGraph {
    /// An empty graph.
    pub fn new() -> (g: BothWayGraph)
        ensures
            g.wf(),
            g.model() == (GraphModel {
                names: Seq::<Seq<char>>::empty(),
                live: Seq::<bool>::empty(),
                callees: Seq::<Set<usize>>::empty(),
            }),
    {
        BothWayGraph { caller_callee: CallerToCalleeGraph::new(), callee_caller: CalleeToCallerGraph::new() }
    }

    /// The model kept by the caller-to-callee orientation.
    pub closed spec fn forward_model(&self) -> GraphModel {
        self.caller_callee.model()
    }

    /// The model kept by the callee-to-caller orientation.
    pub closed spec fn backward_model(&self) -> GraphModel {
        self.callee_caller.model()
    }
}

impl CallGraph for BothWayGraph {
    closed spec fn model(&self) -> GraphModel {
        self.caller_callee.model()
    }

    closed spec fn wf(&self) -> bool {
        &&& self.caller_callee.wf()
        &&& self.callee_caller.wf()
        &&& self.caller_callee.model() == self.callee_caller.model()
    }

    fn update(&mut self, func: String, dependencies: &Vec<String>) -> (r: Result<
        Vec<String>,
        GraphError,
    >) {
        let first = self.caller_callee.update(func.clone(), dependencies);
        let second = self.callee_caller.update(func, dependencies);
        match (first, second) {
            (Ok(a1), Ok(a2)) => {
                proof {
                    // the self-check: the two orientations agree
                    assert(a1.deep_view() == a2.deep_view());
                }
                Ok(a1)
            },
            (Err(e1), Err(e2)) => {
                proof {
                    assert(e1 == e2);
                }
                Err(e1)
            },
            // the remaining pairings cannot occur: both orientations decide
            // acceptance from one shared model
            (Ok(_), Err(e2)) => Err(e2),
            (Err(e1), Ok(_)) => Err(e1),
        }
    }

    fn delete(&mut self, func: &String) -> (r: Result<Vec<String>, GraphError>) {
        let first = self.caller_callee.delete(func);
        let second = self.callee_caller.delete(func);
        match (first, second) {
            (Ok(a1), Ok(a2)) => {
                proof {
                    assert(a1.deep_view() == a2.deep_view());
                }
                Ok(a1)
            },
            (Err(e1), Err(e2)) => {
                proof {
                    assert(e1 == e2);
                }
                Err(e1)
            },
            // the remaining pairings cannot occur: both orientations decide
            // acceptance from one shared model
            (Ok(_), Err(e2)) => Err(e2),
            (Err(e1), Ok(_)) => Err(e1),
        }
    }

    fn fns(&self) -> (r: Vec<String>) {
        self.caller_callee.fns()
    }

    fn fns_directly_affected_by(&self, id: usize) -> (r: Vec<usize>) {
        self.caller_callee.fns_directly_affected_by(id)
    }

    fn fns_affected_by(&self, id: usize) -> (r: Vec<usize>) {
        self.caller_callee.fns_affected_by(id)
    }

    fn add(&mut self, func: String, dependencies: &Vec<String>) -> (r: Result<(), GraphError>) {
        match self.update(func, dependencies) {
            Ok(_) => Ok(()),
            Err(e) => Err(e),
        }
    }

    fn contains(&self, queries: &Vec<String>) -> (r: bool) {
        self.caller_callee.contains(queries)
    }
}

/// The self-check invariant of the bidirectional graph, proved once and for
/// all: after any sequence of `update` and `delete` (each of which keeps
/// `wf`, by its contract), the two internal orientations report identical
/// affected sets — and identical affected name lists — for every function.
pub proof fn lemma_bothway_symmetry(g: BothWayGraph, id: usize)
    requires
        g.wf(),
    ensures
        g.forward_model().affected(id) == g.backward_model().affected(id),
        g.forward_model().affected_names(id) == g.backward_model().affected_names(id),
{
}

} // verus!

