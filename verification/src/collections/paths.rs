//! Paths, reachability and cycles in a directed graph given by the ordered
//! list of children of each node.
use vstd::prelude::*;

verus! {

/// There is an edge from `a` to `b`.
pub open spec fn has_edge(adj: Map<u64, Seq<u64>>, a: u64, b: u64) -> bool {
    adj.dom().contains(a) && adj[a].contains(b)
}

/// Step `i` of `p` follows an edge.
pub open spec fn step_ok(adj: Map<u64, Seq<u64>>, p: Seq<u64>, i: int) -> bool {
    has_edge(adj, p[i], p[i + 1])
}

/// `p` is a non-empty sequence of nodes of the graph, each joined to the
/// next by an edge.
pub open spec fn is_path(adj: Map<u64, Seq<u64>>, p: Seq<u64>) -> bool {
    &&& p.len() >= 1
    &&& forall|i: int| 0 <= i < p.len() ==> adj.dom().contains(#[trigger] p[i])
    &&& forall|i: int| 0 <= i < p.len() - 1 ==> #[trigger] step_ok(adj, p, i)
}

/// `p` is a path from `a` to `b`.
pub open spec fn path_from_to(adj: Map<u64, Seq<u64>>, p: Seq<u64>, a: u64, b: u64) -> bool {
    is_path(adj, p) && p[0] == a && p.last() == b
}

/// `b` can be reached from `a` by following zero or more edges.
pub open spec fn reaches(adj: Map<u64, Seq<u64>>, a: u64, b: u64) -> bool {
    exists|p: Seq<u64>| #[trigger] path_from_to(adj, p, a, b)
}

/// `b` can be reached from `a` by following one or more edges.
pub open spec fn reaches_plus(adj: Map<u64, Seq<u64>>, a: u64, b: u64) -> bool {
    exists|p: Seq<u64>| #[trigger] path_from_to(adj, p, a, b) && p.len() >= 2
}

/// `v` lies on a cycle.
pub open spec fn on_cycle(adj: Map<u64, Seq<u64>>, v: u64) -> bool {
    reaches_plus(adj, v, v)
}

/// No node lies on a cycle.
pub open spec fn acyclic(adj: Map<u64, Seq<u64>>) -> bool {
    forall|v: u64| !#[trigger] on_cycle(adj, v)
}

/// Some node that can be reached from `start` lies on a cycle.
pub open spec fn cycle_reachable(adj: Map<u64, Seq<u64>>, start: u64) -> bool {
    exists|v: u64| #[trigger] reaches(adj, start, v) && on_cycle(adj, v)
}

/// Every edge leads to a node of the graph.
pub open spec fn edges_closed(adj: Map<u64, Seq<u64>>) -> bool {
    forall|a: u64, b: u64| #[trigger] has_edge(adj, a, b) ==> adj.dom().contains(b)
}

/// Every node and every edge of `small` is in `big`.
pub open spec fn sub_adjacency(small: Map<u64, Seq<u64>>, big: Map<u64, Seq<u64>>) -> bool {
    &&& small.dom().subset_of(big.dom())
    &&& forall|a: u64, b: u64| #[trigger] has_edge(small, a, b) ==> has_edge(big, a, b)
}

/// The graph with `t` added to the children of `s`, unless it is one already.
pub open spec fn add_child(adj: Map<u64, Seq<u64>>, s: u64, t: u64) -> Map<u64, Seq<u64>> {
    adj.insert(s, if adj[s].contains(t) { adj[s] } else { adj[s].push(t) })
}

pub proof fn lemma_reaches_refl(adj: Map<u64, Seq<u64>>, a: u64)
    requires
        adj.dom().contains(a),
    ensures
        reaches(adj, a, a),
{
    let p = seq![a];
    assert(path_from_to(adj, p, a, a));
}

pub proof fn lemma_subrange_path(adj: Map<u64, Seq<u64>>, p: Seq<u64>, i: int, j: int)
    requires
        is_path(adj, p),
        0 <= i < j <= p.len(),
    ensures
        is_path(adj, p.subrange(i, j)),
{
    let q = p.subrange(i, j);
    assert forall|k: int| 0 <= k < q.len() - 1 implies #[trigger] step_ok(adj, q, k) by {
        assert(step_ok(adj, p, i + k));
    }
    assert forall|k: int| 0 <= k < q.len() implies adj.dom().contains(#[trigger] q[k]) by {
        assert(adj.dom().contains(p[i + k]));
    }
}

/// Joins `p` and `q`, where `q` starts where `p` ends.
pub proof fn lemma_join_paths(adj: Map<u64, Seq<u64>>, p: Seq<u64>, q: Seq<u64>)
    requires
        is_path(adj, p),
        is_path(adj, q),
        p.last() == q[0],
    ensures
        is_path(adj, p + q.drop_first()),
        (p + q.drop_first())[0] == p[0],
        (p + q.drop_first()).last() == q.last(),
        (p + q.drop_first()).len() == p.len() + q.len() - 1,
{
    let r = p + q.drop_first();
    assert forall|k: int| 0 <= k < r.len() implies adj.dom().contains(#[trigger] r[k]) by {
        if k < p.len() {
            assert(r[k] == p[k]);
        } else {
            assert(r[k] == q[k - p.len() + 1]);
        }
    }
    assert forall|k: int| 0 <= k < r.len() - 1 implies #[trigger] step_ok(adj, r, k) by {
        if k < p.len() - 1 {
            assert(step_ok(adj, p, k));
        } else {
            let m = k - p.len() + 1;
            assert(step_ok(adj, q, m));
            assert(r[k] == q[m]);
            assert(r[k + 1] == q[m + 1]);
        }
    }
}

/// An edge followed by a path.
pub proof fn lemma_edge_then_reaches(adj: Map<u64, Seq<u64>>, a: u64, b: u64, c: u64)
    requires
        has_edge(adj, a, b),
        reaches(adj, b, c),
    ensures
        reaches_plus(adj, a, c),
        reaches(adj, a, c),
{
    let q = choose|q: Seq<u64>| path_from_to(adj, q, b, c);
    let e = seq![a, b];
    assert(step_ok(adj, e, 0));
    assert(is_path(adj, e));
    lemma_join_paths(adj, e, q);
    assert(path_from_to(adj, e + q.drop_first(), a, c));
}

/// A path followed by an edge.
pub proof fn lemma_reaches_then_edge(adj: Map<u64, Seq<u64>>, a: u64, b: u64, c: u64)
    requires
        reaches(adj, a, b),
        has_edge(adj, b, c),
        adj.dom().contains(c),
    ensures
        reaches_plus(adj, a, c),
        reaches(adj, a, c),
{
    let p = choose|p: Seq<u64>| path_from_to(adj, p, a, b);
    let e = seq![b, c];
    assert(step_ok(adj, e, 0));
    assert(is_path(adj, e));
    lemma_join_paths(adj, p, e);
    assert(path_from_to(adj, p + e.drop_first(), a, c));
}

/// A set of nodes that holds `a` and is closed under edges holds every node
/// reachable from `a`.
pub proof fn lemma_closed_set_holds_reachable(adj: Map<u64, Seq<u64>>, s: Set<u64>, a: u64, b: u64)
    requires
        s.contains(a),
        forall|x: u64, y: u64| s.contains(x) && #[trigger] has_edge(adj, x, y) ==> s.contains(y),
        reaches(adj, a, b),
    ensures
        s.contains(b),
{
    let p = choose|p: Seq<u64>| path_from_to(adj, p, a, b);
    assert forall|k: int| 0 <= k < p.len() implies s.contains(#[trigger] p[k]) by {
        lemma_path_prefix_in_set(adj, s, p, k);
    }
    assert(s.contains(p[p.len() - 1]));
}

proof fn lemma_path_prefix_in_set(adj: Map<u64, Seq<u64>>, s: Set<u64>, p: Seq<u64>, k: int)
    requires
        is_path(adj, p),
        s.contains(p[0]),
        forall|x: u64, y: u64| s.contains(x) && #[trigger] has_edge(adj, x, y) ==> s.contains(y),
        0 <= k < p.len(),
    ensures
        s.contains(p[k]),
    decreases k,
{
    if k > 0 {
        lemma_path_prefix_in_set(adj, s, p, k - 1);
        assert(step_ok(adj, p, k - 1));
    }
}

/// Paths of a subgraph are paths of the whole graph.
pub proof fn lemma_sub_adjacency_path(small: Map<u64, Seq<u64>>, big: Map<u64, Seq<u64>>, p: Seq<u64>)
    requires
        sub_adjacency(small, big),
        is_path(small, p),
    ensures
        is_path(big, p),
{
    assert forall|k: int| 0 <= k < p.len() - 1 implies #[trigger] step_ok(big, p, k) by {
        assert(step_ok(small, p, k));
    }
    assert forall|k: int| 0 <= k < p.len() implies big.dom().contains(#[trigger] p[k]) by {
        assert(small.dom().contains(p[k]));
    }
}

/// A subgraph of an acyclic graph is acyclic.
pub proof fn lemma_sub_adjacency_acyclic(small: Map<u64, Seq<u64>>, big: Map<u64, Seq<u64>>)
    requires
        sub_adjacency(small, big),
        acyclic(big),
    ensures
        acyclic(small),
{
    assert forall|v: u64| !#[trigger] on_cycle(small, v) by {
        if on_cycle(small, v) {
            let p = choose|p: Seq<u64>| path_from_to(small, p, v, v) && p.len() >= 2;
            lemma_sub_adjacency_path(small, big, p);
            assert(path_from_to(big, p, v, v));
            assert(on_cycle(big, v));
        }
    }
}

/// Every node on a cycle lies on a cycle of its own.
pub proof fn lemma_rotate_cycle(adj: Map<u64, Seq<u64>>, p: Seq<u64>, v: u64, k: int)
    requires
        path_from_to(adj, p, v, v),
        p.len() >= 2,
        0 <= k < p.len(),
    ensures
        on_cycle(adj, p[k]),
{
    let n = p.len() as int;
    if k == 0 || k == n - 1 {
        assert(path_from_to(adj, p, p[k], p[k]));
    } else {
        lemma_subrange_path(adj, p, k, n);
        lemma_subrange_path(adj, p, 0, k + 1);
        let a = p.subrange(k, n);
        let b = p.subrange(0, k + 1);
        lemma_join_paths(adj, a, b);
        let r = a + b.drop_first();
        assert(path_from_to(adj, r, p[k], p[k]));
    }
}

/// A path of the grown graph that never leaves `s` along an edge, but
/// perhaps at its last node, is a path of the graph before it grew.
pub proof fn lemma_path_avoiding_source(adj: Map<u64, Seq<u64>>, s: u64, t: u64, p: Seq<u64>)
    requires
        adj.dom().contains(s),
        is_path(add_child(adj, s, t), p),
        forall|k: int| 0 <= k < p.len() - 1 ==> #[trigger] p[k] != s,
    ensures
        is_path(adj, p),
{
    let adj2 = add_child(adj, s, t);
    assert forall|k: int| 0 <= k < p.len() - 1 implies #[trigger] step_ok(adj, p, k) by {
        assert(step_ok(adj2, p, k));
        assert(p[k] != s);
    }
    assert forall|k: int| 0 <= k < p.len() implies adj.dom().contains(#[trigger] p[k]) by {
        assert(adj2.dom().contains(p[k]));
    }
}

/// In the grown graph, any path through `s` starts at a node that reaches `s`
/// in the graph before it grew.
pub proof fn lemma_prefix_to_source(adj: Map<u64, Seq<u64>>, s: u64, t: u64, p: Seq<u64>, j: int)
    requires
        adj.dom().contains(s),
        is_path(add_child(adj, s, t), p),
        0 <= j < p.len(),
        p[j] == s,
    ensures
        reaches(adj, p[0], s),
    decreases j,
{
    let adj2 = add_child(adj, s, t);
    if exists|k: int| 0 <= k < j && p[k] == s {
        let k = choose|k: int| 0 <= k < j && p[k] == s;
        lemma_prefix_to_source(adj, s, t, p, k);
    } else {
        lemma_subrange_path(adj2, p, 0, j + 1);
        let q = p.subrange(0, j + 1);
        assert forall|k: int| 0 <= k < q.len() - 1 implies #[trigger] q[k] != s by {
            assert(q[k] == p[k]);
        }
        lemma_path_avoiding_source(adj, s, t, q);
        assert(path_from_to(adj, q, p[0], s));
    }
}

/// The grown graph's adjacency includes the one it grew from.
pub proof fn lemma_add_child_sub(adj: Map<u64, Seq<u64>>, s: u64, t: u64)
    requires
        adj.dom().contains(s),
    ensures
        sub_adjacency(adj, add_child(adj, s, t)),
        has_edge(add_child(adj, s, t), s, t),
        add_child(adj, s, t).dom() == adj.dom(),
{
    let adj2 = add_child(adj, s, t);
    assert(adj2.dom() =~= adj.dom());
    assert forall|a: u64, b: u64| #[trigger] has_edge(adj, a, b) implies has_edge(adj2, a, b) by {
        if a == s && !adj[s].contains(t) {
            let i = choose|i: int| 0 <= i < adj[s].len() && adj[s][i] == b;
            assert(adj[s].push(t)[i] == b);
        }
    }
    if !adj[s].contains(t) {
        assert(adj[s].push(t)[adj[s].len() as int] == t);
    }
}

/// On an acyclic graph, adding the edge `s -> t` makes a cycle reachable
/// from `s` exactly when `t` already reaches `s`.
pub proof fn lemma_add_child_cycle_iff(adj: Map<u64, Seq<u64>>, s: u64, t: u64)
    requires
        acyclic(adj),
        adj.dom().contains(s),
        adj.dom().contains(t),
    ensures
        cycle_reachable(add_child(adj, s, t), s) <==> reaches(adj, t, s),
{
    let adj2 = add_child(adj, s, t);
    lemma_add_child_sub(adj, s, t);
    if reaches(adj, t, s) {
        let p = choose|p: Seq<u64>| path_from_to(adj, p, t, s);
        lemma_sub_adjacency_path(adj, adj2, p);
        assert(path_from_to(adj2, p, t, s));
        lemma_edge_then_reaches(adj2, s, t, s);
        lemma_reaches_refl(adj2, s);
        assert(reaches(adj2, s, s) && on_cycle(adj2, s));
    }
    if cycle_reachable(adj2, s) {
        let v = choose|v: u64| #[trigger] reaches(adj2, s, v) && on_cycle(adj2, v);
        lemma_on_cycle_in_grown(adj, s, t, v);
        // s lies on a cycle of the grown graph; follow it back.
        let p = choose|p: Seq<u64>| path_from_to(adj2, p, s, s) && p.len() >= 2;
        assert(step_ok(adj2, p, 0));
        lemma_subrange_path(adj2, p, 1, p.len() as int);
        let q = p.subrange(1, p.len() as int);
        lemma_prefix_to_source(adj, s, t, q, q.len() - 1);
        if p[1] != t {
            assert(adj2[s].contains(p[1]));
            assert(has_edge(adj, s, p[1]));
            lemma_edge_then_reaches(adj, s, p[1], s);
            assert(on_cycle(adj, s));
        }
    }
}

/// A cycle of the grown graph either is one of the graph it grew from or
/// goes through `s`.
pub proof fn lemma_on_cycle_in_grown(adj: Map<u64, Seq<u64>>, s: u64, t: u64, v: u64)
    requires
        adj.dom().contains(s),
        on_cycle(add_child(adj, s, t), v),
    ensures
        on_cycle(adj, v) || on_cycle(add_child(adj, s, t), s),
{
    let adj2 = add_child(adj, s, t);
    let p = choose|p: Seq<u64>| path_from_to(adj2, p, v, v) && p.len() >= 2;
    if exists|k: int| 0 <= k < p.len() - 1 && p[k] == s {
        let k = choose|k: int| 0 <= k < p.len() - 1 && p[k] == s;
        lemma_rotate_cycle(adj2, p, v, k);
    } else {
        assert forall|k: int| 0 <= k < p.len() - 1 implies #[trigger] p[k] != s by {}
        lemma_path_avoiding_source(adj, s, t, p);
        assert(path_from_to(adj, p, v, v));
    }
}

/// If adding `s -> t` to an acyclic graph makes no cycle reachable from `s`,
/// the grown graph is acyclic.
pub proof fn lemma_add_child_acyclic(adj: Map<u64, Seq<u64>>, s: u64, t: u64)
    requires
        acyclic(adj),
        adj.dom().contains(s),
        !cycle_reachable(add_child(adj, s, t), s),
    ensures
        acyclic(add_child(adj, s, t)),
{
    let adj2 = add_child(adj, s, t);
    lemma_add_child_sub(adj, s, t);
    assert forall|v: u64| !#[trigger] on_cycle(adj2, v) by {
        if on_cycle(adj2, v) {
            lemma_on_cycle_in_grown(adj, s, t, v);
            lemma_reaches_refl(adj2, s);
            assert(reaches(adj2, s, s));
        }
    }
}

/// A node without children reaches only itself, and adding one to an
/// acyclic graph keeps it acyclic.
pub proof fn lemma_add_leaf(adj: Map<u64, Seq<u64>>, leaf: u64)
    requires
        !adj.dom().contains(leaf),
    ensures
        forall|v: u64| #[trigger] reaches(adj.insert(leaf, Seq::empty()), leaf, v) ==> v == leaf,
        acyclic(adj) ==> acyclic(adj.insert(leaf, Seq::empty())),
{
    let adj1 = adj.insert(leaf, Seq::<u64>::empty());
    assert forall|v: u64| #[trigger] reaches(adj1, leaf, v) implies v == leaf by {
        let p = choose|p: Seq<u64>| path_from_to(adj1, p, leaf, v);
        if p.len() >= 2 {
            assert(step_ok(adj1, p, 0));
        }
    }
    if acyclic(adj) {
        assert forall|v: u64| !#[trigger] on_cycle(adj1, v) by {
            if on_cycle(adj1, v) {
                let p = choose|p: Seq<u64>| path_from_to(adj1, p, v, v) && p.len() >= 2;
                assert forall|k: int| 0 <= k < p.len() - 1 implies #[trigger] p[k] != leaf by {
                    assert(step_ok(adj1, p, k));
                }
                assert forall|k: int| 0 <= k < p.len() - 1 implies #[trigger] step_ok(adj, p, k) by {
                    assert(step_ok(adj1, p, k));
                }
                assert(p[p.len() - 1] == p[0]);
                assert(p[0] != leaf);
                assert forall|k: int| 0 <= k < p.len() implies adj.dom().contains(#[trigger] p[k]) by {
                    assert(adj1.dom().contains(p[k]));
                }
                assert(path_from_to(adj, p, v, v));
                assert(on_cycle(adj, v));
            }
        }
    }
}

/// Every path from `v` has fewer than `k` nodes.
pub open spec fn bounded(adj: Map<u64, Seq<u64>>, v: u64, k: nat) -> bool
    decreases k,
{
    k > 0 && forall|i: int| 0 <= i < adj[v].len() ==> bounded(adj, #[trigger] adj[v][i], (k - 1) as nat)
}

/// A node that is not bounded by `k` starts a path of `k + 1` nodes.
pub proof fn lemma_unbounded_path(adj: Map<u64, Seq<u64>>, v: u64, k: nat) -> (p: Seq<u64>)
    requires
        !bounded(adj, v, k),
        edges_closed(adj),
        adj.dom().contains(v),
    ensures
        is_path(adj, p),
        p[0] == v,
        p.len() == k + 1,
    decreases k,
{
    if k == 0 {
        seq![v]
    } else {
        let i = choose|i: int| 0 <= i < adj[v].len() && !bounded(adj, #[trigger] adj[v][i], (k - 1) as nat);
        let c = adj[v][i];
        assert(has_edge(adj, v, c));
        let q = lemma_unbounded_path(adj, c, (k - 1) as nat);
        let e = seq![v, c];
        assert(step_ok(adj, e, 0));
        lemma_join_paths(adj, e, q);
        e + q.drop_first()
    }
}

/// In a finite acyclic graph every path from a node has at most as many
/// nodes as the graph.
pub proof fn lemma_acyclic_bounded(adj: Map<u64, Seq<u64>>, v: u64)
    requires
        acyclic(adj),
        edges_closed(adj),
        adj.dom().finite(),
        adj.dom().contains(v),
    ensures
        bounded(adj, v, adj.dom().len()),
{
    let n = adj.dom().len();
    if !bounded(adj, v, n) {
        let p = lemma_unbounded_path(adj, v, n);
        if p.no_duplicates() {
            p.unique_seq_to_set();
            assert(p.to_set().subset_of(adj.dom()));
            vstd::set_lib::lemma_len_subset(p.to_set(), adj.dom());
        } else {
            let (i, j) = choose|i: int, j: int| 0 <= i < p.len() && 0 <= j < p.len() && i != j && p[i] == p[j];
            let (a, b) = if i < j { (i, j) } else { (j, i) };
            lemma_subrange_path(adj, p, a, b + 1);
            assert(path_from_to(adj, p.subrange(a, b + 1), p[a], p[a]));
            assert(on_cycle(adj, p[a]));
        }
    }
}

/// A node has no more children than the graph has nodes.
pub proof fn lemma_children_count(adj: Map<u64, Seq<u64>>, v: u64)
    requires
        edges_closed(adj),
        adj.dom().finite(),
        adj.dom().contains(v),
        adj[v].no_duplicates(),
    ensures
        adj[v].len() <= adj.dom().len(),
{
    adj[v].unique_seq_to_set();
    assert forall|c: u64| adj[v].to_set().contains(c) implies adj.dom().contains(c) by {
        assert(has_edge(adj, v, c));
    }
    vstd::set_lib::lemma_len_subset(adj[v].to_set(), adj.dom());
}

/// One step of a post-order walk: the last node of the stack moves to the
/// output and its children, in order, go on the stack.
pub open spec fn post_step(adj: Map<u64, Seq<u64>>, stack: Seq<u64>, out: Seq<u64>) -> (Seq<u64>, Seq<u64>) {
    (stack.drop_last() + adj[stack.last()], out.push(stack.last()))
}

/// The stack and output after `fuel` steps of a post-order walk, or after
/// the stack runs empty, whichever comes first.
pub open spec fn post_drain(adj: Map<u64, Seq<u64>>, stack: Seq<u64>, out: Seq<u64>, fuel: nat) -> (Seq<u64>, Seq<u64>)
    decreases fuel,
{
    if fuel == 0 {
        (stack, out)
    } else {
        let prev = post_drain(adj, stack, out, (fuel - 1) as nat);
        if prev.0.len() == 0 {
            prev
        } else {
            post_step(adj, prev.0, prev.1)
        }
    }
}

/// Once the stack runs empty, further steps change nothing.
proof fn lemma_post_drain_stays(adj: Map<u64, Seq<u64>>, stack: Seq<u64>, out: Seq<u64>, f1: nat, f2: nat)
    requires
        f1 <= f2,
        post_drain(adj, stack, out, f1).0.len() == 0,
    ensures
        post_drain(adj, stack, out, f2) == post_drain(adj, stack, out, f1),
    decreases f2 - f1,
{
    if f1 < f2 {
        lemma_post_drain_stays(adj, stack, out, f1, (f2 - 1) as nat);
    }
}

/// Draining the stack gives one result, whatever number of steps empties
/// it: a post-order walk's output is determined by where it started.
pub proof fn lemma_post_drain_unique(adj: Map<u64, Seq<u64>>, stack: Seq<u64>, out: Seq<u64>, f1: nat, f2: nat)
    requires
        post_drain(adj, stack, out, f1).0.len() == 0,
        post_drain(adj, stack, out, f2).0.len() == 0,
    ensures
        post_drain(adj, stack, out, f1) == post_drain(adj, stack, out, f2),
{
    if f1 <= f2 {
        lemma_post_drain_stays(adj, stack, out, f1, f2);
    } else {
        lemma_post_drain_stays(adj, stack, out, f2, f1);
    }
}

/// Every child of an expanded node is either expanded again later in `out`
/// or still waiting on `stack`.
pub open spec fn children_pending(adj: Map<u64, Seq<u64>>, stack: Seq<u64>, out: Seq<u64>) -> bool {
    forall|i: int, k: int|
        #![trigger adj[out[i]][k]]
        0 <= i < out.len() && 0 <= k < adj[out[i]].len() ==> (exists|j: int|
            i < j < out.len() && #[trigger] out[j] == adj[out[i]][k]) || stack.contains(adj[out[i]][k])
}

/// A post-order step keeps every expanded node's children pending: the
/// popped node moves to the end of the output and its children go on the
/// stack.
proof fn lemma_post_step_children_pending(adj: Map<u64, Seq<u64>>, stack: Seq<u64>, out: Seq<u64>)
    requires
        stack.len() > 0,
        children_pending(adj, stack, out),
    ensures
        children_pending(adj, post_step(adj, stack, out).0, post_step(adj, stack, out).1),
{
    let x = stack.last();
    let s2 = post_step(adj, stack, out).0;
    let o2 = post_step(adj, stack, out).1;
    assert(s2 == stack.drop_last() + adj[x]);
    assert(o2 == out.push(x));
    assert forall|i: int, k: int| 0 <= i < o2.len() && 0 <= k < adj[o2[i]].len() implies (exists|j: int|
        i < j < o2.len() && #[trigger] o2[j] == adj[o2[i]][k]) || s2.contains(#[trigger] adj[o2[i]][k]) by {
        let v = adj[o2[i]][k];
        if i == out.len() {
            assert(o2[i] == x);
            assert(s2[stack.len() - 1 + k] == v);
        } else {
            assert(o2[i] == out[i]);
            if exists|j: int| i < j < out.len() && #[trigger] out[j] == adj[out[i]][k] {
                let j = choose|j: int| i < j < out.len() && #[trigger] out[j] == adj[out[i]][k];
                assert(o2[j] == v);
            } else {
                assert(stack.contains(adj[out[i]][k]));
                let m = choose|m: int| 0 <= m < stack.len() && stack[m] == v;
                if m < stack.len() - 1 {
                    assert(s2[m] == v);
                } else {
                    assert(o2[out.len() as int] == v);
                }
            }
        }
    }
}

/// Any number of post-order steps keeps every expanded node's children
/// pending.
pub proof fn lemma_post_drain_children_pending(
    adj: Map<u64, Seq<u64>>,
    stack: Seq<u64>,
    out: Seq<u64>,
    fuel: nat,
)
    requires
        children_pending(adj, stack, out),
    ensures
        children_pending(adj, post_drain(adj, stack, out, fuel).0, post_drain(adj, stack, out, fuel).1),
    decreases fuel,
{
    if fuel > 0 {
        lemma_post_drain_children_pending(adj, stack, out, (fuel - 1) as nat);
        let prev = post_drain(adj, stack, out, (fuel - 1) as nat);
        if prev.0.len() > 0 {
            lemma_post_step_children_pending(adj, prev.0, prev.1);
        }
    }
}

/// In `y`, every node comes after each of its children: for each position
/// `p` and each child `v` of `y[p]`, `v` occurs among the nodes before `p`.
pub open spec fn children_come_first(adj: Map<u64, Seq<u64>>, y: Seq<u64>) -> bool {
    forall|p: int, k: int|
        #![trigger adj[y[p]][k]]
        0 <= p < y.len() && 0 <= k < adj[y[p]].len() ==> y.take(p).contains(adj[y[p]][k])
}

/// Post-order law: a post-order walk from `start` yields its output from
/// the last expanded node back to the first, and in that order every node
/// comes after each of its children: for each yielded node `u` and each
/// child `v` of `u`, `v` is yielded somewhere before `u`. (In a diamond
/// a -> b, a -> c, b -> d, c -> d the walk yields d, b, d, c, a.)
pub proof fn lemma_post_order_children_first(adj: Map<u64, Seq<u64>>, start: u64, fuel: nat)
    requires
        post_drain(adj, seq![start], Seq::<u64>::empty(), fuel).0.len() == 0,
    ensures
        children_come_first(adj, post_drain(adj, seq![start], Seq::<u64>::empty(), fuel).1.reverse()),
{
    let e = Seq::<u64>::empty();
    assert(children_pending(adj, seq![start], e));
    lemma_post_drain_children_pending(adj, seq![start], e, fuel);
    let d = post_drain(adj, seq![start], e, fuel);
    let out = d.1;
    let n = out.len() as int;
    let y = out.reverse();
    if n > 0 {
        assert(y.len() == n);
        assert forall|p: int, k: int|
            #![trigger adj[y[p]][k]]
            0 <= p < y.len() && 0 <= k < adj[y[p]].len() implies y.take(p).contains(adj[y[p]][k]) by {
            let i = n - 1 - p;
            assert(y[p] == out[i]);
            let v = adj[out[i]][k];
            assert(!d.0.contains(v));
            let j = choose|j: int| i < j < out.len() && #[trigger] out[j] == adj[out[i]][k];
            let q = n - 1 - j;
            assert(y[q] == out[j]);
            assert(y.take(p)[q] == v);
        }
    }
}

/// `b` to the power `e`.
pub open spec fn power(b: nat, e: nat) -> nat
    decreases e,
{
    if e == 0 {
        1
    } else {
        b * power(b, (e - 1) as nat)
    }
}

/// The sum of `b` to the power of each level.
pub open spec fn potential(levels: Seq<nat>, b: nat) -> nat
    decreases levels.len(),
{
    if levels.len() == 0 {
        0
    } else {
        potential(levels.drop_last(), b) + power(b, levels.last())
    }
}

pub proof fn lemma_potential_push(levels: Seq<nat>, b: nat, x: nat)
    ensures
        potential(levels.push(x), b) == potential(levels, b) + power(b, x),
{
    assert(levels.push(x).drop_last() =~= levels);
}

pub proof fn lemma_power_positive(b: nat, e: nat)
    requires
        b > 0,
    ensures
        power(b, e) > 0,
    decreases e,
{
    if e > 0 {
        lemma_power_positive(b, (e - 1) as nat);
        assert(b * power(b, (e - 1) as nat) > 0) by (nonlinear_arith)
            requires
                b > 0,
                power(b, (e - 1) as nat) > 0,
        ;
    }
}

} // verus!
