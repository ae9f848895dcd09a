//! Directed acyclic graph, where the children of each node are kept in an
//! order of their own.
//!
//! Nodes are stored in insertion order; a slot map hands out their ids. Each
//! node keeps an ordered list of outgoing edges, each with a value of its own
//! and a child. [`OrderedDag::set_edge`] refuses an edge that would make a
//! cycle, so a graph built through the checked operations stays acyclic.
use vstd::prelude::*;
use vstd::set_lib::{lemma_int_range, lemma_len_subset, set_int_range};
use super::paths::{
    lemma_acyclic_bounded, lemma_add_child_acyclic, lemma_add_child_cycle_iff, lemma_add_leaf,
    lemma_children_count, lemma_potential_push, lemma_power_positive, bounded, post_drain, post_step,
    potential, power, lemma_closed_set_holds_reachable,
    lemma_reaches_refl, lemma_reaches_then_edge,
    lemma_sub_adjacency_acyclic, acyclic, add_child, edges_closed, has_edge, reaches,
    };
use super::edge_order::{
    edge_before, edge_children, edges_sorted, lawful_order, lemma_edge_order, lemma_insert_multiset,
    lemma_lawful_calls, lemma_same_edges,
};
use super::slots::{
    odd_version, real_index, slot_contents, slots_contains_key, slots_get, slots_insert, slots_is_empty,
    slots_len, slots_new, slots_wf, NodeSlots,
};

verus! {

/// Identifier of a node in an [`OrderedDag`]: the index and version of the
/// slot map key it was stored under. Ids order by index, then version.
#[derive(Clone, Copy, PartialEq, Eq, Structural, PartialOrd, Ord, Hash, Debug)]
pub struct NodeId {
    idx: u32,
    version: u32,
}

impl NodeId {
    /// Every id carries the odd version of an occupied slot.
    #[verifier::type_invariant]
    spec fn id_inv(self) -> bool {
        self.version % 2 == 1
    }

    /// The id as the slot map's 64-bit key value.
    pub closed spec fn key(self) -> u64 {
        (self.version as int * 0x1_0000_0000 + self.idx as int) as u64
    }

    proof fn lemma_key(self)
        requires
            self.version % 2 == 1,
        ensures
            self.key() == self.version as int * 0x1_0000_0000 + self.idx as int,
            self.key() % 0x1_0000_0000 == self.idx,
            self.key() / 0x1_0000_0000 == self.version,
            odd_version(self.key()),
    {
        let v = self.version as int;
        let i = self.idx as int;
        assert(0 <= v * 0x1_0000_0000 + i <= 0xffff_ffff_ffff_ffff) by (nonlinear_arith)
            requires
                0 <= v < 0x1_0000_0000,
                0 <= i < 0x1_0000_0000,
        ;
        assert((v * 0x1_0000_0000 + i) / 0x1_0000_0000 == v) by (nonlinear_arith)
            requires
                0 <= v,
                0 <= i < 0x1_0000_0000,
        ;
        assert((v * 0x1_0000_0000 + i) % 0x1_0000_0000 == i) by (nonlinear_arith)
            requires
                0 <= v,
                0 <= i < 0x1_0000_0000,
        ;
    }

    pub(crate) fn to_key(&self) -> (k: u64)
        ensures
            k == self.key(),
            odd_version(k),
    {
        proof {
            use_type_invariant(self);
            self.lemma_key();
        }
        (self.version as u64) * 0x1_0000_0000u64 + (self.idx as u64)
    }

    fn from_key(k: u64) -> (id: NodeId)
        requires
            odd_version(k),
        ensures
            id.key() == k,
    {
        let id = NodeId { idx: (k % 0x1_0000_0000u64) as u32, version: (k / 0x1_0000_0000u64) as u32 };
        proof {
            id.lemma_key();
            assert(k == (k / 0x1_0000_0000) * 0x1_0000_0000 + k % 0x1_0000_0000) by (nonlinear_arith);
        }
        id
    }
}

/// The key of the null id, which no node ever has: the slot index
/// `u32::MAX` with version 1.
pub open spec fn null_node_key() -> u64 {
    0x1_ffff_ffff
}

impl Default for NodeId {
    /// The null id, which is no node's.
    fn default() -> (r: Self)
        ensures
            r@ == null_node_key(),
    {
        let r = NodeId { idx: 0xffff_ffff, version: 1 };
        proof {
            r.lemma_key();
        }
        r
    }
}

impl View for NodeId {
    type V = u64;

    open spec fn view(&self) -> u64 {
        self.key()
    }
}

/// An outgoing edge: its value and the child it leads to.
struct Edge<E> {
    value: E,
    child: NodeId,
}

/// A stored node: its id, its value and its ordered outgoing edges.
struct Node<N, E> {
    id: NodeId,
    value: N,
    edges: Vec<Edge<E>>,
}

/// A node as the contracts see it: its value and its outgoing edges, each
/// an edge value and the key of the child.
pub struct DagNode<N, E> {
    pub value: N,
    pub edges: Seq<(E, u64)>,
}

/// The children of a node, in edge order.
pub open spec fn children_of<N, E>(node: DagNode<N, E>) -> Seq<u64> {
    edge_children(node.edges)
}

/// The graph of a DAG's view: each node's key with its children.
pub open spec fn adjacency<N, E>(g: Map<u64, DagNode<N, E>>) -> Map<u64, Seq<u64>> {
    Map::new(|k: u64| g.dom().contains(k), |k: u64| children_of(g[k]))
}

/// The shape every graph built by this module keeps: finitely many nodes,
/// keys of occupied slots, edges that lead to nodes of the graph, and no
/// child twice under one node.
pub open spec fn dag_wf<N, E>(g: Map<u64, DagNode<N, E>>) -> bool {
    &&& g.dom().finite()
    &&& forall|k: u64| #[trigger] g.dom().contains(k) ==> odd_version(k) && real_index(k)
    &&& edges_closed(adjacency(g))
    &&& forall|k: u64| #[trigger] g.dom().contains(k) ==> children_of(g[k]).no_duplicates()
}

/// The edges of a node after `child` is given the edge value `value`: the
/// edge to `child` keeps its place if there is one, else a new edge goes last.
pub open spec fn set_edge_in<E>(edges: Seq<(E, u64)>, value: E, child: u64) -> Seq<(E, u64)> {
    let cs = edges.map_values(|e: (E, u64)| e.1);
    if cs.contains(child) {
        edges.update(cs.index_of(child), (value, child))
    } else {
        edges.push((value, child))
    }
}

/// The graph `g` with the edge from `source` to `target` set to `value`.
pub open spec fn with_edge<N, E>(g: Map<u64, DagNode<N, E>>, source: u64, target: u64, value: E) -> Map<u64, DagNode<N, E>> {
    g.insert(source, DagNode { value: g[source].value, edges: set_edge_in(g[source].edges, value, target) })
}

spec fn edge_view<E>(e: Edge<E>) -> (E, u64) {
    (e.value, e.child@)
}

spec fn edge_views<E>(s: Seq<Edge<E>>) -> Seq<(E, u64)> {
    s.map_values(|e: Edge<E>| edge_view(e))
}

spec fn node_view<N, E>(n: Node<N, E>) -> DagNode<N, E> {
    DagNode { value: n.value, edges: edge_views(n.edges@) }
}

/// Setting an edge adds its child to the source's children, if it was not
/// one already.
pub proof fn lemma_with_edge_adjacency<N, E>(g: Map<u64, DagNode<N, E>>, s: u64, t: u64, v: E)
    requires
        g.dom().contains(s),
    ensures
        adjacency(with_edge(g, s, t, v)) == add_child(adjacency(g), s, t),
        with_edge(g, s, t, v).dom() == g.dom(),
{
    let g2 = with_edge(g, s, t, v);
    let cs = children_of(g[s]);
    if cs.contains(t) {
        let i = cs.index_of(t);
        assert(children_of(g2[s]) =~= cs);
    } else {
        assert(children_of(g2[s]) =~= cs.push(t));
    }
    assert(g2.dom() =~= g.dom());
    assert(adjacency(g2) =~= add_child(adjacency(g), s, t));
}

/// The decimal digit `d`.
pub open spec fn digit_char(d: nat) -> char {
    (48 + d) as char
}

/// `n` in decimal digits, with no leading zero.
pub open spec fn decimal(n: nat) -> Seq<char>
    decreases n,
{
    if n < 10 {
        seq![digit_char(n)]
    } else {
        decimal(n / 10).push(digit_char(n % 10))
    }
}

/// The debug text of a node id, as a slot map key shows it: `NodeId(`, the
/// slot index in decimal, `v`, the version in decimal, `)`; the null key
/// (slot index `u32::MAX`) shows `NodeId(null)`. The version is the key's
/// high half made odd, as a key rebuilt from its 64-bit value has it.
pub open spec fn node_id_text(key: u64) -> Seq<char> {
    let idx = key % 0x1_0000_0000;
    let high = key / 0x1_0000_0000;
    let version: int = if high % 2 == 1 {
        high as int
    } else {
        high + 1
    };
    if idx == 0xffff_ffff {
        "NodeId(null)"@
    } else {
        "NodeId("@ + decimal(idx as nat) + "v"@ + decimal(version as nat) + ")"@
    }
}

/// The lines that list each child under a node with several children.
pub open spec fn child_lines(cs: Seq<u64>) -> Seq<char>
    decreases cs.len(),
{
    if cs.len() == 0 {
        Seq::empty()
    } else {
        child_lines(cs.drop_last()) + "  -> "@ + node_id_text(cs.last()) + "\n"@
    }
}

/// The text of one node: its id, then its child on the same line when it
/// has exactly one, or each child on a line of its own when it has more.
pub open spec fn node_text<N, E>(key: u64, node: DagNode<N, E>) -> Seq<char> {
    let cs = children_of(node);
    if cs.len() == 0 {
        node_id_text(key) + " ->\n"@
    } else if cs.len() == 1 {
        node_id_text(key) + " -> "@ + node_id_text(cs[0]) + "\n"@
    } else {
        node_id_text(key) + "\n"@ + child_lines(cs)
    }
}

/// The text of the nodes `ids` of `g`, in that order.
pub open spec fn graph_text<N, E>(g: Map<u64, DagNode<N, E>>, ids: Seq<u64>) -> Seq<char>
    decreases ids.len(),
{
    if ids.len() == 0 {
        Seq::empty()
    } else {
        graph_text(g, ids.drop_last()) + node_text(ids.last(), g[ids.last()])
    }
}

/// The debug text of a node id: slotmap's `Debug` of the `KeyData` that
/// `KeyData::from_ffi` rebuilds from the key (`null` for the null key,
/// else the slot index and version in decimal, joined by `v`), inside
/// `NodeId(..)`.
#[verifier::external_body]
pub(crate) fn debug_id(key: u64) -> (text: String)
    ensures
        text@ == node_id_text(key),
{
    format!("NodeId({:?})", slotmap::KeyData::from_ffi(key))
}

/// Whether edge `x` goes before edge `y`: by edge value, then by child.
fn edge_goes_before<E: Ord>(x: &Edge<E>, y: &Edge<E>) -> (r: bool)
    ensures
        lawful_order::<E>() ==> r == edge_before(edge_view(*x), edge_view(*y)),
{
    proof {
        use_type_invariant(&x.child);
        use_type_invariant(&y.child);
        x.child.lemma_key();
        y.child.lemma_key();
        if lawful_order::<E>() {
            lemma_lawful_calls::<E>();
        }
    }
    match x.value.cmp(&y.value) {
        core::cmp::Ordering::Less => true,
        core::cmp::Ordering::Greater => false,
        core::cmp::Ordering::Equal => {
            x.child.idx < y.child.idx || (x.child.idx == y.child.idx && x.child.version < y.child.version)
        },
    }
}

/// The edges in increasing order, by edge value and then by child, sorted
/// by insertion: each edge in turn goes in front of the first sorted edge
/// that it goes before.
fn sort_edges<E: Ord>(edges: Vec<Edge<E>>) -> (r: Vec<Edge<E>>)
    ensures
        edge_views(r@).to_multiset() == edge_views(edges@).to_multiset(),
        lawful_order::<E>() && edge_children(edge_views(edges@)).no_duplicates() ==> edges_sorted(
            edge_views(r@),
        ),
{
    let ghost lawful = lawful_order::<E>() && edge_children(edge_views(edges@)).no_duplicates();
    let ghost ov = edge_views(edges@);
    let mut rest = edges;
    let mut sorted: Vec<Edge<E>> = Vec::new();
    let ghost mut done: Seq<Edge<E>> = Seq::empty();
    proof {
        assert(rest@ + done =~= edges@);
        assert(edge_views(sorted@) =~= edge_views(done));
    }
    while rest.len() > 0
        invariant
            rest@ + done == edges@,
            ov == edge_views(edges@),
            edge_views(sorted@).to_multiset() == edge_views(done).to_multiset(),
            lawful ==> lawful_order::<E>(),
            lawful ==> edge_children(ov).no_duplicates(),
            lawful ==> edges_sorted(edge_views(sorted@)),
        decreases rest.len(),
    {
        let ghost before = rest@;
        let x = rest.pop().unwrap();
        let ghost sv = edge_views(sorted@);
        let ghost xv = edge_view(x);
        let ghost dv = edge_views(done);
        proof {
            assert(before == rest@.push(x));
            if lawful {
                broadcast use vstd::seq_lib::group_to_multiset_ensures;

                let r = rest@.len() as int;
                assert(edges@[r] == x);
                assert(ov[r] == xv);
                assert forall|q: int| 0 <= q < sv.len() implies #[trigger] sv[q].1 != xv.1 by {
                    assert(sv.contains(sv[q]));
                    assert(dv.to_multiset().count(sv[q]) > 0);
                    assert(dv.contains(sv[q]));
                    let m = choose|m: int| 0 <= m < dv.len() && dv[m] == sv[q];
                    assert(edges@[r + 1 + m] == done[m]);
                    assert(ov[r + 1 + m] == dv[m]);
                    assert(edge_children(ov)[r + 1 + m] != edge_children(ov)[r]);
                }
            }
        }
        let mut p: usize = 0;
        while p < sorted.len() && !edge_goes_before(&x, &sorted[p])
            invariant
                p <= sorted.len(),
                sv == edge_views(sorted@),
                xv == edge_view(x),
                lawful ==> lawful_order::<E>(),
                lawful ==> forall|q: int| 0 <= q < sv.len() ==> #[trigger] sv[q].1 != xv.1,
                lawful ==> forall|q: int| 0 <= q < p ==> #[trigger] edge_before(sv[q], xv),
            decreases sorted.len() - p,
        {
            proof {
                if lawful {
                    lemma_edge_order(xv, sv[p as int], xv);
                }
            }
            p = p + 1;
        }
        sorted.insert(p, x);
        proof {
            let ns = edge_views(sorted@);
            assert(ns =~= sv.insert(p as int, xv));
            lemma_insert_multiset(sv, p as int, xv);
            assert(edge_views(seq![x] + done) =~= dv.insert(0, xv));
            lemma_insert_multiset(dv, 0, xv);
            done = seq![x] + done;
            assert(rest@ + done =~= edges@);
            if lawful {
                assert forall|i: int, j: int| 0 <= i < j < ns.len() implies #[trigger] edge_before(ns[i], ns[j]) by {
                    if j < p {
                    } else if j == p {
                    } else if i < p {
                        assert(ns[i] == sv[i]);
                        assert(ns[j] == sv[j - 1]);
                    } else if i == p {
                        if j - 1 > p {
                            lemma_edge_order(xv, sv[p as int], sv[j - 1]);
                        }
                    } else {
                        assert(ns[i] == sv[i - 1]);
                        assert(ns[j] == sv[j - 1]);
                    }
                }
            }
        }
    }
    proof {
        assert(done =~= edges@);
    }
    sorted
}

/// Error of an edge update.
#[derive(Debug, PartialEq, Eq, Structural)]
pub enum OrderedGraphError {
    /// The graph has been changed in a way that introduced a cycle.
    Cycle,
    /// Attempt to create edge between two nodes, at least one didn't exist.
    NodeDoesNotExist,
}

impl OrderedGraphError {
    /// A short description of the error.
    pub fn description(&self) -> (r: &'static str)
        ensures
            *self == OrderedGraphError::Cycle ==> r@ == "graph detected cycle between nodes"@,
            *self == OrderedGraphError::NodeDoesNotExist ==> r@ == "attempt to create edge between nodes that don't exist"@,
    {
        match self {
            OrderedGraphError::Cycle => "graph detected cycle between nodes",
            OrderedGraphError::NodeDoesNotExist => "attempt to create edge between nodes that don't exist",
        }
    }

    /// The error message that the error displays as.
    pub fn to_string(&self) -> (r: String)
        ensures
            *self == OrderedGraphError::Cycle ==> r@ == "Ordered graph cycle error"@,
            *self == OrderedGraphError::NodeDoesNotExist ==> r@ == "Ordered graph node does not exist error"@,
    {
        match self {
            OrderedGraphError::Cycle => "Ordered graph cycle error".to_owned(),
            OrderedGraphError::NodeDoesNotExist => "Ordered graph node does not exist error".to_owned(),
        }
    }
}

/// The colour of a node in the depth-first search of
/// [`OrderedDag::check_cycle`]: not entered, entered, or finished.
#[derive(Debug, Clone, Copy, PartialEq, Eq, Structural)]
pub enum VisitColor {
    White,
    Grey,
    Black,
}

/// The colour of `v` in the search state `s`; nodes not in it are white.
pub open spec fn color_in(s: Map<u64, VisitColor>, v: u64) -> VisitColor {
    if s.dom().contains(v) {
        s[v]
    } else {
        VisitColor::White
    }
}

/// The depth-first search entered at `u`, which is grey in `s`, looking
/// `fuel` levels down at most: what it returns, and the colours after it.
pub open spec fn dfs_visit(adj: Map<u64, Seq<u64>>, u: u64, s: Map<u64, VisitColor>, fuel: nat) -> (
    Option<u64>,
    Map<u64, VisitColor>,
)
    decreases fuel, 0nat,
{
    if fuel == 0 {
        (None, s)
    } else {
        dfs_children(adj, u, 0, s, (fuel - 1) as nat)
    }
}

/// The search at `u` from its child at position `i` on. A grey child ends
/// it with `u` (a cycle through `u`); a black child ends it with nothing,
/// leaving `u` unfinished; a white child is entered, and a result of its
/// search ends this one. When the children run out, `u` is finished.
pub open spec fn dfs_children(adj: Map<u64, Seq<u64>>, u: u64, i: nat, s: Map<u64, VisitColor>, fuel: nat) -> (
    Option<u64>,
    Map<u64, VisitColor>,
)
    decreases fuel, (adj[u].len() - i) as nat,
{
    if i >= adj[u].len() {
        (None, s.insert(u, VisitColor::Black))
    } else {
        let v = adj[u][i as int];
        match color_in(s, v) {
            VisitColor::Grey => (Some(u), s),
            VisitColor::Black => (None, s),
            VisitColor::White => {
                let r = dfs_visit(adj, v, s.insert(v, VisitColor::Grey), fuel);
                if r.0 is Some {
                    r
                } else {
                    dfs_children(adj, u, i + 1, r.1, fuel)
                }
            },
        }
    }
}

/// What the depth-first search from `start` returns, `start` grey and all
/// else white at first.
pub open spec fn cycle_search(adj: Map<u64, Seq<u64>>, start: u64, fuel: nat) -> Option<u64> {
    dfs_visit(adj, start, Map::empty().insert(start, VisitColor::Grey), fuel).0
}

/// The number of white entries.
spec fn white_count(colors: Seq<VisitColor>) -> nat
    decreases colors.len(),
{
    if colors.len() == 0 {
        0
    } else {
        white_count(colors.drop_last()) + if colors.last() == VisitColor::White {
            1nat
        } else {
            0nat
        }
    }
}

/// Colouring a white entry grey leaves one white entry fewer.
proof fn lemma_white_count_grey(colors: Seq<VisitColor>, i: int)
    requires
        0 <= i < colors.len(),
        colors[i] == VisitColor::White,
    ensures
        white_count(colors.update(i, VisitColor::Grey)) + 1 == white_count(colors),
    decreases colors.len(),
{
    let c2 = colors.update(i, VisitColor::Grey);
    if i < colors.len() - 1 {
        assert(c2.drop_last() =~= colors.drop_last().update(i, VisitColor::Grey));
        lemma_white_count_grey(colors.drop_last(), i);
    } else {
        assert(c2.drop_last() =~= colors.drop_last());
    }
}

/// No entry turning white, there are no more white entries than before.
proof fn lemma_white_count_mono(a: Seq<VisitColor>, b: Seq<VisitColor>)
    requires
        a.len() == b.len(),
        forall|i: int| 0 <= i < a.len() && a[i] != VisitColor::White ==> b[i] != VisitColor::White,
    ensures
        white_count(b) <= white_count(a),
    decreases a.len(),
{
    if a.len() > 0 {
        lemma_white_count_mono(a.drop_last(), b.drop_last());
        assert(a.last() == a[a.len() - 1]);
    }
}

/// With every entry white, all entries count.
proof fn lemma_white_count_all(colors: Seq<VisitColor>)
    requires
        forall|i: int| 0 <= i < colors.len() ==> colors[i] == VisitColor::White,
    ensures
        white_count(colors) == colors.len(),
    decreases colors.len(),
{
    if colors.len() > 0 {
        lemma_white_count_all(colors.drop_last());
    }
}

/// Directed acyclic graph, where node children are kept in order.
pub struct OrderedDag<N, E: Ord> {
    slots: NodeSlots,
    nodes: Vec<Node<N, E>>,
}

impl<N, E: Ord> View for OrderedDag<N, E> {
    type V = Map<u64, DagNode<N, E>>;

    closed spec fn view(&self) -> Map<u64, DagNode<N, E>> {
        Map::new(
            |k: u64| slot_contents(self.slots).dom().contains(k),
            |k: u64| node_view(self.nodes@[slot_contents(self.slots)[k] as int]),
        )
    }
}

impl<N, E: Ord + Default> Default for OrderedDag<N, E> {
    /// An empty graph.
    fn default() -> (r: Self)
        ensures
            r.wf(),
            r@ == Map::<u64, DagNode<N, E>>::empty(),
            r.ids() == Seq::<u64>::empty(),
    {
        OrderedDag::new()
    }
}

impl<N, E: Ord> OrderedDag<N, E> {
    spec fn key_map(&self) -> Map<u64, usize> {
        slot_contents(self.slots)
    }

    /// The node keys in insertion order.
    pub closed spec fn ids(&self) -> Seq<u64> {
        self.nodes@.map_values(|n: Node<N, E>| n.id@)
    }

    /// The graph's internal invariant.
    pub closed spec fn wf(&self) -> bool {
        let km = self.key_map();
        let n = self.nodes@.len();
        &&& slots_wf(km)
        &&& km.dom().len() == n
        &&& forall|i: int|
            0 <= i < n ==> km.dom().contains(#[trigger] self.nodes@[i].id@) && km[self.nodes@[i].id@] == i
        &&& forall|k: u64|
            km.dom().contains(k) ==> #[trigger] km[k] < n && self.nodes@[km[k] as int].id@ == k
        &&& forall|i: int, j: int|
            0 <= i < n && 0 <= j < self.nodes@[i].edges@.len() ==> km.dom().contains(
                #[trigger] self.nodes@[i].edges@[j].child@,
            )
        &&& forall|i: int, a: int, b: int|
            0 <= i < n && 0 <= a < b < self.nodes@[i].edges@.len() ==> #[trigger] self.nodes@[i].edges@[a].child@
                != #[trigger] self.nodes@[i].edges@[b].child@
    }

    /// The graph of the view: each node's key with its children.
    pub open spec fn adj(&self) -> Map<u64, Seq<u64>> {
        adjacency(self@)
    }

    /// No node lies on a cycle.
    pub open spec fn is_acyclic(&self) -> bool {
        acyclic(self.adj())
    }

    proof fn lemma_view_at(&self, i: int)
        requires
            self.wf(),
            0 <= i < self.nodes@.len(),
        ensures
            self@.dom().contains(self.nodes@[i].id@),
            self@[self.nodes@[i].id@] == node_view(self.nodes@[i]),
    {
    }

    /// What the invariant means for the view.
    pub proof fn lemma_wf(&self)
        requires
            self.wf(),
        ensures
            dag_wf(self@),
            self.ids().no_duplicates(),
            self.ids().to_set() == self@.dom(),
            self.ids().len() == self@.dom().len(),
    {
        let g = self@;
        let km = self.key_map();
        assert(g.dom() =~= km.dom());
        assert forall|k: u64| #[trigger] g.dom().contains(k) implies children_of(g[k]).no_duplicates() by {
            let i = km[k] as int;
            let cs = children_of(g[k]);
            assert forall|a: int, b: int| 0 <= a < cs.len() && 0 <= b < cs.len() && a != b implies cs[a] != cs[b] by {
                if a < b {
                    assert(self.nodes@[i].edges@[a].child@ != self.nodes@[i].edges@[b].child@);
                } else {
                    assert(self.nodes@[i].edges@[b].child@ != self.nodes@[i].edges@[a].child@);
                }
            }
        }
        assert forall|a: u64, b: u64| #[trigger] has_edge(adjacency(g), a, b) implies adjacency(g).dom().contains(b) by {
            let i = km[a] as int;
            let cs = children_of(g[a]);
            let j = choose|j: int| 0 <= j < cs.len() && cs[j] == b;
            assert(km.dom().contains(self.nodes@[i].edges@[j].child@));
        }
        let ids = self.ids();
        assert forall|a: int, b: int| 0 <= a < ids.len() && 0 <= b < ids.len() && a != b implies ids[a] != ids[b] by {
            assert(km[self.nodes@[a].id@] == a);
            assert(km[self.nodes@[b].id@] == b);
        }
        assert forall|k: u64| ids.to_set().contains(k) <==> g.dom().contains(k) by {
            if g.dom().contains(k) {
                let i = km[k] as int;
                assert(ids[i] == k);
            }
            if ids.to_set().contains(k) {
                let i = choose|i: int| 0 <= i < ids.len() && ids[i] == k;
                assert(self.nodes@[i].id@ == k);
            }
        }
        assert(ids.to_set() =~= g.dom());
        ids.unique_seq_to_set();
    }

    /// Creates an empty graph.
    pub fn new() -> (r: Self)
        ensures
            r.wf(),
            r@ == Map::<u64, DagNode<N, E>>::empty(),
            r.ids() == Seq::<u64>::empty(),
    {
        let r = OrderedDag { slots: slots_new(), nodes: Vec::new() };
        assert(r@ =~= Map::<u64, DagNode<N, E>>::empty());
        assert(r.ids() =~= Seq::<u64>::empty());
        r
    }

    /// Inserts a new node into the graph. The node is not connected to any
    /// other node.
    ///
    /// The slot map must have room for the node.
    pub fn insert(&mut self, node_value: N) -> (id: NodeId)
        requires
            old(self).wf(),
            old(self)@.dom().len() + 1 < u32::MAX,
        ensures
            final(self).wf(),
            !old(self)@.dom().contains(id@),
            final(self)@ == old(self)@.insert(id@, DagNode { value: node_value, edges: Seq::empty() }),
            final(self).ids() == old(self).ids().push(id@),
            id@ != null_node_key(),
            old(self).is_acyclic() ==> final(self).is_acyclic(),
    {
        proof {
            assert(self@.dom() =~= self.key_map().dom());
        }
        let n = self.nodes.len();
        let k = slots_insert(&mut self.slots, n);
        let id = NodeId::from_key(k);
        self.nodes.push(Node { id, value: node_value, edges: Vec::new() });
        proof {
            let km0 = slot_contents(old(self).slots);
            let km = self.key_map();
            assert(km.dom().len() == km0.dom().len() + 1);
            assert forall|i: int| 0 <= i < self.nodes@.len() implies km.dom().contains(#[trigger] self.nodes@[i].id@)
                && km[self.nodes@[i].id@] == i by {
                if i < n {
                    assert(old(self).nodes@[i] == self.nodes@[i]);
                }
            }
            assert forall|i: int, j: int|
                0 <= i < self.nodes@.len() && 0 <= j < self.nodes@[i].edges@.len() implies km.dom().contains(
                    #[trigger] self.nodes@[i].edges@[j].child@,
                ) by {
                assert(old(self).nodes@[i] == self.nodes@[i]);
            }
            assert forall|i: int, a: int, b: int|
                0 <= i < self.nodes@.len() && 0 <= a < b < self.nodes@[i].edges@.len() implies #[trigger] self.nodes@[i].edges@[a].child@
                    != #[trigger] self.nodes@[i].edges@[b].child@ by {
                assert(old(self).nodes@[i] == self.nodes@[i]);
            }
            assert(node_view(self.nodes@[n as int]).edges =~= Seq::<(E, u64)>::empty());
            assert(self@ =~= old(self)@.insert(id@, DagNode { value: node_value, edges: Seq::empty() }));
            assert(self.ids() =~= old(self).ids().push(id@));
        }
        proof {
            let g1 = self@;
            lemma_add_leaf(adjacency(old(self)@), id@);
            assert(children_of(g1[id@]) =~= Seq::<u64>::empty());
            assert(adjacency(g1) =~= adjacency(old(self)@).insert(id@, Seq::empty()));
        }
        id
    }

    /// Borrows the value of a node; `None` if the graph has no such node.
    pub fn node(&self, node_id: NodeId) -> (r: Option<&N>)
        requires
            self.wf(),
        ensures
            r is Some <==> self@.dom().contains(node_id@),
            r matches Some(v) ==> *v == self@[node_id@].value,
            !self@.dom().contains(null_node_key()),
    {
        proof {
            self.lemma_wf();
        }
        match slots_get(&self.slots, node_id.to_key()) {
            Some(i) => Some(&self.nodes[i].value),
            None => None,
        }
    }

    /// The number of edges going out of the given node; `None` if the graph
    /// has no such node.
    pub fn out_edge_len(&self, node_id: NodeId) -> (r: Option<usize>)
        requires
            self.wf(),
        ensures
            r is Some <==> self@.dom().contains(node_id@),
            r matches Some(n) ==> n == self@[node_id@].edges.len(),
            !self@.dom().contains(null_node_key()),
    {
        proof {
            self.lemma_wf();
        }
        match slots_get(&self.slots, node_id.to_key()) {
            Some(i) => Some(self.nodes[i].edges.len()),
            None => None,
        }
    }

    /// Borrows the value of a node mutably; `None` if the graph has no such
    /// node. Only that node's value can change through the borrow.
    pub fn node_mut(&mut self, node_id: NodeId) -> (r: Option<&mut N>)
        requires
            old(self).wf(),
        ensures
            r is Some <==> old(self)@.dom().contains(node_id@),
            !old(self)@.dom().contains(null_node_key()),
            r is None ==> final(self)@ == old(self)@,
            match r {
                Some(v) => {
                    &&& *v == old(self)@[node_id@].value
                    &&& final(self)@ == old(self)@.insert(
                        node_id@,
                        DagNode { value: *final(v), edges: old(self)@[node_id@].edges },
                    )
                },
                None => true,
            },
            final(self).wf(),
            final(self).ids() == old(self).ids(),
            final(self).adj() == old(self).adj(),
    {
        proof {
            self.lemma_wf();
        }
        match slots_get(&self.slots, node_id.to_key()) {
            Some(i) => {
                let node = &mut self.nodes[i];
                Some(&mut node.value)
            },
            None => None,
        }
    }

    /// Adds or updates the edge from `source_id` to `target_id` without
    /// checking for cycles. An edge that exists keeps its place and takes
    /// the new value; a new edge goes after the others.
    ///
    /// Returns the position of the edge among the source's edges, or `None`
    /// (changing nothing) if either node does not exist.
    pub fn set_edge_unchecked(&mut self, source_id: NodeId, target_id: NodeId, edge_value: E) -> (r: Option<usize>)
        requires
            old(self).wf(),
        ensures
            final(self).wf(),
            final(self).ids() == old(self).ids(),
            r is None <==> !(old(self)@.dom().contains(source_id@) && old(self)@.dom().contains(target_id@)),
            r is None ==> final(self)@ == old(self)@,
            r matches Some(i) ==> {
                let cs = children_of(old(self)@[source_id@]);
                &&& final(self)@ == with_edge(old(self)@, source_id@, target_id@, edge_value)
                &&& cs.contains(target_id@) ==> i == cs.index_of(target_id@)
                &&& !cs.contains(target_id@) ==> i == cs.len()
            },
    {
        let s_key = source_id.to_key();
        let t_key = target_id.to_key();
        let si = match slots_get(&self.slots, s_key) {
            Some(i) => i,
            None => {
                return None;
            },
        };
        if !slots_contains_key(&self.slots, t_key) {
            return None;
        }
        proof {
            assert(self@.dom() =~= self.key_map().dom());
            self.lemma_view_at(si as int);
        }
        let len = self.nodes[si].edges.len();
        let ghost cs = children_of(old(self)@[s_key]);
        let mut j: usize = 0;
        while j < len
            invariant
                self == old(self),
                self.wf(),
                si < self.nodes@.len(),
                len == self.nodes@[si as int].edges@.len(),
                cs == children_of(self@[s_key]),
                self@[s_key] == node_view(self.nodes@[si as int]),
                0 <= j <= len,
                forall|k: int| 0 <= k < j ==> cs[k] != t_key,
            ensures
                0 <= j <= len,
                j < len ==> cs[j as int] == t_key,
                forall|k: int| 0 <= k < j ==> cs[k] != t_key,
            decreases len - j,
        {
            if self.nodes[si].edges[j].child.to_key() == t_key {
                break;
            }
            j = j + 1;
        }
        let ghost found = j < len;
        proof {
            if found {
                assert(cs[j as int] == t_key);
                assert(cs.contains(t_key));
                let x = cs.index_of(t_key);
                assert(cs.no_duplicates()) by {
                    self.lemma_wf();
                }
                assert(x == j);
            } else {
                assert forall|k: int| 0 <= k < cs.len() implies cs[k] != t_key by {}
            }
        }
        if j < len {
            self.nodes[si].edges[j].value = edge_value;
        } else {
            self.nodes[si].edges.push(Edge { value: edge_value, child: target_id });
        }
        proof {
            let old_nodes = old(self).nodes@;
            let km = self.key_map();
            assert(km == old(self).key_map());
            assert forall|i: int| 0 <= i < self.nodes@.len() && i != si implies #[trigger] self.nodes@[i] == old_nodes[i] by {}
            let en = self.nodes@[si as int].edges@;
            let eo = old_nodes[si as int].edges@;
            assert forall|a: int| 0 <= a < en.len() implies km.dom().contains(#[trigger] en[a].child@) by {
                if a < eo.len() {
                    assert(en[a].child@ == eo[a].child@);
                }
            }
            assert forall|i: int, a: int| 0 <= i < self.nodes@.len() && 0 <= a < self.nodes@[i].edges@.len()
                implies km.dom().contains(#[trigger] self.nodes@[i].edges@[a].child@) by {
                if i != si {
                    assert(self.nodes@[i] == old_nodes[i]);
                } else {
                    assert(km.dom().contains(en[a].child@));
                }
            }
            assert forall|i: int, a: int, b: int|
                0 <= i < self.nodes@.len() && 0 <= a < b < self.nodes@[i].edges@.len() implies #[trigger] self.nodes@[i].edges@[a].child@
                    != #[trigger] self.nodes@[i].edges@[b].child@ by {
                if i != si {
                    assert(self.nodes@[i] == old_nodes[i]);
                } else {
                    assert(en[a].child@ == cs[a] || a >= eo.len());
                    if b < eo.len() {
                        assert(en[a].child@ == eo[a].child@);
                        assert(en[b].child@ == eo[b].child@);
                        assert(old_nodes[si as int].edges@[a].child@ != old_nodes[si as int].edges@[b].child@);
                    } else {
                        assert(en[b].child@ == t_key);
                        assert(en[a].child@ == cs[a]);
                    }
                }
            }
            assert(self.wf());
            let g0 = old(self)@;
            let ev = node_view(self.nodes@[si as int]).edges;
            if found {
                assert(ev =~= g0[s_key].edges.update(j as int, (edge_value, t_key)));
            } else {
                assert(ev =~= g0[s_key].edges.push((edge_value, t_key)));
            }
            assert forall|k: u64| #[trigger] self@.dom().contains(k) && k != s_key implies self@[k] == g0[k] by {
                assert(km[k] != si);
            }
            assert(self@ =~= with_edge(g0, s_key, t_key, edge_value));
            assert(self.ids() =~= old(self).ids());
        }
        Some(j)
    }

    spec fn key_at(&self, i: int) -> u64 {
        self.nodes@[i].id@
    }

    /// All children of the node at position `i` are marked in `visited`.
    spec fn children_marked(&self, visited: Seq<bool>, i: int) -> bool {
        forall|j: int|
            0 <= j < self.nodes@[i].edges@.len() ==> visited[self.key_map()[#[trigger] self.nodes@[i].edges@[j].child@] as int]
    }

    /// The position of the node stored under `key`.
    fn index_of(&self, key: u64) -> (i: usize)
        requires
            self.wf(),
            self.key_map().dom().contains(key),
        ensures
            i == self.key_map()[key],
            i < self.nodes@.len(),
            self.key_at(i as int) == key,
    {
        proof {
            assert(odd_version(key));
        }
        match slots_get(&self.slots, key) {
            Some(i) => i,
            None => {
                proof {
                    assert(false);
                }
                0
            },
        }
    }

    /// Marks every node reachable from the node at position `start`.
    fn explore(&self, start: usize) -> (visited: Vec<bool>)
        requires
            self.wf(),
            start < self.nodes@.len(),
        ensures
            visited@.len() == self.nodes@.len(),
            forall|i: int|
                0 <= i < self.nodes@.len() ==> (visited@[i] <==> reaches(
                    self.adj(),
                    self.key_at(start as int),
                    #[trigger] self.key_at(i),
                )),
    {
        let n = self.nodes.len();
        let ghost adj = self.adj();
        let ghost km = self.key_map();
        let ghost sk = self.key_at(start as int);
        proof {
            assert(adj.dom() =~= km.dom());
            lemma_int_range(0, n as int);
            lemma_reaches_refl(adj, sk);
        }
        let mut visited: Vec<bool> = Vec::new();
        while visited.len() < n
            invariant
                visited@.len() <= n,
                forall|i: int| 0 <= i < visited@.len() ==> !visited@[i],
            decreases n - visited@.len(),
        {
            visited.push(false);
        }
        visited.set(start, true);
        let mut stack: Vec<usize> = Vec::new();
        stack.push(start);
        let ghost mut marked: Set<int> = set![start as int];
        proof {
            assert forall|i: int| 0 <= i < n && visited@[i] implies i == start as int by {}
            assert(stack@ =~= seq![start]);
            assert(stack@[0] == start);
            assert(stack@.contains(start));
        }
        while stack.len() > 0
            invariant
                self.wf(),
                n == self.nodes@.len(),
                adj == self.adj(),
                km == self.key_map(),
                adj.dom() == km.dom(),
                sk == self.key_at(start as int),
                visited@.len() == n,
                start < n,
                visited@[start as int],
                marked.finite(),
                marked.len() <= n,
                set_int_range(0, n as int).finite(),
                set_int_range(0, n as int).len() == n,
                forall|i: int| #[trigger] marked.contains(i) <==> 0 <= i < n && visited@[i],
                forall|i: int| 0 <= i < n && #[trigger] visited@[i] ==> reaches(adj, sk, self.key_at(i)),
                stack@.no_duplicates(),
                forall|j: int| 0 <= j < stack@.len() ==> #[trigger] stack@[j] < n && visited@[stack@[j] as int],
                forall|i: int|
                    0 <= i < n && visited@[i] && !stack@.contains(i as usize) ==> #[trigger] self.children_marked(
                        visited@,
                        i,
                    ),
            decreases n - marked.len(), stack@.len(),
        {
            let ghost full = stack@;
            let u = stack.pop().unwrap();
            let len = self.nodes[u].edges.len();
            let ghost marked0 = marked;
            let ghost stack0 = stack@;
            proof {
                assert(stack0 =~= full.drop_last());
                assert forall|i: int|
                    0 <= i < n && visited@[i] && !stack@.contains(i as usize) && i != u implies #[trigger] self.children_marked(
                        visited@,
                        i,
                    ) by {
                    if full.contains(i as usize) {
                        let w = choose|w: int| 0 <= w < full.len() && full[w] == i as usize;
                        if w < full.len() - 1 {
                            assert(stack0[w] == i as usize);
                        }
                    }
                }
                assert(!stack@.contains(u)) by {
                    if stack@.contains(u) {
                        let w = choose|w: int| 0 <= w < stack0.len() && stack0[w] == u;
                        assert(full[w] == u);
                        assert(full[full.len() - 1] == u);
                    }
                }
            }
            let mut j: usize = 0;
            while j < len
                invariant
                    self.wf(),
                    n == self.nodes@.len(),
                    adj == self.adj(),
                    km == self.key_map(),
                    adj.dom() == km.dom(),
                    sk == self.key_at(start as int),
                    u < n,
                    len == self.nodes@[u as int].edges@.len(),
                    0 <= j <= len,
                    visited@.len() == n,
                    start < n,
                    visited@[start as int],
                    visited@[u as int],
                    marked.finite(),
                    marked.len() <= n,
                    marked0.subset_of(marked),
                    marked.len() >= marked0.len(),
                    set_int_range(0, n as int).finite(),
                    set_int_range(0, n as int).len() == n,
                    forall|i: int| #[trigger] marked.contains(i) <==> 0 <= i < n && visited@[i],
                    forall|i: int| 0 <= i < n && #[trigger] visited@[i] ==> reaches(adj, sk, self.key_at(i)),
                    stack@.no_duplicates(),
                    !stack@.contains(u),
                    stack@.len() >= stack0.len(),
                    stack@.len() > stack0.len() ==> marked.len() > marked0.len(),
                    forall|k: int| 0 <= k < stack@.len() ==> #[trigger] stack@[k] < n && visited@[stack@[k] as int],
                    forall|k: int| 0 <= k < j ==> visited@[km[#[trigger] self.nodes@[u as int].edges@[k].child@] as int],
                    forall|i: int|
                        0 <= i < n && visited@[i] && !stack@.contains(i as usize) && i != u ==> #[trigger] self.children_marked(
                            visited@,
                            i,
                        ),
                decreases len - j,
            {
                let ghost vis0 = visited@;
                let c = self.nodes[u].edges[j].child.to_key();
                proof {
                    assert(km.dom().contains(self.nodes@[u as int].edges@[j as int].child@));
                }
                let ci = self.index_of(c);
                if !visited[ci] {
                    proof {
                        self.lemma_view_at(u as int);
                        let cs = children_of(self@[self.key_at(u as int)]);
                        assert(cs[j as int] == c);
                        assert(has_edge(adj, self.key_at(u as int), c));
                        lemma_reaches_then_edge(adj, sk, self.key_at(u as int), c);
                    }
                    let ghost st1 = stack@;
                    visited.set(ci, true);
                    stack.push(ci);
                    proof {
                        assert(visited@ == vis0.update(ci as int, true));
                        assert(visited@[start as int]);
                        assert(!marked.contains(ci as int));
                        marked = marked.insert(ci as int);
                        lemma_len_subset(marked, set_int_range(0, n as int));
                        assert forall|i: int|
                            0 <= i < n && visited@[i] && !stack@.contains(i as usize) && i != u implies #[trigger] self.children_marked(
                                visited@,
                                i,
                            ) by {
                            assert(stack@[stack@.len() - 1] == ci);
                            assert(i != ci);
                            assert(stack@.drop_last() =~= st1);
                            assert(!st1.contains(i as usize)) by {
                                if st1.contains(i as usize) {
                                    let w = choose|w: int| 0 <= w < st1.len() && st1[w] == i as usize;
                                    assert(stack@[w] == i as usize);
                                }
                            }
                            assert(vis0[i]);
                            assert(self.children_marked(vis0, i));
                            assert forall|jj: int| 0 <= jj < self.nodes@[i].edges@.len() implies visited@[km[#[trigger] self.nodes@[i].edges@[jj].child@] as int] by {
                                assert(vis0[km[self.nodes@[i].edges@[jj].child@] as int]);
                            }
                        }
                        assert forall|k: int| 0 <= k < stack@.len() implies #[trigger] stack@[k] < n && visited@[stack@[k] as int] by {
                            if k < stack@.len() - 1 {
                                assert(stack@[k] == stack@.drop_last()[k]);
                            }
                        }
                        assert forall|a: int, b: int| 0 <= a < stack@.len() && 0 <= b < stack@.len() && a != b implies stack@[a] != stack@[b] by {
                            if a < stack@.len() - 1 && b < stack@.len() - 1 {
                                assert(stack@.drop_last()[a] == stack@[a]);
                                assert(stack@.drop_last()[b] == stack@[b]);
                            } else if a == stack@.len() - 1 {
                                assert(vis0[stack@[b] as int]);
                            } else {
                                assert(vis0[stack@[a] as int]);
                            }
                        }
                        assert(!stack@.contains(u)) by {
                            if stack@.contains(u) {
                                let w = choose|w: int| 0 <= w < stack@.len() && stack@[w] == u;
                                if w < stack@.len() - 1 {
                                    assert(stack@.drop_last()[w] == u);
                                    assert(stack@.drop_last().contains(u));
                                }
                            }
                        }
                    }
                }
                j = j + 1;
            }
            proof {
                assert(self.children_marked(visited@, u as int));
            }
        }
        proof {
            let reach_set = Set::new(|k: u64| km.dom().contains(k) && visited@[km[k] as int]);
            assert(reach_set.contains(sk)) by {
                assert(km[self.nodes@[start as int].id@] == start);
            }
            assert forall|x: u64, y: u64| reach_set.contains(x) && #[trigger] has_edge(adj, x, y) implies reach_set.contains(y) by {
                let i = km[x] as int;
                assert(self.key_at(i) == x);
                assert(self.children_marked(visited@, i));
                self.lemma_view_at(i);
                let cs = children_of(self@[x]);
                let jj = choose|jj: int| 0 <= jj < cs.len() && cs[jj] == y;
                assert(cs[jj] == self.nodes@[i].edges@[jj].child@);
                assert(km.dom().contains(y));
            }
            assert forall|i: int| 0 <= i < n implies (visited@[i] <==> reaches(adj, sk, #[trigger] self.key_at(i))) by {
                if reaches(adj, sk, self.key_at(i)) {
                    lemma_closed_set_holds_reachable(adj, reach_set, sk, self.key_at(i));
                    assert(km[self.key_at(i)] == i);
                }
            }
        }
        visited
    }

    /// Inserts a new node as a child of the given parent, with the default
    /// edge value; without a parent the node is another root.
    ///
    /// The parent, if given, must be in the graph, and the slot map must
    /// have room for the node.
    pub fn insert_at(&mut self, node_value: N, parent_id: Option<NodeId>) -> (id: NodeId)
        where
            E: Default,
        requires
            old(self).wf(),
            old(self)@.dom().len() + 1 < u32::MAX,
            parent_id matches Some(p) ==> old(self)@.dom().contains(p@),
        ensures
            final(self).wf(),
            !old(self)@.dom().contains(id@),
            final(self).ids() == old(self).ids().push(id@),
            parent_id is None ==> final(self)@ == old(self)@.insert(
                id@,
                DagNode { value: node_value, edges: Seq::empty() },
            ),
            parent_id matches Some(p) ==> exists|d: E|
                call_ensures(E::default, (), d) && final(self)@ == with_edge(
                    old(self)@.insert(id@, DagNode { value: node_value, edges: Seq::empty() }),
                    p@,
                    id@,
                    d,
                ),
            parent_id matches Some(p) ==> final(self)@[p@].edges.len() == old(self)@[p@].edges.len() + 1
                && final(self)@[p@].edges.last().1 == id@,
            old(self).is_acyclic() ==> final(self).is_acyclic(),
    {
        let node_id = self.insert(node_value);
        let ghost g1 = self@;
        proof {
            self.lemma_wf();
            lemma_add_leaf(adjacency(old(self)@), node_id@);
            assert(children_of(g1[node_id@]) =~= Seq::<u64>::empty());
            assert(adjacency(g1) =~= adjacency(old(self)@).insert(node_id@, Seq::empty()));
        }
        if let Some(pid) = parent_id {
            let make_default = E::default;
            let d = make_default();
            let r = self.set_edge_unchecked(pid, node_id, d);
            proof {
                let cs = children_of(g1[pid@]);
                assert(!cs.contains(node_id@)) by {
                    assert(cs =~= children_of(old(self)@[pid@]));
                    old(self).lemma_wf();
                    if cs.contains(node_id@) {
                        let j = choose|j: int| 0 <= j < cs.len() && cs[j] == node_id@;
                        assert(has_edge(adjacency(old(self)@), pid@, node_id@));
                    }
                }
                assert(self@ == with_edge(g1, pid@, node_id@, d));
                lemma_with_edge_adjacency(g1, pid@, node_id@, d);
                if old(self).is_acyclic() {
                    lemma_add_child_cycle_iff(adjacency(g1), pid@, node_id@);
                    assert(!reaches(adjacency(g1), node_id@, pid@));
                    lemma_add_child_acyclic(adjacency(g1), pid@, node_id@);
                }
            }
        }
        node_id
    }

    /// Builds a string representation of the whole graph, node by node in
    /// insertion order.
    pub fn string(&self) -> (r: String)
        requires
            self.wf(),
        ensures
            r@ == graph_text(self@, self.ids()),
    {
        let mut sb = String::new();
        let n = self.nodes.len();
        let mut i: usize = 0;
        while i < n
            invariant
                self.wf(),
                n == self.nodes@.len(),
                0 <= i <= n,
                sb@ == graph_text(self@, self.ids().subrange(0, i as int)),
            decreases n - i,
        {
            let node = &self.nodes[i];
            let ghost k = self.key_at(i as int);
            let ghost cs = children_of(self@[k]);
            proof {
                self.lemma_view_at(i as int);
            }
            let id_text = debug_id(node.id.to_key());
            let len = node.edges.len();
            let ghost before = sb@;
            if len == 0 {
                sb.append(id_text.as_str());
                sb.append(" ->\n");
            } else if len == 1 {
                let child_text = debug_id(node.edges[0].child.to_key());
                sb.append(id_text.as_str());
                sb.append(" -> ");
                sb.append(child_text.as_str());
                sb.append("\n");
            } else {
                sb.append(id_text.as_str());
                sb.append("\n");
                let ghost head = sb@;
                let mut j: usize = 0;
                while j < len
                    invariant
                        self.wf(),
                        i < n,
                        n == self.nodes@.len(),
                        len == self.nodes@[i as int].edges@.len(),
                        cs == children_of(self@[k]),
                        self@[k] == node_view(self.nodes@[i as int]),
                        0 <= j <= len,
                        sb@ == head + child_lines(cs.subrange(0, j as int)),
                    decreases len - j,
                {
                    let child_text = debug_id(self.nodes[i].edges[j].child.to_key());
                    let ghost mid = sb@;
                    sb.append("  -> ");
                    sb.append(child_text.as_str());
                    sb.append("\n");
                    proof {
                        assert(cs.subrange(0, j + 1).drop_last() =~= cs.subrange(0, j as int));
                        assert(cs[j as int] == self.nodes@[i as int].edges@[j as int].child@);
                        assert(sb@ =~= mid + "  -> "@ + node_id_text(cs[j as int]) + "\n"@);
                    }
                    j = j + 1;
                }
                proof {
                    assert(cs.subrange(0, len as int) =~= cs);
                }
            }
            proof {
                let ids = self.ids();
                assert(ids.subrange(0, i + 1).drop_last() =~= ids.subrange(0, i as int));
                assert(ids[i as int] == k);
                if len == 0 {
                    assert(sb@ =~= before + node_text(k, self@[k]));
                } else if len == 1 {
                    assert(cs[0] == self.nodes@[i as int].edges@[0].child@);
                    assert(sb@ =~= before + node_text(k, self@[k]));
                } else {
                    assert(sb@ =~= before + node_text(k, self@[k]));
                }
            }
            i = i + 1;
        }
        proof {
            assert(self.ids().subrange(0, n as int) =~= self.ids());
        }
        sb
    }

    /// The search colours kept by position, as colours of node keys: the
    /// nodes that are not white.
    spec fn color_map(&self, colors: Seq<VisitColor>) -> Map<u64, VisitColor> {
        Map::new(
            |k: u64| self.key_map().dom().contains(k) && colors[self.key_map()[k] as int] != VisitColor::White,
            |k: u64| colors[self.key_map()[k] as int],
        )
    }

    /// The depth-first search entered at the node at position `ui`, with
    /// the colours kept by position in `colors`.
    fn dfs_visit_at(&self, ui: usize, colors: &mut Vec<VisitColor>, Ghost(fuel): Ghost<nat>) -> (r: Option<usize>)
        requires
            self.wf(),
            ui < self.nodes@.len(),
            old(colors)@.len() == self.nodes@.len(),
            white_count(old(colors)@) < fuel,
        ensures
            final(colors)@.len() == self.nodes@.len(),
            forall|i: int|
                0 <= i < final(colors)@.len() && old(colors)@[i] != VisitColor::White ==> #[trigger] final(colors)@[i]
                    != VisitColor::White,
            white_count(final(colors)@) <= white_count(old(colors)@),
            self.color_map(final(colors)@) == dfs_visit(
                self.adj(),
                self.key_at(ui as int),
                self.color_map(old(colors)@),
                fuel,
            ).1,
            r is None <==> dfs_visit(self.adj(), self.key_at(ui as int), self.color_map(old(colors)@), fuel).0 is None,
            r matches Some(x) ==> x < self.nodes@.len() && dfs_visit(
                self.adj(),
                self.key_at(ui as int),
                self.color_map(old(colors)@),
                fuel,
            ).0 == Some(self.key_at(x as int)),
        decreases fuel,
    {
        let ghost adj = self.adj();
        let ghost ku = self.key_at(ui as int);
        let ghost s0 = self.color_map(colors@);
        let ghost c0 = colors@;
        let ghost n = self.nodes@.len();
        proof {
            self.lemma_view_at(ui as int);
            self.lemma_wf();
            assert(adj[ku] == children_of(self@[ku]));
        }
        let len = self.nodes[ui].edges.len();
        let mut j: usize = 0;
        while j < len
            invariant
                self.wf(),
                adj == self.adj(),
                n == self.nodes@.len(),
                ui < n,
                ku == self.key_at(ui as int),
                adj[ku] == children_of(self@[ku]),
                self@[ku] == node_view(self.nodes@[ui as int]),
                len == self.nodes@[ui as int].edges@.len(),
                0 <= j <= len,
                colors@.len() == n,
                c0 == old(colors)@,
                c0.len() == n,
                s0 == self.color_map(c0),
                fuel > 0,
                white_count(colors@) < fuel,
                white_count(colors@) <= white_count(c0),
                forall|i: int| 0 <= i < n && c0[i] != VisitColor::White ==> #[trigger] colors@[i] != VisitColor::White,
                dfs_visit(adj, ku, s0, fuel) == dfs_children(adj, ku, j as nat, self.color_map(colors@), (fuel - 1) as nat),
            decreases len - j,
        {
            let c = self.nodes[ui].edges[j].child.to_key();
            proof {
                assert(self.key_map().dom().contains(self.nodes@[ui as int].edges@[j as int].child@));
                assert(adj[ku][j as int] == c);
            }
            let ci = self.index_of(c);
            let ghost sj = self.color_map(colors@);
            proof {
                assert(color_in(sj, c) == colors@[ci as int]);
            }
            match colors[ci] {
                VisitColor::Grey => {
                    proof {
                        lemma_white_count_mono(c0, colors@);
                    }
                    return Some(ui);
                },
                VisitColor::Black => {
                    proof {
                        lemma_white_count_mono(c0, colors@);
                    }
                    return None;
                },
                VisitColor::White => {
                    let ghost before = colors@;
                    colors.set(ci, VisitColor::Grey);
                    proof {
                        lemma_white_count_grey(before, ci as int);
                        assert(self.color_map(colors@) =~= sj.insert(c, VisitColor::Grey)) by {
                            assert forall|k: u64| #[trigger] self.key_map().dom().contains(k) && k != c implies self.key_map()[k] != ci by {
                                assert(self.key_at(self.key_map()[k] as int) == k);
                            }
                        }
                    }
                    let ghost mid = colors@;
                    assert(forall|i: int| 0 <= i < n && c0[i] != VisitColor::White ==> #[trigger] mid[i] != VisitColor::White);
                    let r = self.dfs_visit_at(ci, colors, Ghost((fuel - 1) as nat));
                    proof {
                        assert(self.key_at(ci as int) == c);
                        assert(forall|i: int| 0 <= i < n && c0[i] != VisitColor::White ==> #[trigger] colors@[i] != VisitColor::White) by {
                            assert forall|i: int| 0 <= i < n && c0[i] != VisitColor::White implies #[trigger] colors@[i] != VisitColor::White by {
                                assert(mid[i] != VisitColor::White);
                            }
                        }
                        lemma_white_count_mono(c0, colors@);
                    }
                    if r.is_some() {
                        return r;
                    }
                },
            }
            j = j + 1;
        }
        let ghost last = colors@;
        colors.set(ui, VisitColor::Black);
        proof {
            assert(self.color_map(colors@) =~= self.color_map(last).insert(ku, VisitColor::Black)) by {
                assert(self.key_map()[ku] == ui);
                assert forall|k: u64| #[trigger] self.key_map().dom().contains(k) && k != ku implies self.key_map()[k] != ui by {
                    assert(self.key_at(self.key_map()[k] as int) == k);
                }
            }
            assert forall|i: int| 0 <= i < n && c0[i] != VisitColor::White implies #[trigger] colors@[i] != VisitColor::White by {
                assert(last[i] != VisitColor::White);
            }
            lemma_white_count_mono(c0, colors@);
        }
        None
    }

    /// Looks for a cycle by a depth-first search from `start_node_id`.
    ///
    /// The search colours a node grey when it enters it and black when it
    /// has searched all its children, which it takes in edge order. At a
    /// grey child it stops and returns the node it is at. At a black child
    /// it gives up on the node it is at, leaving its other children
    /// unsearched and the node grey, and goes on with the node's parent. A
    /// grey child on the current search path closes a cycle; one left grey
    /// by giving up need not, and an unsearched child may hide one. So the
    /// result can name a node on no cycle, or miss a cycle;
    /// [`OrderedDag::set_edge`] does not rely on it.
    pub fn check_cycle(&self, start_node_id: NodeId) -> (r: Option<NodeId>)
        requires
            self.wf(),
            self@.dom().contains(start_node_id@),
        ensures
            r is None <==> cycle_search(self.adj(), start_node_id@, self@.dom().len()) is None,
            r matches Some(u) ==> cycle_search(self.adj(), start_node_id@, self@.dom().len()) == Some(u@),
    {
        let n = self.nodes.len();
        proof {
            self.lemma_wf();
            assert(self@.dom() =~= self.key_map().dom());
        }
        let si = self.index_of(start_node_id.to_key());
        let mut colors: Vec<VisitColor> = Vec::new();
        let mut i: usize = 0;
        while i < n
            invariant
                i <= n,
                colors@.len() == i,
                forall|k: int| 0 <= k < i ==> colors@[k] == VisitColor::White,
            decreases n - i,
        {
            colors.push(VisitColor::White);
            i = i + 1;
        }
        let ghost all_white = colors@;
        colors.set(si, VisitColor::Grey);
        proof {
            lemma_white_count_all(all_white);
            lemma_white_count_grey(all_white, si as int);
            let sk = start_node_id@;
            assert(self.key_map()[sk] == si);
            assert(self.color_map(colors@) =~= Map::empty().insert(sk, VisitColor::Grey)) by {
                assert forall|k: u64| #[trigger] self.key_map().dom().contains(k) && k != sk implies self.key_map()[k] != si by {
                    assert(self.key_at(self.key_map()[k] as int) == k);
                }
            }
            assert(self.ids().len() == n);
        }
        match self.dfs_visit_at(si, &mut colors, Ghost(n as nat)) {
            Some(x) => Some(self.nodes[x].id),
            None => None,
        }
    }

    /// Adds or updates the edge from `source_id` to `target_id`.
    ///
    /// Fails with `NodeDoesNotExist` when either node does not exist, and
    /// with `Cycle` when the edge would close a cycle: when the target
    /// already reaches the source (or is the source). A failed call changes
    /// nothing. Otherwise an edge that exists keeps its place and takes the
    /// new value, and a new edge goes after the others; an acyclic graph
    /// stays acyclic.
    pub fn set_edge(&mut self, source_id: NodeId, target_id: NodeId, edge_value: E) -> (r: Result<(), OrderedGraphError>)
        requires
            old(self).wf(),
        ensures
            final(self).wf(),
            final(self).ids() == old(self).ids(),
            r is Err ==> final(self)@ == old(self)@,
            !(old(self)@.dom().contains(source_id@) && old(self)@.dom().contains(target_id@))
                ==> r == Err::<(), OrderedGraphError>(OrderedGraphError::NodeDoesNotExist),
            old(self)@.dom().contains(source_id@) && old(self)@.dom().contains(target_id@) ==> if reaches(
                old(self).adj(),
                target_id@,
                source_id@,
            ) {
                r == Err::<(), OrderedGraphError>(OrderedGraphError::Cycle)
            } else {
                &&& r == Ok::<(), OrderedGraphError>(())
                &&& final(self)@ == with_edge(old(self)@, source_id@, target_id@, edge_value)
            },
            old(self).is_acyclic() ==> final(self).is_acyclic(),
    {
        let s_key = source_id.to_key();
        let t_key = target_id.to_key();
        proof {
            assert(self@.dom() =~= self.key_map().dom());
        }
        if !slots_contains_key(&self.slots, s_key) || !slots_contains_key(&self.slots, t_key) {
            return Err(OrderedGraphError::NodeDoesNotExist);
        }
        let si = self.index_of(s_key);
        let ti = self.index_of(t_key);
        let from_target = self.explore(ti);
        if from_target[si] {
            return Err(OrderedGraphError::Cycle);
        }
        let ghost g0 = self@;
        proof {
            assert(!reaches(self.adj(), t_key, s_key));
        }
        let _ = self.set_edge_unchecked(source_id, target_id, edge_value);
        proof {
            lemma_with_edge_adjacency(g0, s_key, t_key, edge_value);
            if old(self).is_acyclic() {
                lemma_add_child_cycle_iff(adjacency(g0), s_key, t_key);
                lemma_add_child_acyclic(adjacency(g0), s_key, t_key);
            }
        }
        Ok(())
    }

    /// Sorts the outgoing edges of every node: by edge value, then by
    /// child. Each node keeps the same edges, so the graph's paths, and
    /// whether it is acyclic, stay the same.
    pub fn sort(&mut self)
        requires
            old(self).wf(),
        ensures
            final(self).wf(),
            final(self).ids() == old(self).ids(),
            final(self)@.dom() == old(self)@.dom(),
            forall|k: u64| #[trigger] final(self)@.dom().contains(k) ==> {
                &&& final(self)@[k].value == old(self)@[k].value
                &&& final(self)@[k].edges.to_multiset() == old(self)@[k].edges.to_multiset()
                &&& lawful_order::<E>() ==> edges_sorted(final(self)@[k].edges)
            },
            final(self).adj().dom() == old(self).adj().dom(),
            forall|a: u64, b: u64| #[trigger] has_edge(final(self).adj(), a, b) == has_edge(old(self).adj(), a, b),
            old(self).is_acyclic() ==> final(self).is_acyclic(),
    {
        let n = self.nodes.len();
        let ghost old_nodes = self.nodes@;
        let mut i: usize = 0;
        while i < n
            invariant
                i <= n,
                n == self.nodes@.len(),
                n == old_nodes.len(),
                old_nodes == old(self).nodes@,
                self.slots == old(self).slots,
                forall|j: int|
                    0 <= j < n ==> (#[trigger] self.nodes@[j]).id == old_nodes[j].id && self.nodes@[j].value
                        == old_nodes[j].value,
                forall|j: int| i <= j < n ==> (#[trigger] self.nodes@[j]).edges@ == old_nodes[j].edges@,
                forall|j: int|
                    0 <= j < i ==> edge_views((#[trigger] self.nodes@[j]).edges@).to_multiset() == edge_views(
                        old_nodes[j].edges@,
                    ).to_multiset() && (lawful_order::<E>() ==> edges_sorted(edge_views(self.nodes@[j].edges@))),
                old(self).wf(),
            decreases n - i,
        {
            proof {
                old(self).lemma_children_distinct(i as int);
            }
            let mut taken: Vec<Edge<E>> = Vec::new();
            std::mem::swap(&mut self.nodes[i].edges, &mut taken);
            let mut sorted = sort_edges(taken);
            std::mem::swap(&mut self.nodes[i].edges, &mut sorted);
            i += 1;
        }
        proof {
            let km = self.key_map();
            let g0 = old(self)@;
            assert forall|i: int| 0 <= i < n implies {
                let cn = edge_children(edge_views(#[trigger] self.nodes@[i].edges@));
                let co = edge_children(edge_views(old_nodes[i].edges@));
                &&& cn.no_duplicates()
                &&& forall|c: u64| co.contains(c) <==> cn.contains(c)
            } by {
                old(self).lemma_children_distinct(i);
                lemma_same_edges(edge_views(old_nodes[i].edges@), edge_views(self.nodes@[i].edges@));
            }
            assert forall|i: int, j: int| 0 <= i < n && 0 <= j < self.nodes@[i].edges@.len() implies km.dom().contains(
                #[trigger] self.nodes@[i].edges@[j].child@,
            ) by {
                let cn = edge_children(edge_views(self.nodes@[i].edges@));
                let co = edge_children(edge_views(old_nodes[i].edges@));
                assert(cn[j] == self.nodes@[i].edges@[j].child@);
                assert(cn.contains(cn[j]));
                assert(co.contains(cn[j]));
                let m = choose|m: int| 0 <= m < co.len() && co[m] == cn[j];
                assert(co[m] == old_nodes[i].edges@[m].child@);
            }
            assert forall|i: int, a: int, b: int|
                0 <= i < n && 0 <= a < b < self.nodes@[i].edges@.len() implies #[trigger] self.nodes@[i].edges@[a].child@
                    != #[trigger] self.nodes@[i].edges@[b].child@ by {
                let cn = edge_children(edge_views(self.nodes@[i].edges@));
                assert(cn[a] == self.nodes@[i].edges@[a].child@);
                assert(cn[b] == self.nodes@[i].edges@[b].child@);
            }
            assert(self.wf());
            assert(self.ids() =~= old(self).ids());
            assert(self@.dom() =~= g0.dom());
            assert forall|k: u64| #[trigger] self@.dom().contains(k) implies {
                &&& self@[k].value == g0[k].value
                &&& self@[k].edges.to_multiset() == g0[k].edges.to_multiset()
                &&& lawful_order::<E>() ==> edges_sorted(self@[k].edges)
            } by {
                let j = km[k] as int;
                assert(self@[k] == node_view(self.nodes@[j]));
                assert(g0[k] == node_view(old_nodes[j]));
            }
            let a1 = self.adj();
            let a0 = old(self).adj();
            assert(a1.dom() =~= a0.dom());
            assert forall|a: u64, b: u64| #[trigger] has_edge(a1, a, b) == has_edge(a0, a, b) by {
                if a1.dom().contains(a) {
                    let j = km[a] as int;
                    assert(a1[a] == edge_children(edge_views(self.nodes@[j].edges@)));
                    assert(a0[a] == edge_children(edge_views(old_nodes[j].edges@)));
                }
            }
            if old(self).is_acyclic() {
                lemma_sub_adjacency_acyclic(a1, a0);
            }
        }
    }

    /// The children under each stored node are distinct.
    proof fn lemma_children_distinct(&self, i: int)
        requires
            self.wf(),
            0 <= i < self.nodes@.len(),
        ensures
            edge_children(edge_views(self.nodes@[i].edges@)).no_duplicates(),
    {
        let es = self.nodes@[i].edges@;
        let cs = edge_children(edge_views(es));
        assert forall|a: int, b: int| 0 <= a < cs.len() && 0 <= b < cs.len() && a != b implies cs[a] != cs[b] by {
            if a < b {
                assert(es[a].child@ != es[b].child@);
            } else {
                assert(es[b].child@ != es[a].child@);
            }
        }
    }

    /// The number of nodes in the graph.
    pub fn len(&self) -> (r: usize)
        requires
            self.wf(),
        ensures
            r == self@.dom().len(),
    {
        proof {
            assert(self@.dom() =~= self.key_map().dom());
        }
        slots_len(&self.slots)
    }

    /// Returns true if the graph has no nodes.
    pub fn is_empty(&self) -> (r: bool)
        requires
            self.wf(),
        ensures
            r == (self@.dom().len() == 0),
    {
        proof {
            assert(self@.dom() =~= self.key_map().dom());
        }
        slots_is_empty(&self.slots)
    }
}

// -------------------- //
// Traversal Algorithms //
// -------------------- //

/// A walk over the nodes of a graph that takes the graph at each step, so
/// that the graph is not borrowed between steps.
pub trait Walker: Sized {
    type Node;
    type Edge: Ord;

    /// The walker can take its next step on `graph`.
    spec fn walkable(&self, graph: &OrderedDag<Self::Node, Self::Edge>) -> bool;

    /// The next node of the walk, or `None` when the walk is over.
    fn next(&mut self, graph: &OrderedDag<Self::Node, Self::Edge>) -> (r: Option<NodeId>)
        requires
            graph.wf(),
            old(self).walkable(graph),
        ensures
            final(self).walkable(graph),
            r matches Some(id) ==> graph@.dom().contains(id@),
    ;
}

/// Depth-first walk in pre-order: a node comes before its children, which
/// come in edge order.
pub struct PreOrderWalk<N, E> {
    stack: Vec<NodeId>,
    _marker: core::marker::PhantomData<(N, E)>,
}

impl<N, E> PreOrderWalk<N, E> {
    /// The nodes still to visit; the last is visited next.
    pub closed spec fn stack(&self) -> Seq<u64> {
        self.stack@.map_values(|id: NodeId| id@)
    }
}

impl<N, E: Ord> Walker for PreOrderWalk<N, E> {
    type Node = N;
    type Edge = E;

    open spec fn walkable(&self, graph: &OrderedDag<N, E>) -> bool {
        forall|i: int| 0 <= i < self.stack().len() ==> graph@.dom().contains(#[trigger] self.stack()[i])
    }

    /// Pops the next node and pushes its children so that the first child
    /// is visited next.
    fn next(&mut self, graph: &OrderedDag<N, E>) -> (r: Option<NodeId>)
        ensures
            old(self).stack().len() == 0 ==> r is None && final(self).stack() == old(self).stack(),
            old(self).stack().len() > 0 ==> {
                &&& r matches Some(id) && id@ == old(self).stack().last()
                &&& final(self).stack() == old(self).stack().drop_last() + children_of(
                    graph@[old(self).stack().last()],
                ).reverse()
            },
    {
        match self.stack.pop() {
            Some(node_id) => {
                proof {
                    assert(self.stack@ =~= old(self).stack@.drop_last());
                    assert(old(self).stack().len() > 0);
                    assert(graph@.dom().contains(old(self).stack()[old(self).stack().len() - 1]));
                }
                let ni = graph.index_of(node_id.to_key());
                let len = graph.nodes[ni].edges.len();
                let ghost base = self.stack();
                let ghost cs = children_of(graph@[node_id@]);
                proof {
                    graph.lemma_view_at(ni as int);
                }
                let mut j: usize = len;
                while j > 0
                    invariant
                        graph.wf(),
                        ni < graph.nodes@.len(),
                        len == graph.nodes@[ni as int].edges@.len(),
                        graph@[node_id@] == node_view(graph.nodes@[ni as int]),
                        cs == children_of(graph@[node_id@]),
                        0 <= j <= len,
                        self.stack() == base + cs.reverse().subrange(0, len - j),
                    decreases j,
                {
                    j = j - 1;
                    let child = graph.nodes[ni].edges[j].child;
                    let ghost prev = self.stack();
                    self.stack.push(child);
                    proof {
                        assert(cs[j as int] == child@);
                        assert(cs.len() == len);
                        assert(cs.reverse()[(len - 1 - j) as int] == cs[j as int]);
                        assert(self.stack() =~= prev.push(child@));
                        assert(cs.reverse().subrange(0, len - j) =~= cs.reverse().subrange(0, len - j - 1).push(child@));
                        assert(self.stack() =~= base + cs.reverse().subrange(0, len - j));
                    }
                }
                proof {
                    assert(cs.reverse().subrange(0, len as int) =~= cs.reverse());
                    graph.lemma_wf();
                    assert forall|i: int| 0 <= i < self.stack().len() implies graph@.dom().contains(#[trigger] self.stack()[i]) by {
                        if i < base.len() {
                            assert(self.stack()[i] == old(self).stack()[i]);
                        } else {
                            let k = i - base.len();
                            assert(self.stack()[i] == cs[len - 1 - k]);
                            assert(has_edge(graph.adj(), node_id@, cs[len - 1 - k]));
                        }
                    }
                }
                Some(node_id)
            },
            None => None,
        }
    }
}

/// Depth-first walk in post-order: a node comes after all nodes it reaches.
pub struct PostOrderWalk<N, E> {
    stack: Vec<NodeId>,
    out: Vec<NodeId>,
    _marker: core::marker::PhantomData<(N, E)>,
}

impl<N, E> PostOrderWalk<N, E> {
    /// The nodes still to expand; the last is expanded next.
    pub closed spec fn stack(&self) -> Seq<u64> {
        self.stack@.map_values(|id: NodeId| id@)
    }

    /// The expanded nodes not yet yielded; the last is yielded next.
    pub closed spec fn out(&self) -> Seq<u64> {
        self.out@.map_values(|id: NodeId| id@)
    }
}

impl<N, E: Ord> Walker for PostOrderWalk<N, E> {
    type Node = N;
    type Edge = E;

    /// The stacked nodes are in the graph, and, while any node is left to
    /// expand, the graph is acyclic (on a cycle the walk would not end).
    open spec fn walkable(&self, graph: &OrderedDag<N, E>) -> bool {
        &&& forall|i: int| 0 <= i < self.stack().len() ==> graph@.dom().contains(#[trigger] self.stack()[i])
        &&& forall|i: int| 0 <= i < self.out().len() ==> graph@.dom().contains(#[trigger] self.out()[i])
        &&& self.stack().len() > 0 ==> graph.is_acyclic()
    }

    /// Expands the stack until it is empty, moving each expanded node to the
    /// output, then yields the last node of the output.
    fn next(&mut self, graph: &OrderedDag<N, E>) -> (r: Option<NodeId>)
        ensures
            final(self).stack().len() == 0,
            exists|f: nat| {
                let d = #[trigger] post_drain(graph.adj(), old(self).stack(), old(self).out(), f);
                &&& d.0.len() == 0
                &&& d.1.len() == 0 ==> r is None && final(self).out() == d.1
                &&& d.1.len() > 0 ==> (r matches Some(id) && id@ == d.1.last() && final(self).out() == d.1.drop_last())
            },
    {
        let ghost adj = graph.adj();
        let ghost n = graph@.dom().len();
        let ghost b: nat = n + 1;
        let ghost mut levels: Seq<nat> = Seq::new(self.stack@.len(), |i: int| n);
        let ghost mut fuel: nat = 0;
        let ghost s0 = old(self).stack();
        let ghost o0 = old(self).out();
        proof {
            graph.lemma_wf();
            assert(adj.dom() =~= graph@.dom());
            if s0.len() > 0 {
                assert forall|i: int| 0 <= i < levels.len() implies bounded(adj, #[trigger] self.stack()[i], levels[i]) by {
                    lemma_acyclic_bounded(adj, self.stack()[i]);
                }
            }
        }
        while self.stack.len() > 0
            invariant
                graph.wf(),
                adj == graph.adj(),
                adj.dom() == graph@.dom(),
                n == graph@.dom().len(),
                b == n + 1,
                dag_wf(graph@),
                levels.len() == self.stack().len(),
                forall|i: int| 0 <= i < self.stack().len() ==> graph@.dom().contains(#[trigger] self.stack()[i]),
                forall|i: int| 0 <= i < levels.len() ==> bounded(adj, #[trigger] self.stack()[i], levels[i]),
                forall|i: int| 0 <= i < self.out().len() ==> graph@.dom().contains(#[trigger] self.out()[i]),
                post_drain(adj, s0, o0, fuel) == (self.stack(), self.out()),
            decreases potential(levels, b),
        {
            let ghost pot0 = potential(levels, b);
            let ghost st = self.stack();
            let ghost lv = levels.last();
            proof {
                assert(levels.drop_last().push(lv) =~= levels);
                lemma_potential_push(levels.drop_last(), b, lv);
            }
            let ghost out0 = self.out();
            let node_id = self.stack.pop().unwrap();
            self.out.push(node_id);
            proof {
                assert(node_id@ == st[st.len() - 1]);
                assert(self.out() =~= out0.push(node_id@));
                assert(self.stack() =~= st.drop_last());
                assert(self.out() =~= post_drain(adj, s0, o0, fuel).1.push(node_id@));
                assert(graph@.dom().contains(st[st.len() - 1]));
                assert(bounded(adj, st[st.len() - 1], levels[levels.len() - 1]));
                levels = levels.drop_last();
                assert forall|i: int| 0 <= i < self.out().len() implies graph@.dom().contains(#[trigger] self.out()[i]) by {
                    if i < out0.len() {
                        assert(self.out()[i] == out0[i]);
                    }
                }
            }
            let ni = graph.index_of(node_id.to_key());
            let len = graph.nodes[ni].edges.len();
            let ghost cs = adj[node_id@];
            let ghost base = self.stack();
            let ghost base_levels = levels;
            let ghost out1 = self.out();
            proof {
                graph.lemma_view_at(ni as int);
                assert(cs == children_of(graph@[node_id@]));
                lemma_children_count(adj, node_id@);
                assert(lv > 0);
            }
            let mut j: usize = 0;
            while j < len
                invariant
                    graph.wf(),
                    adj == graph.adj(),
                    adj.dom() == graph@.dom(),
                    n == graph@.dom().len(),
                    b == n + 1,
                    dag_wf(graph@),
                    ni < graph.nodes@.len(),
                    len == graph.nodes@[ni as int].edges@.len(),
                    graph@[node_id@] == node_view(graph.nodes@[ni as int]),
                    cs == children_of(graph@[node_id@]),
                    graph@.dom().contains(node_id@),
                    cs.len() == len,
                    len <= n,
                    lv > 0,
                    bounded(adj, node_id@, lv),
                    0 <= j <= len,
                    self.stack() == base + cs.subrange(0, j as int),
                    levels == base_levels + Seq::new(j as nat, |i: int| (lv - 1) as nat),
                    potential(levels, b) == potential(base_levels, b) + j * power(b, (lv - 1) as nat),
                    forall|i: int| 0 <= i < base.len() ==> graph@.dom().contains(#[trigger] base[i]),
                    forall|i: int| 0 <= i < base_levels.len() ==> bounded(adj, #[trigger] base[i], base_levels[i]),
                    base_levels.len() == base.len(),
                    self.out() == out1,
                    forall|i: int| 0 <= i < out1.len() ==> graph@.dom().contains(#[trigger] out1[i]),
                decreases len - j,
            {
                let child = graph.nodes[ni].edges[j].child;
                let ghost prev = self.stack();
                let ghost prev_levels = levels;
                self.stack.push(child);
                proof {
                    assert(cs[j as int] == child@);
                    assert(self.stack() =~= prev.push(child@));
                    assert(cs.subrange(0, j + 1) =~= cs.subrange(0, j as int).push(child@));
                    lemma_potential_push(prev_levels, b, (lv - 1) as nat);
                    levels = levels.push((lv - 1) as nat);
                    assert(levels =~= base_levels + Seq::new((j + 1) as nat, |i: int| (lv - 1) as nat));
                    assert(potential(levels, b) == potential(base_levels, b) + (j + 1) * power(b, (lv - 1) as nat)) by (nonlinear_arith)
                        requires
                            potential(levels, b) == potential(prev_levels, b) + power(b, (lv - 1) as nat),
                            potential(prev_levels, b) == potential(base_levels, b) + j * power(b, (lv - 1) as nat),
                    ;
                }
                j = j + 1;
            }
            proof {
                assert(cs.subrange(0, len as int) =~= cs);
                let prev = post_drain(adj, s0, o0, fuel);
                assert(prev.0 == st);
                assert(st.len() > 0);
                fuel = fuel + 1;
                assert(post_drain(adj, s0, o0, fuel) == post_step(adj, prev.0, prev.1));
                assert(self.stack() =~= st.drop_last() + adj[st.last()]);
                assert(self.out() == prev.1.push(st.last()));
                let x = power(b, (lv - 1) as nat);
                lemma_power_positive(b, (lv - 1) as nat);
                assert(power(b, lv) == b * x);
                assert(pot0 == potential(base_levels, b) + power(b, lv));
                assert(len * x < b * x) by (nonlinear_arith)
                    requires
                        len < b,
                        x > 0,
                ;
                assert forall|i: int| 0 <= i < levels.len() implies bounded(adj, #[trigger] self.stack()[i], levels[i]) by {
                    if i < base.len() {
                        assert(self.stack()[i] == base[i]);
                        assert(levels[i] == base_levels[i]);
                    } else {
                        let k = i - base.len();
                        assert(self.stack()[i] == cs[k]);
                        assert(levels[i] == (lv - 1) as nat);
                        assert(bounded(adj, adj[node_id@][k], (lv - 1) as nat));
                    }
                }
                assert forall|i: int| 0 <= i < self.stack().len() implies graph@.dom().contains(#[trigger] self.stack()[i]) by {
                    if i >= base.len() {
                        let k = i - base.len();
                        assert(self.stack()[i] == cs[k]);
                        assert(has_edge(adj, node_id@, cs[k]));
                    }
                }
            }
        }
        let ghost out_all = self.out();
        let r = self.out.pop();
        proof {
            let d = post_drain(adj, s0, o0, fuel);
            if out_all.len() > 0 {
                assert(graph@.dom().contains(out_all[out_all.len() - 1]));
            }
            assert forall|i: int| 0 <= i < self.out().len() implies graph@.dom().contains(#[trigger] self.out()[i]) by {
                assert(self.out()[i] == out_all[i]);
            }
            assert(d.0.len() == 0);
            if d.1.len() > 0 {
                assert(self.out() =~= d.1.drop_last());
            }
        }
        r
    }
}

/// Walk over the immediate children of a node, in edge order.
pub struct ChildrenWalk<N, E> {
    node_id: NodeId,
    cursor: usize,
    _marker: core::marker::PhantomData<(N, E)>,
}

impl<N, E> ChildrenWalk<N, E> {
    /// The node whose children are walked.
    pub closed spec fn parent(&self) -> u64 {
        self.node_id@
    }

    /// How many children have been walked.
    pub closed spec fn cursor(&self) -> nat {
        self.cursor as nat
    }
}

impl<N, E: Ord> Walker for ChildrenWalk<N, E> {
    type Node = N;
    type Edge = E;

    open spec fn walkable(&self, graph: &OrderedDag<N, E>) -> bool {
        true
    }

    /// The child after the ones walked so far.
    fn next(&mut self, graph: &OrderedDag<N, E>) -> (r: Option<NodeId>)
        ensures
            final(self).parent() == old(self).parent(),
            (graph@.dom().contains(old(self).parent()) && old(self).cursor() < graph@[old(self).parent()].edges.len())
                ==> {
                &&& r matches Some(id) && id@ == children_of(graph@[old(self).parent()])[old(self).cursor() as int]
                &&& final(self).cursor() == old(self).cursor() + 1
            },
            !(graph@.dom().contains(old(self).parent()) && old(self).cursor() < graph@[old(self).parent()].edges.len())
                ==> r is None && final(self).cursor() == old(self).cursor(),
    {
        match slots_get(&graph.slots, self.node_id.to_key()) {
            Some(ni) => {
                proof {
                    graph.lemma_view_at(ni as int);
                    assert(graph@.dom() =~= graph.key_map().dom());
                    assert(graph.key_at(ni as int) == self.node_id@);
                }
                if self.cursor < graph.nodes[ni].edges.len() {
                    let child = graph.nodes[ni].edges[self.cursor].child;
                    proof {
                        graph.lemma_wf();
                        let cs = children_of(graph@[self.node_id@]);
                        assert(cs[self.cursor as int] == child@);
                        assert(has_edge(graph.adj(), self.node_id@, child@));
                    }
                    self.cursor = self.cursor + 1;
                    Some(child)
                } else {
                    None
                }
            },
            None => {
                proof {
                    assert(graph@.dom() =~= graph.key_map().dom());
                }
                None
            },
        }
    }
}

impl<N, E: Ord> OrderedDag<N, E> {
    /// Traverses the graph depth-first in pre-order from `start_node`. If
    /// the graph does not hold the node, the walk yields nothing.
    pub fn walk_pre_order(&self, start_node: NodeId) -> (r: PreOrderWalk<N, E>)
        requires
            self.wf(),
        ensures
            r.walkable(self),
            self@.dom().contains(start_node@) ==> r.stack() == seq![start_node@],
            !self@.dom().contains(start_node@) ==> r.stack() == Seq::<u64>::empty(),
    {
        proof {
            assert(self@.dom() =~= self.key_map().dom());
        }
        let mut stack: Vec<NodeId> = Vec::new();
        if slots_contains_key(&self.slots, start_node.to_key()) {
            stack.push(start_node);
        }
        let r = PreOrderWalk { stack, _marker: core::marker::PhantomData };
        proof {
            if self@.dom().contains(start_node@) {
                assert(r.stack() =~= seq![start_node@]);
            } else {
                assert(r.stack() =~= Seq::<u64>::empty());
            }
        }
        r
    }

    /// Traverses the graph depth-first in post-order from `start_node`. If
    /// the graph does not hold the node, the walk yields nothing.
    pub fn walk_post_order(&self, start_node: NodeId) -> (r: PostOrderWalk<N, E>)
        requires
            self.wf(),
        ensures
            self.is_acyclic() ==> r.walkable(self),
            r.out() == Seq::<u64>::empty(),
            self@.dom().contains(start_node@) ==> r.stack() == seq![start_node@],
            !self@.dom().contains(start_node@) ==> r.stack() == Seq::<u64>::empty(),
    {
        proof {
            assert(self@.dom() =~= self.key_map().dom());
        }
        let mut stack: Vec<NodeId> = Vec::new();
        if slots_contains_key(&self.slots, start_node.to_key()) {
            stack.push(start_node);
        }
        let r = PostOrderWalk { stack, out: Vec::new(), _marker: core::marker::PhantomData };
        proof {
            assert(r.out() =~= Seq::<u64>::empty());
            if self@.dom().contains(start_node@) {
                assert(r.stack() =~= seq![start_node@]);
            } else {
                assert(r.stack() =~= Seq::<u64>::empty());
            }
        }
        r
    }

    /// Walks the immediate children of the given node, in edge order.
    pub fn walk_children(&self, node_id: NodeId) -> (r: ChildrenWalk<N, E>)
        ensures
            r.parent() == node_id@,
            r.cursor() == 0,
    {
        ChildrenWalk { node_id, cursor: 0, _marker: core::marker::PhantomData }
    }
}

} // verus!
