//! The GUI graph: widgets as entities in an ordered DAG, walked in layout
//! and drawing order.
use vstd::prelude::*;
use crate::collections::ordered_dag::{
    ChildrenWalk, DagNode, NodeId, OrderedDag, PostOrderWalk, PreOrderWalk, Walker, adjacency,
    children_of, debug_id, node_id_text, with_edge,
};
use crate::collections::ordered_dag::lemma_with_edge_adjacency;
use crate::collections::paths::{
    acyclic, add_child, bounded, has_edge, lemma_acyclic_bounded, lemma_add_child_sub, lemma_reaches_refl,
    lemma_reaches_then_edge, lemma_sub_adjacency_path, path_from_to, reaches, sub_adjacency,
};

pub mod layout;
pub mod mesh;
pub mod systems;
pub mod text;
pub mod drawable;
pub mod widget;

verus! {

/// An entity of the component world, by index and generation.
#[derive(Clone, Copy, PartialEq, Eq, Structural, Hash, Debug)]
pub struct Entity {
    pub id: u32,
    pub generation: i32,
}

impl Entity {
    /// The entity with the given index and generation.
    pub fn new(id: u32, generation: i32) -> (r: Self)
        ensures
            r.id == id,
            r.generation == generation,
    {
        Entity { id, generation }
    }

    /// The entity's index.
    pub fn id(&self) -> (r: u32)
        ensures
            r == self.id,
    {
        self.id
    }

    /// The entity's generation.
    pub fn generation(&self) -> (r: i32)
        ensures
            r == self.generation,
    {
        self.generation
    }
}

/// Edge of the widget parent -> child relationship.
#[derive(Debug, PartialOrd, Ord, PartialEq, Eq)]
pub struct Child {
    pub order_index: u16,
}

impl Default for Child {
    /// The first place among the siblings.
    fn default() -> (r: Self)
        ensures
            r == (Child { order_index: 0 }),
    {
        Child { order_index: 0 }
    }
}

/// `after` is `before` with a new widget node `id` holding `entity`, added
/// after the other children of `parent` with the edge value
/// `Child { order_index: 0 }`; nothing else changes.
pub open spec fn widget_added(
    before: Map<u64, DagNode<Entity, Child>>,
    after: Map<u64, DagNode<Entity, Child>>,
    parent: u64,
    id: u64,
    entity: Entity,
) -> bool {
    after == before.insert(id, DagNode { value: entity, edges: Seq::empty() }).insert(
        parent,
        DagNode { value: before[parent].value, edges: before[parent].edges.push((Child { order_index: 0 }, id)) },
    )
}

/// The widgets of an interface, in a graph under one root widget.
pub struct GuiGraph {
    root_id: NodeId,
    graph: OrderedDag<Entity, Child>,
}

impl GuiGraph {
    /// The widget graph.
    pub closed spec fn graph(&self) -> Map<u64, DagNode<Entity, Child>> {
        self.graph@
    }

    /// The root node.
    pub closed spec fn root(&self) -> u64 {
        self.root_id@
    }

    /// The graph is well formed and acyclic, holds the root, and every
    /// widget hangs under the root.
    pub closed spec fn wf(&self) -> bool {
        &&& self.graph.wf()
        &&& self.graph.is_acyclic()
        &&& self.graph@.dom().contains(self.root_id@)
        &&& forall|k: u64| #[trigger] self.graph@.dom().contains(k) ==> reaches(adjacency(self.graph@), self.root_id@, k)
    }

    /// The widget graph has no cycle, and every widget can be reached from
    /// the root: walking from the root visits them all.
    pub proof fn lemma_widgets_under_root(&self)
        requires
            self.wf(),
        ensures
            acyclic(adjacency(self.graph())),
            self.graph().dom().contains(self.root()),
            forall|k: u64| #[trigger] self.graph().dom().contains(k) ==> reaches(adjacency(self.graph()), self.root(), k),
    {
    }

    /// Creates a graph that holds only the root entity.
    pub fn with_root(root_entity: Entity) -> (r: Self)
        ensures
            r.wf(),
            r.graph() == Map::<u64, DagNode<Entity, Child>>::empty().insert(
                r.root(),
                DagNode { value: root_entity, edges: Seq::empty() },
            ),
    {
        let mut graph: OrderedDag<Entity, Child> = OrderedDag::new();
        let root_id = graph.insert(root_entity);
        proof {
            assert(graph.is_acyclic()) by {
                assert forall|v: u64| !#[trigger] crate::collections::paths::on_cycle(graph.adj(), v) by {
                    if crate::collections::paths::on_cycle(graph.adj(), v) {
                        let p = choose|p: Seq<u64>| crate::collections::paths::path_from_to(graph.adj(), p, v, v) && p.len() >= 2;
                        assert(crate::collections::paths::step_ok(graph.adj(), p, 0));
                        assert(children_of(graph@[p[0]]) =~= Seq::<u64>::empty());
                    }
                }
            }
        }
        proof {
            assert(graph@.dom() =~= set![root_id@]);
            assert(adjacency(graph@).dom() =~= graph@.dom());
            lemma_reaches_refl(adjacency(graph@), root_id@);
        }
        GuiGraph { root_id, graph }
    }

    /// The number of widget nodes.
    pub fn len(&self) -> (r: usize)
        requires
            self.wf(),
        ensures
            r == self.graph().dom().len(),
    {
        self.graph.len()
    }

    /// The debug print of the widget tree: a line for each node, from the
    /// root down, children after their parent, each line indented by the
    /// node's depth and marked when it is the last of its siblings.
    ///
    /// The depth is an `i32`; the precondition keeps the graph small enough
    /// that it cannot overflow.
    pub fn debug_text(&self) -> (r: String)
        requires
            self.wf(),
            self.graph().dom().len() < 0x7fff_ffff,
        ensures
            r@ == tree_text(adjacency(self.graph()), self.root(), 0, false, self.graph().dom().len()),
    {
        let mut out = String::new();
        proof {
            self.graph.lemma_wf();
            assert(adjacency(self.graph()).dom() =~= self.graph().dom());
            lemma_acyclic_bounded(adjacency(self.graph()), self.root());
        }
        self.append_tree(&mut out, self.root_id, 0, false, Ghost(self.graph().dom().len()));
        proof {
            assert(out@ =~= tree_text(adjacency(self.graph()), self.root(), 0, false, self.graph().dom().len()));
        }
        out
    }

    /// Appends the debug print of the tree under `node_id`.
    fn append_tree(&self, out: &mut String, node_id: NodeId, level: i32, last: bool, Ghost(fuel): Ghost<nat>)
        requires
            self.wf(),
            self.graph().dom().contains(node_id@),
            bounded(adjacency(self.graph()), node_id@, fuel),
            0 <= level,
            level + fuel <= 0x7fff_ffff,
        ensures
            final(out)@ == old(out)@ + tree_text(adjacency(self.graph()), node_id@, level as int, last, fuel),
        decreases fuel,
    {
        let ghost adj = adjacency(self.graph());
        let ghost start = out@;
        let indent = tree_indent(level, last);
        out.append(indent.as_str());
        let id_text = debug_id(node_id.to_key());
        out.append(id_text.as_str());
        out.append("\n");
        proof {
            reveal_strlit("\n");
            self.graph.lemma_wf();
        }
        let count = match self.graph.out_edge_len(node_id) {
            Some(n) => n,
            None => 0,
        };
        let ghost cs = adj[node_id@];
        let ghost head = start + indent_text(level as int, last) + node_id_text(node_id@) + "\n"@;
        proof {
            assert(out@ =~= head);
            assert(cs == children_of(self.graph()[node_id@]));
            assert(count == cs.len());
        }
        let mut walker = self.graph.walk_children(node_id);
        let mut cursor: usize = 0;
        while cursor < count
            invariant
                self.wf(),
                self.graph().dom().contains(node_id@),
                bounded(adj, node_id@, fuel),
                adj == adjacency(self.graph()),
                cs == adj[node_id@],
                count == cs.len(),
                cursor <= count,
                0 <= level,
                level + fuel <= 0x7fff_ffff,
                walker.parent() == node_id@,
                walker.cursor() == cursor,
                out@ == head + children_text(adj, cs, cursor as nat, level + 1, (fuel - 1) as nat),
            decreases count - cursor,
        {
            let next = walker.next(&self.graph);
            let child = match next {
                Some(c) => c,
                None => {
                    proof {
                        assert(false);
                    }
                    node_id
                },
            };
            proof {
                self.graph.lemma_wf();
                assert(child@ == cs[cursor as int]);
                assert(cs.contains(child@));
                assert(has_edge(adj, node_id@, child@));
                assert(bounded(adj, cs[cursor as int], (fuel - 1) as nat));
            }
            self.append_tree(out, child, level + 1, cursor + 1 == count, Ghost((fuel - 1) as nat));
            cursor = cursor + 1;
            proof {
                assert(out@ =~= head + children_text(adj, cs, cursor as nat, level + 1, (fuel - 1) as nat));
            }
        }
        proof {
            assert(fuel > 0);
            assert(out@ =~= start + tree_text(adj, node_id@, level as int, last, fuel));
        }
    }

    /// The root node's id.
    pub fn root_id(&self) -> (r: NodeId)
        ensures
            r@ == self.root(),
    {
        self.root_id
    }

    /// The entity at the root of the graph. The root is never removed, so
    /// this never fails.
    pub fn root_entity(&self) -> (r: Entity)
        requires
            self.wf(),
        ensures
            r == self.graph()[self.root()].value,
    {
        match self.graph.node(self.root_id) {
            Some(e) => *e,
            None => {
                proof {
                    assert(false);
                }
                Entity { id: 0, generation: 0 }
            },
        }
    }

    /// Adds a widget under `parent`, or under the root when no parent is
    /// given; it goes after the parent's other children.
    ///
    /// The parent, if given, must be in the graph, and the graph must have
    /// room for the node.
    pub fn insert_entity(&mut self, entity: Entity, parent: Option<NodeId>) -> (id: NodeId)
        requires
            old(self).wf(),
            old(self).graph().dom().len() + 1 < u32::MAX,
            parent matches Some(p) ==> old(self).graph().dom().contains(p@),
        ensures
            final(self).wf(),
            final(self).root() == old(self).root(),
            !old(self).graph().dom().contains(id@),
            widget_added(
                old(self).graph(),
                final(self).graph(),
                match parent {
                    Some(p) => p@,
                    None => old(self).root(),
                },
                id@,
                entity,
            ),
    {
        let parent_index = match parent {
            Some(p) => p,
            None => self.root_id,
        };
        let id = self.graph.insert_at(entity, Some(parent_index));
        proof {
            let g0 = old(self).graph@.insert(id@, DagNode { value: entity, edges: Seq::empty() });
            let d = choose|d: Child| call_ensures(Child::default, (), d) && self.graph@ == with_edge(g0, parent_index@, id@, d);
            assert(d == Child { order_index: 0 });
            let p = match parent {
                Some(p) => p@,
                None => old(self).root(),
            };
            assert(parent_index@ == p);
            assert(self.graph() == with_edge(g0, p, id@, d));
            // The new id is no child of the parent yet: every child is a node.
            old(self).graph.lemma_wf();
            let cs = children_of(old(self).graph@[p]);
            assert(!cs.contains(id@)) by {
                if cs.contains(id@) {
                    assert(has_edge(adjacency(old(self).graph@), p, id@));
                }
            }
            assert(children_of(g0[p]) =~= cs);
            assert(self.graph() =~= old(self).graph().insert(id@, DagNode { value: entity, edges: Seq::empty() }).insert(
                p,
                DagNode { value: old(self).graph()[p].value, edges: old(self).graph()[p].edges.push((Child { order_index: 0 }, id@)) },
            ));
            // Every widget still hangs under the root, the new one below its parent.
            let adj0 = adjacency(old(self).graph@);
            let adj_leaf = adjacency(g0);
            assert(children_of(g0[id@]) =~= Seq::<u64>::empty());
            assert(adj_leaf =~= adj0.insert(id@, Seq::empty()));
            lemma_with_edge_adjacency(g0, p, id@, d);
            let adj1 = adjacency(self.graph@);
            assert(adj1 == add_child(adj_leaf, p, id@));
            lemma_add_child_sub(adj_leaf, p, id@);
            assert(sub_adjacency(adj0, adj_leaf)) by {
                assert forall|a: u64, b: u64| #[trigger] has_edge(adj0, a, b) implies has_edge(adj_leaf, a, b) by {
                    assert(a != id@);
                }
            }
            let root = old(self).root_id@;
            assert forall|k: u64| #[trigger] self.graph@.dom().contains(k) implies reaches(adj1, root, k) by {
                if old(self).graph@.dom().contains(k) {
                    let q = choose|q: Seq<u64>| path_from_to(adj0, q, root, k);
                    lemma_sub_adjacency_path(adj0, adj_leaf, q);
                    lemma_sub_adjacency_path(adj_leaf, adj1, q);
                    assert(path_from_to(adj1, q, root, k));
                } else {
                    assert(k == id@);
                    let q = choose|q: Seq<u64>| path_from_to(adj0, q, root, p);
                    lemma_sub_adjacency_path(adj0, adj_leaf, q);
                    lemma_sub_adjacency_path(adj_leaf, adj1, q);
                    assert(path_from_to(adj1, q, root, p));
                    assert(adj1.dom().contains(id@));
                    lemma_reaches_then_edge(adj1, root, p, id@);
                }
            }
        }
        id
    }

    /// The entity of a widget node, if the graph holds the node.
    pub fn get_entity(&self, node_id: NodeId) -> (r: Option<Entity>)
        requires
            self.wf(),
        ensures
            r is Some <==> self.graph().dom().contains(node_id@),
            r matches Some(e) ==> e == self.graph()[node_id@].value,
    {
        match self.graph.node(node_id) {
            Some(e) => Some(*e),
            None => None,
        }
    }

    /// The number of children of a widget node, if the graph holds it.
    pub fn child_count(&self, node_id: NodeId) -> (r: Option<usize>)
        requires
            self.wf(),
        ensures
            r is Some <==> self.graph().dom().contains(node_id@),
            r matches Some(n) ==> n == self.graph()[node_id@].edges.len(),
    {
        self.graph.out_edge_len(node_id)
    }

    /// Walks the widgets depth-first, a parent before its children.
    pub fn walk_dfs_pre_order(&self, node_id: NodeId) -> (r: WidgetDfsPreOrderWalk)
        requires
            self.wf(),
        ensures
            r.walkable(self),
            self.graph().dom().contains(node_id@) ==> r.stack() == seq![node_id@],
            !self.graph().dom().contains(node_id@) ==> r.stack() == Seq::<u64>::empty(),
    {
        WidgetDfsPreOrderWalk(self.graph.walk_pre_order(node_id))
    }

    /// Walks the widgets depth-first, children before their parent.
    pub fn walk_dfs_post_order(&self, node_id: NodeId) -> (r: WidgetDfsPostOrderWalk)
        requires
            self.wf(),
        ensures
            r.walkable(self),
            self.graph().dom().contains(node_id@) ==> r.stack() == seq![node_id@],
            !self.graph().dom().contains(node_id@) ==> r.stack() == Seq::<u64>::empty(),
    {
        WidgetDfsPostOrderWalk(self.graph.walk_post_order(node_id))
    }

    /// Walks the children of a widget, in order.
    pub fn walk_children(&self, node_id: NodeId) -> (r: WidgetChildrenWalk)
        ensures
            r.parent() == node_id@,
            r.cursor() == 0,
    {
        WidgetChildrenWalk(self.graph.walk_children(node_id))
    }
}

/// Pre-order walk over the widgets of a [`GuiGraph`].
pub struct WidgetDfsPreOrderWalk(PreOrderWalk<Entity, Child>);

impl WidgetDfsPreOrderWalk {
    pub closed spec fn stack(&self) -> Seq<u64> {
        self.0.stack()
    }

    pub closed spec fn walkable(&self, gui_graph: &GuiGraph) -> bool {
        self.0.walkable(&gui_graph.graph)
    }

    /// The next widget node, a parent before its children.
    pub fn next(&mut self, gui_graph: &GuiGraph) -> (r: Option<NodeId>)
        requires
            gui_graph.wf(),
            old(self).walkable(gui_graph),
        ensures
            final(self).walkable(gui_graph),
            r matches Some(id) ==> gui_graph.graph().dom().contains(id@),
            old(self).stack().len() == 0 ==> r is None && final(self).stack() == old(self).stack(),
            old(self).stack().len() > 0 ==> {
                &&& r matches Some(id) && id@ == old(self).stack().last()
                &&& final(self).stack() == old(self).stack().drop_last() + children_of(
                    gui_graph.graph()[old(self).stack().last()],
                ).reverse()
            },
    {
        self.0.next(&gui_graph.graph)
    }
}

/// Post-order walk over the widgets of a [`GuiGraph`].
pub struct WidgetDfsPostOrderWalk(PostOrderWalk<Entity, Child>);

impl WidgetDfsPostOrderWalk {
    pub closed spec fn stack(&self) -> Seq<u64> {
        self.0.stack()
    }

    pub closed spec fn out(&self) -> Seq<u64> {
        self.0.out()
    }

    pub closed spec fn walkable(&self, gui_graph: &GuiGraph) -> bool {
        self.0.walkable(&gui_graph.graph)
    }

    /// The next widget node, children before their parent.
    pub fn next(&mut self, gui_graph: &GuiGraph) -> (r: Option<NodeId>)
        requires
            gui_graph.wf(),
            old(self).walkable(gui_graph),
        ensures
            final(self).walkable(gui_graph),
            final(self).stack().len() == 0,
            r matches Some(id) ==> gui_graph.graph().dom().contains(id@),
            exists|f: nat| {
                let d = #[trigger] crate::collections::paths::post_drain(
                    crate::collections::ordered_dag::adjacency(gui_graph.graph()),
                    old(self).stack(),
                    old(self).out(),
                    f,
                );
                &&& d.0.len() == 0
                &&& d.1.len() == 0 ==> r is None && final(self).out() == d.1
                &&& d.1.len() > 0 ==> (r matches Some(id) && id@ == d.1.last() && final(self).out() == d.1.drop_last())
            },
    {
        let r = self.0.next(&gui_graph.graph);
        proof {
            let adj = gui_graph.graph.adj();
            let f = choose|f: nat| {
                let d = #[trigger] crate::collections::paths::post_drain(adj, old(self).0.stack(), old(self).0.out(), f);
                &&& d.0.len() == 0
                &&& d.1.len() == 0 ==> r is None && self.0.out() == d.1
                &&& d.1.len() > 0 ==> (r matches Some(id) && id@ == d.1.last() && self.0.out() == d.1.drop_last())
            };
            assert(adj == crate::collections::ordered_dag::adjacency(gui_graph.graph()));
            let d = crate::collections::paths::post_drain(adj, old(self).stack(), old(self).out(), f);
            assert(d.0.len() == 0);
            assert(d.1.len() == 0 ==> r is None && self.out() == d.1);
        }
        r
    }
}

/// Walk over the children of a widget in a [`GuiGraph`].
pub struct WidgetChildrenWalk(ChildrenWalk<Entity, Child>);

impl WidgetChildrenWalk {
    pub closed spec fn parent(&self) -> u64 {
        self.0.parent()
    }

    pub closed spec fn cursor(&self) -> nat {
        self.0.cursor()
    }

    /// The next child, in order.
    pub fn next(&mut self, gui_graph: &GuiGraph) -> (r: Option<NodeId>)
        requires
            gui_graph.wf(),
        ensures
            final(self).parent() == old(self).parent(),
            (gui_graph.graph().dom().contains(old(self).parent()) && old(self).cursor()
                < gui_graph.graph()[old(self).parent()].edges.len()) ==> {
                &&& r matches Some(id) && id@ == children_of(gui_graph.graph()[old(self).parent()])[old(self).cursor() as int]
                &&& final(self).cursor() == old(self).cursor() + 1
            },
            !(gui_graph.graph().dom().contains(old(self).parent()) && old(self).cursor()
                < gui_graph.graph()[old(self).parent()].edges.len()) ==> r is None && final(self).cursor()
                == old(self).cursor(),
    {
        self.0.next(&gui_graph.graph)
    }
}

/// The widget under the mouse cursor, with its node.
#[derive(Debug)]
pub struct HoveredWidget(Option<(Entity, NodeId)>);

impl Default for HoveredWidget {
    /// No widget is hovered.
    fn default() -> (r: Self)
        ensures
            r.widget() is None,
    {
        HoveredWidget(None)
    }
}

impl HoveredWidget {
    /// The hovered widget, if any.
    pub closed spec fn widget(&self) -> Option<(Entity, NodeId)> {
        self.0
    }

    pub fn entity(&self) -> (r: Option<Entity>)
        ensures
            r == (match self.widget() {
                Some((e, _)) => Some(e),
                None => None,
            }),
    {
        match self.0 {
            Some((e, _)) => Some(e),
            None => None,
        }
    }

    pub fn node_id(&self) -> (r: Option<NodeId>)
        ensures
            r == (match self.widget() {
                Some((_, n)) => Some(n),
                None => None,
            }),
    {
        match self.0 {
            Some((_, n)) => Some(n),
            None => None,
        }
    }

    pub fn set(&mut self, entity: Entity, node_id: NodeId)
        ensures
            final(self).widget() == Some((entity, node_id)),
    {
        self.0 = Some((entity, node_id));
    }

    pub fn has_widget(&self) -> (r: bool)
        ensures
            r == self.widget() is Some,
    {
        self.0.is_some()
    }

    /// Takes the widget out, leaving none hovered.
    pub fn clear(&mut self) -> (r: Option<(Entity, NodeId)>)
        ensures
            r == old(self).widget(),
            final(self).widget() is None,
    {
        self.0.take()
    }
}

/// `String::push`: appends one character.
#[verifier::external_body]
fn push_char(s: &mut String, c: char)
    ensures
        final(s)@ == old(s)@.push(c),
{
    s.push(c)
}

/// The indentation that the debug print of the widget tree puts before a
/// node at depth `level`: a vertical bar for each level below the first
/// two, then a corner for the last child or a tee for the others.
pub fn tree_indent(level: i32, last: bool) -> (r: String)
    requires
        level >= i32::MIN + 2,
    ensures
        r@ == indent_text(level as int, last),
{
    let mut indent = String::new();
    let pipe_count: i32 = if level - 2 > 0 { level - 2 } else { 0 };
    let mut i: i32 = 0;
    while i < pipe_count
        invariant
            0 <= i <= pipe_count,
            indent@ == Seq::new(i as nat, |k: int| '│'),
        decreases pipe_count - i,
    {
        push_char(&mut indent, '│');
        i = i + 1;
        proof {
            assert(indent@ =~= Seq::new(i as nat, |k: int| '│'));
        }
    }
    if last {
        push_char(&mut indent, '└');
    } else {
        push_char(&mut indent, '├');
    }
    proof {
        assert(indent@ =~= indent_text(level as int, last));
    }
    indent
}

/// The indentation before a node at depth `level` in the debug print of
/// the widget tree: a vertical bar for each level below the first two, then
/// a corner for the last child or a tee for the others.
pub open spec fn indent_text(level: int, last: bool) -> Seq<char> {
    Seq::new((if level - 2 > 0 { level - 2 } else { 0 }) as nat, |i: int| '│').push(
        if last {
            '└'
        } else {
            '├'
        },
    )
}

/// The debug print of the tree under `key` at depth `level`: the node's
/// line, then the trees of its children one level deeper, looking `fuel`
/// levels down at most.
pub open spec fn tree_text(adj: Map<u64, Seq<u64>>, key: u64, level: int, last: bool, fuel: nat) -> Seq<char>
    decreases fuel, 0nat,
{
    indent_text(level, last) + node_id_text(key) + "\n"@ + if fuel == 0 {
        Seq::empty()
    } else {
        children_text(adj, adj[key], adj[key].len(), level + 1, (fuel - 1) as nat)
    }
}

/// The debug print of the trees under the first `k` of the children `cs`,
/// the last of all the children marked as such.
pub open spec fn children_text(adj: Map<u64, Seq<u64>>, cs: Seq<u64>, k: nat, level: int, fuel: nat) -> Seq<char>
    decreases fuel, k + 1,
{
    if k == 0 {
        Seq::empty()
    } else {
        children_text(adj, cs, (k - 1) as nat, level, fuel) + tree_text(adj, cs[k - 1], level, k == cs.len(), fuel)
    }
}

} // verus!
