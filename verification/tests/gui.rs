use rengine::collections::ordered_dag::NodeId;
use rengine::gui::layout::LayoutDirty;
use rengine::gui::mesh::GuiMeshBuilder;
use rengine::gui::systems::{handle_pointer_event, PointerEvent, PressedWidget, WidgetEvent, WidgetEventKind};
use rengine::gui::text::{LayoutSettings, TextAlignHorizontal, TextAlignVertical};
use rengine::gui::widget::WidgetCounter;
use rengine::gui::{tree_indent, Entity, GuiGraph, HoveredWidget};

fn walk_pre(graph: &GuiGraph, start: NodeId) -> Vec<u32> {
    let mut walker = graph.walk_dfs_pre_order(start);
    let mut out = Vec::new();
    while let Some(node_id) = walker.next(graph) {
        out.push(graph.get_entity(node_id).unwrap().id());
    }
    out
}

fn walk_post(graph: &GuiGraph, start: NodeId) -> Vec<u32> {
    let mut walker = graph.walk_dfs_post_order(start);
    let mut out = Vec::new();
    while let Some(node_id) = walker.next(graph) {
        out.push(graph.get_entity(node_id).unwrap().id());
    }
    out
}

#[test]
fn gui_graph_starts_with_root() {
    let root = Entity::new(7, 1);
    let graph = GuiGraph::with_root(root);
    assert_eq!(graph.root_entity(), root);
    assert_eq!(graph.get_entity(graph.root_id()), Some(root));
    assert_eq!(graph.child_count(graph.root_id()), Some(0));
    assert_eq!(walk_pre(&graph, graph.root_id()), vec![7]);
}

#[test]
fn gui_graph_insert_under_root_and_parent() {
    //      0
    //     / \
    //    1   2
    //    |
    //    3
    let mut graph = GuiGraph::with_root(Entity::new(0, 0));
    let root = graph.root_id();
    let n1 = graph.insert_entity(Entity::new(1, 0), None);
    let n2 = graph.insert_entity(Entity::new(2, 0), Some(root));
    let n3 = graph.insert_entity(Entity::new(3, 5), Some(n1));
    assert_eq!(graph.child_count(root), Some(2));
    assert_eq!(graph.child_count(n1), Some(1));
    assert_eq!(graph.child_count(n2), Some(0));
    assert_eq!(graph.get_entity(n3), Some(Entity::new(3, 5)));
    assert_eq!(walk_pre(&graph, root), vec![0, 1, 3, 2]);
    assert_eq!(walk_post(&graph, root), vec![3, 1, 2, 0]);
    assert_eq!(walk_pre(&graph, n1), vec![1, 3]);

    let mut children = graph.walk_children(root);
    assert_eq!(children.next(&graph), Some(n1));
    assert_eq!(children.next(&graph), Some(n2));
    assert_eq!(children.next(&graph), None);
}

#[test]
fn gui_graph_foreign_node_is_absent() {
    let graph = GuiGraph::with_root(Entity::new(0, 0));
    let mut other = GuiGraph::with_root(Entity::new(9, 9));
    let mut last = other.root_id();
    for i in 0..3 {
        last = other.insert_entity(Entity::new(10 + i, 0), None);
    }
    assert_eq!(graph.get_entity(last), None);
    assert_eq!(graph.child_count(last), None);
    assert_eq!(walk_pre(&graph, last), Vec::<u32>::new());
}

#[test]
fn entity_accessors() {
    let e = Entity::new(42, -3);
    assert_eq!(e.id(), 42);
    assert_eq!(e.generation(), -3);
}

#[test]
fn tree_indent_levels() {
    assert_eq!(tree_indent(0, false), "├");
    assert_eq!(tree_indent(1, true), "└");
    assert_eq!(tree_indent(2, false), "├");
    assert_eq!(tree_indent(3, true), "│└");
    assert_eq!(tree_indent(5, false), "│││├");
    assert_eq!(tree_indent(-4, true), "└");
}

#[test]
fn hovered_widget_set_and_clear() {
    let mut graph = GuiGraph::with_root(Entity::new(0, 0));
    let node = graph.insert_entity(Entity::new(1, 0), None);
    let mut hovered = HoveredWidget::default();
    assert!(!hovered.has_widget());
    assert_eq!(hovered.entity(), None);
    hovered.set(Entity::new(1, 0), node);
    assert!(hovered.has_widget());
    assert_eq!(hovered.entity(), Some(Entity::new(1, 0)));
    assert_eq!(hovered.node_id(), Some(node));
    assert_eq!(hovered.clear(), Some((Entity::new(1, 0), node)));
    assert!(!hovered.has_widget());
    assert_eq!(hovered.clear(), None);
}

#[test]
fn pressed_widget_set_and_clear() {
    let mut graph = GuiGraph::with_root(Entity::new(0, 0));
    let node = graph.insert_entity(Entity::new(2, 1), None);
    let mut pressed = PressedWidget::default();
    assert_eq!(pressed.node_id(), None);
    pressed.set(Entity::new(2, 1), node);
    assert_eq!(pressed.entity(), Some(Entity::new(2, 1)));
    assert_eq!(pressed.node_id(), Some(node));
    assert_eq!(pressed.clear(), Some((Entity::new(2, 1), node)));
    assert!(!pressed.has_widget());
}

#[test]
fn layout_dirty_take_once() {
    let graph = GuiGraph::with_root(Entity::new(0, 0));
    let root = graph.root_id();
    let mut dirty = LayoutDirty::default();
    assert_eq!(dirty.node_id(), None);
    dirty.set_node_id(root);
    assert_eq!(dirty.node_id(), Some(root));
    assert_eq!(dirty.take_node_id(), Some(root));
    assert_eq!(dirty.take_node_id(), None);
    let marked = LayoutDirty::with_node_id(root);
    assert_eq!(marked.node_id(), Some(root));
}

#[test]
fn mesh_builder_quad_indices() {
    let builder: GuiMeshBuilder<[f32; 2]> = GuiMeshBuilder::new();
    let builder = builder
        .quad([0.0, 0.0], [1.0, 0.0], [1.0, 1.0], [0.0, 1.0])
        .quad([2.0, 0.0], [3.0, 0.0], [3.0, 1.0], [2.0, 1.0]);
    let (vertices, indices) = builder.into_parts();
    assert_eq!(vertices.len(), 8);
    assert_eq!(vertices[4], [2.0, 0.0]);
    assert_eq!(indices, vec![0, 1, 2, 0, 2, 3, 4, 5, 6, 4, 6, 7]);
}

#[test]
fn mesh_builder_empty() {
    let builder: GuiMeshBuilder<u8> = GuiMeshBuilder::new();
    let (vertices, indices) = builder.into_parts();
    assert!(vertices.is_empty());
    assert!(indices.is_empty());
}

#[test]
fn widget_counter_counts() {
    let mut counter = WidgetCounter::default();
    assert_eq!(counter.inner(), 0);
    counter.incr();
    counter.incr();
    assert_eq!(counter.inner(), 2);
    assert_eq!(format!("Widget {}", counter.inner()), "Widget 2");
}

#[test]
fn debug_text_draws_tree() {
    //      0
    //     / \
    //    1   2
    //    |
    //    3
    //    |
    //    4
    let mut graph = GuiGraph::with_root(Entity::new(0, 0));
    let root = graph.root_id();
    let n1 = graph.insert_entity(Entity::new(1, 0), None);
    let _n2 = graph.insert_entity(Entity::new(2, 0), Some(root));
    let n3 = graph.insert_entity(Entity::new(3, 0), Some(n1));
    let _n4 = graph.insert_entity(Entity::new(4, 0), Some(n3));
    assert_eq!(
        graph.debug_text(),
        "├NodeId(1v1)\n├NodeId(2v1)\n└NodeId(4v1)\n│└NodeId(5v1)\n└NodeId(3v1)\n"
    );
}

#[test]
fn debug_text_of_lone_root() {
    let graph = GuiGraph::with_root(Entity::new(0, 0));
    assert_eq!(graph.debug_text(), "├NodeId(1v1)\n");
}

#[test]
fn pointer_hover_over_and_out() {
    let mut graph = GuiGraph::with_root(Entity::new(0, 0));
    let a = graph.insert_entity(Entity::new(1, 0), None);
    let b = graph.insert_entity(Entity::new(2, 0), None);
    let ea = Entity::new(1, 0);
    let eb = Entity::new(2, 0);
    let mut hovered = HoveredWidget::default();
    let mut pressed = PressedWidget::default();

    let ev = handle_pointer_event(&mut hovered, &mut pressed, PointerEvent::CursorMoved, Some((ea, a)));
    assert_eq!(ev, Some(WidgetEvent { entity: ea, node_id: a, kind: WidgetEventKind::HoverOver }));
    assert_eq!(hovered.node_id(), Some(a));

    // Moving within the same widget sends nothing.
    let ev = handle_pointer_event(&mut hovered, &mut pressed, PointerEvent::CursorMoved, Some((ea, a)));
    assert_eq!(ev, None);

    // Moving onto another widget hovers it.
    let ev = handle_pointer_event(&mut hovered, &mut pressed, PointerEvent::CursorMoved, Some((eb, b)));
    assert_eq!(ev, Some(WidgetEvent { entity: eb, node_id: b, kind: WidgetEventKind::HoverOver }));

    // Moving off every widget ends the hover.
    let ev = handle_pointer_event(&mut hovered, &mut pressed, PointerEvent::CursorMoved, None);
    assert_eq!(ev, Some(WidgetEvent { entity: eb, node_id: b, kind: WidgetEventKind::HoverOut }));
    assert!(!hovered.has_widget());
    let ev = handle_pointer_event(&mut hovered, &mut pressed, PointerEvent::CursorMoved, None);
    assert_eq!(ev, None);
    assert!(!pressed.has_widget());
}

#[test]
fn pointer_press_and_release() {
    let mut graph = GuiGraph::with_root(Entity::new(0, 0));
    let a = graph.insert_entity(Entity::new(1, 0), None);
    let b = graph.insert_entity(Entity::new(2, 0), None);
    let ea = Entity::new(1, 0);
    let eb = Entity::new(2, 0);
    let mut hovered = HoveredWidget::default();
    let mut pressed = PressedWidget::default();

    let ev = handle_pointer_event(&mut hovered, &mut pressed, PointerEvent::ButtonPressed, Some((ea, a)));
    assert_eq!(ev, Some(WidgetEvent { entity: ea, node_id: a, kind: WidgetEventKind::Pressed }));
    assert_eq!(pressed.entity(), Some(ea));
    let ev = handle_pointer_event(&mut hovered, &mut pressed, PointerEvent::ButtonReleased, Some((ea, a)));
    assert_eq!(ev, Some(WidgetEvent { entity: ea, node_id: a, kind: WidgetEventKind::Released }));
    assert!(!pressed.has_widget());

    // Released over another widget than the pressed one: no release event.
    handle_pointer_event(&mut hovered, &mut pressed, PointerEvent::ButtonPressed, Some((ea, a)));
    let ev = handle_pointer_event(&mut hovered, &mut pressed, PointerEvent::ButtonReleased, Some((eb, b)));
    assert_eq!(ev, None);
    assert!(!pressed.has_widget());

    // Button events over no widget change nothing.
    handle_pointer_event(&mut hovered, &mut pressed, PointerEvent::ButtonPressed, Some((eb, b)));
    let ev = handle_pointer_event(&mut hovered, &mut pressed, PointerEvent::ButtonReleased, None);
    assert_eq!(ev, None);
    assert_eq!(pressed.entity(), Some(eb));
    assert!(!hovered.has_widget());
}

#[test]
fn defaults_are_empty() {
    let builder: GuiMeshBuilder<u8> = GuiMeshBuilder::default();
    assert_eq!(builder.vertex_count(), 0);
    assert_eq!(builder.next_index(), 0);
    assert!(!HoveredWidget::default().has_widget());
    assert!(!PressedWidget::default().has_widget());
    assert_eq!(LayoutDirty::default().node_id(), None);
}

#[test]
fn text_layout_defaults_to_centred() {
    let settings = LayoutSettings::default();
    assert_eq!(settings.align_v, TextAlignVertical::Center);
    assert_eq!(settings.align_h, TextAlignHorizontal::Center);
}

#[test]
fn walk_from_root_reaches_every_widget() {
    let mut graph = GuiGraph::with_root(Entity::new(0, 0));
    let a = graph.insert_entity(Entity::new(1, 0), None);
    let b = graph.insert_entity(Entity::new(2, 0), Some(a));
    let _c = graph.insert_entity(Entity::new(3, 0), Some(b));
    let _d = graph.insert_entity(Entity::new(4, 0), None);
    let _e = graph.insert_entity(Entity::new(5, 0), Some(a));
    let mut seen = walk_pre(&graph, graph.root_id());
    seen.sort();
    assert_eq!(seen, vec![0, 1, 2, 3, 4, 5]);
    assert_eq!(graph.len(), 6);
}

#[test]
fn insert_entity_appends_last_child() {
    let mut graph = GuiGraph::with_root(Entity::new(0, 0));
    let root = graph.root_id();
    let a = graph.insert_entity(Entity::new(1, 0), None);
    let b = graph.insert_entity(Entity::new(2, 0), Some(root));
    let c = graph.insert_entity(Entity::new(3, 0), None);
    assert_eq!(graph.get_entity(c), Some(Entity::new(3, 0)));
    let mut children = graph.walk_children(root);
    assert_eq!(children.next(&graph), Some(a));
    assert_eq!(children.next(&graph), Some(b));
    assert_eq!(children.next(&graph), Some(c));
    assert_eq!(children.next(&graph), None);
    assert_eq!(graph.root_id(), root);
}
