use rengine::collections::ordered_dag::{NodeId, OrderedGraphError, Walker};
use rengine::collections::OrderedDag;

#[test]
fn test_check_cycle() {
    let mut graph: OrderedDag<i64, i64> = OrderedDag::new();

    let node_1 = graph.insert(1);
    let node_2 = graph.insert(2);
    graph.set_edge(node_1, node_2, 0).unwrap();
    assert_eq!(graph.check_cycle(node_1), None);

    graph.set_edge_unchecked(node_2, node_1, 0).unwrap();
    println!("{}", graph.string());
    assert!(graph.check_cycle(node_1).is_some());
}

#[test]
fn set_edge_refuses_cycle() {
    let mut graph: OrderedDag<i64, i64> = OrderedDag::new();

    let node_1 = graph.insert(1);
    let node_2 = graph.insert(2);
    let result = graph.set_edge(node_1, node_2, 0);
    assert_eq!(result, Ok(()));
    assert_eq!(graph.out_edge_len(node_1), Some(1));

    // Set edge fails when a cycle is detected.
    let result = graph.set_edge(node_2, node_1, 0);
    assert_eq!(result, Err(OrderedGraphError::Cycle));
    assert_eq!(graph.out_edge_len(node_2), Some(0));
}

#[test]
fn set_edge_refuses_self_loop_and_longer_cycle() {
    let mut graph: OrderedDag<i64, i64> = OrderedDag::new();
    let a = graph.insert(1);
    let b = graph.insert(2);
    let c = graph.insert(3);
    assert_eq!(graph.set_edge(a, a, 0), Err(OrderedGraphError::Cycle));
    assert_eq!(graph.out_edge_len(a), Some(0));
    assert_eq!(graph.set_edge(a, b, 0), Ok(()));
    assert_eq!(graph.set_edge(b, c, 0), Ok(()));
    assert_eq!(graph.set_edge(c, a, 0), Err(OrderedGraphError::Cycle));
    assert_eq!(graph.out_edge_len(c), Some(0));
    // A diamond is no cycle.
    assert_eq!(graph.set_edge(a, c, 0), Ok(()));
    assert_eq!(graph.out_edge_len(a), Some(2));
}

#[test]
fn set_edge_missing_node() {
    let mut graph: OrderedDag<i64, i64> = OrderedDag::new();
    let mut other: OrderedDag<i64, i64> = OrderedDag::new();
    let a = graph.insert(1);
    let _ = other.insert(1);
    let foreign = other.insert(2);
    assert_eq!(graph.set_edge(a, foreign, 0), Err(OrderedGraphError::NodeDoesNotExist));
    assert_eq!(graph.set_edge(foreign, a, 0), Err(OrderedGraphError::NodeDoesNotExist));
    assert_eq!(graph.out_edge_len(a), Some(0));
    assert_eq!(graph.set_edge_unchecked(a, foreign, 0), None);
    assert_eq!(graph.out_edge_len(foreign), None);
}

#[test]
fn set_edge_updates_existing_edge_in_place() {
    let mut graph: OrderedDag<&'static str, i64> = OrderedDag::new();
    let a = graph.insert("a");
    let b = graph.insert("b");
    let c = graph.insert("c");
    assert_eq!(graph.set_edge_unchecked(a, b, 5), Some(0));
    assert_eq!(graph.set_edge_unchecked(a, c, 6), Some(1));
    assert_eq!(graph.set_edge_unchecked(a, b, 7), Some(0));
    assert_eq!(graph.out_edge_len(a), Some(2));
}

#[test]
fn out_edge_len_counts() {
    let mut graph: OrderedDag<i64, i64> = OrderedDag::new();

    let node_1 = graph.insert(1);
    let node_2 = graph.insert(2);
    let node_3 = graph.insert(3);

    graph.set_edge(node_1, node_2, 0).unwrap();
    graph.set_edge(node_1, node_3, 0).unwrap();

    assert_eq!(graph.out_edge_len(node_1), Some(2));
    assert_eq!(graph.out_edge_len(node_2), Some(0));
    assert_eq!(graph.out_edge_len(node_3), Some(0));
}

#[test]
fn len_and_is_empty() {
    let mut graph: OrderedDag<i64, i64> = OrderedDag::new();
    assert!(graph.is_empty());
    assert_eq!(graph.len(), 0);
    graph.insert(1);
    assert!(!graph.is_empty());
    graph.insert(2);
    graph.insert(3);
    assert_eq!(graph.len(), 3);
}

#[test]
fn node_and_node_mut() {
    let mut graph: OrderedDag<i64, i64> = OrderedDag::new();

    let node_1 = graph.insert(1);
    assert_eq!(graph.node(node_1), Some(&1));
    *graph.node_mut(node_1).unwrap() = 2;
    assert_eq!(graph.node(node_1), Some(&2));

    let mut other: OrderedDag<i64, i64> = OrderedDag::new();
    let _ = other.insert(7);
    let foreign = other.insert(8);
    assert_eq!(graph.node(foreign), None);
    assert!(graph.node_mut(foreign).is_none());
}

#[test]
fn insert_at_makes_child() {
    let mut graph: OrderedDag<&'static str, i64> = OrderedDag::new();
    let root = graph.insert_at("root", None);
    let child = graph.insert_at("child", Some(root));
    assert_eq!(graph.out_edge_len(root), Some(1));
    assert_eq!(graph.out_edge_len(child), Some(0));
    let mut walker = graph.walk_children(root);
    assert_eq!(walker.next(&graph), Some(child));
    assert_eq!(walker.next(&graph), None);
}

fn build_tree() -> (OrderedDag<&'static str, i64>, NodeId) {
    //       a
    //      / \
    //     b   c
    //    / \
    //   d   e
    let mut graph: OrderedDag<&'static str, i64> = OrderedDag::new();
    let node_1 = graph.insert("a");
    let node_2 = graph.insert("b");
    let node_3 = graph.insert("c");
    let node_4 = graph.insert("d");
    let node_5 = graph.insert("e");
    graph.set_edge(node_1, node_2, 0).unwrap();
    graph.set_edge(node_1, node_3, 0).unwrap();
    graph.set_edge(node_2, node_4, 0).unwrap();
    graph.set_edge(node_2, node_5, 0).unwrap();
    (graph, node_1)
}

#[test]
fn walk_pre_order_abdec() {
    let (graph, node_1) = build_tree();
    let mut walker = graph.walk_pre_order(node_1);
    let mut result = String::new();
    while let Some(node_id) = walker.next(&graph) {
        result.push_str(graph.node(node_id).unwrap());
    }
    assert_eq!(result.as_str(), "abdec");
}

#[test]
fn walk_post_order_debca() {
    let (graph, node_1) = build_tree();
    let mut walker = graph.walk_post_order(node_1);
    let mut result = String::new();
    while let Some(node_id) = walker.next(&graph) {
        result.push_str(graph.node(node_id).unwrap());
    }
    assert_eq!(result.as_str(), "debca");
}

#[test]
fn walk_children_bc() {
    let (graph, node_1) = build_tree();
    let mut walker = graph.walk_children(node_1);
    let mut result = String::new();
    while let Some(node_id) = walker.next(&graph) {
        result.push_str(graph.node(node_id).unwrap());
    }
    assert_eq!(result.as_str(), "bc");
}

#[test]
fn walks_of_missing_node_are_empty() {
    let (graph, _) = build_tree();
    let mut other: OrderedDag<&'static str, i64> = OrderedDag::new();
    for _ in 0..6 {
        other.insert("x");
    }
    let foreign = other.insert("y");
    assert_eq!(graph.walk_pre_order(foreign).next(&graph), None);
    assert_eq!(graph.walk_post_order(foreign).next(&graph), None);
    assert_eq!(graph.walk_children(foreign).next(&graph), None);
}

#[test]
fn check_cycle_reports_reachable_cycle() {
    let mut graph: OrderedDag<i64, i64> = OrderedDag::new();
    let a = graph.insert(1);
    let b = graph.insert(2);
    let c = graph.insert(3);
    graph.set_edge_unchecked(a, b, 0).unwrap();
    graph.set_edge_unchecked(b, c, 0).unwrap();
    graph.set_edge_unchecked(c, b, 0).unwrap();
    // The search from a goes a, b, c and meets grey b at c.
    assert_eq!(graph.check_cycle(a), Some(c));
    // From c it goes c, b and meets grey c at b.
    assert_eq!(graph.check_cycle(c), Some(b));
}

#[test]
fn check_cycle_returns_node_meeting_grey_child() {
    let mut graph: OrderedDag<i64, i64> = OrderedDag::new();
    let n1 = graph.insert(1);
    let n2 = graph.insert(2);
    graph.set_edge_unchecked(n1, n2, 0).unwrap();
    graph.set_edge_unchecked(n2, n1, 0).unwrap();
    assert_eq!(graph.check_cycle(n1), Some(n2));
    assert_eq!(graph.check_cycle(n2), Some(n1));
}

#[test]
fn check_cycle_gives_up_at_finished_child() {
    // a -> b, a -> c, c -> b, c -> d, d -> c: at c the search meets
    // finished b first and gives up on c, so the cycle c -> d -> c is missed.
    let mut graph: OrderedDag<i64, i64> = OrderedDag::new();
    let a = graph.insert(1);
    let b = graph.insert(2);
    let c = graph.insert(3);
    let d = graph.insert(4);
    graph.set_edge_unchecked(a, b, 0).unwrap();
    graph.set_edge_unchecked(a, c, 0).unwrap();
    graph.set_edge_unchecked(c, b, 0).unwrap();
    graph.set_edge_unchecked(c, d, 0).unwrap();
    graph.set_edge_unchecked(d, c, 0).unwrap();
    assert_eq!(graph.check_cycle(a), None);
    assert_eq!(graph.check_cycle(c), Some(d));
}

#[test]
fn check_cycle_meets_node_left_unfinished() {
    // Acyclic: a -> x, a -> u, a -> w, u -> x, w -> u. The search gives up
    // on u at finished x, leaving u grey, then meets u from w.
    let mut graph: OrderedDag<i64, i64> = OrderedDag::new();
    let a = graph.insert(1);
    let x = graph.insert(2);
    let u = graph.insert(3);
    let w = graph.insert(4);
    graph.set_edge(a, x, 0).unwrap();
    graph.set_edge(a, u, 0).unwrap();
    graph.set_edge(a, w, 0).unwrap();
    graph.set_edge(u, x, 0).unwrap();
    assert_eq!(graph.set_edge(w, u, 0), Ok(()));
    assert_eq!(graph.check_cycle(a), Some(w));
}

#[test]
fn string_lists_nodes() {
    let mut graph: OrderedDag<i64, i64> = OrderedDag::new();
    let a = graph.insert(1);
    let b = graph.insert(2);
    let c = graph.insert(3);
    graph.set_edge(a, b, 0).unwrap();
    graph.set_edge(a, c, 0).unwrap();
    graph.set_edge(b, c, 0).unwrap();
    let text = graph.string();
    let lines: Vec<&str> = text.lines().collect();
    assert_eq!(lines.len(), 5);
    // Slot map keys start at slot 1, version 1.
    assert_eq!(lines[0], "NodeId(1v1)");
    assert_eq!(lines[1], "  -> NodeId(2v1)");
    assert_eq!(lines[2], "  -> NodeId(3v1)");
    assert_eq!(lines[3], "NodeId(2v1) -> NodeId(3v1)");
    assert_eq!(lines[4], "NodeId(3v1) ->");
    assert_eq!(text, "NodeId(1v1)\n  -> NodeId(2v1)\n  -> NodeId(3v1)\nNodeId(2v1) -> NodeId(3v1)\nNodeId(3v1) ->\n");
    let _ = (a, b, c);
}

#[test]
fn error_descriptions() {
    assert_eq!(OrderedGraphError::Cycle.description(), "graph detected cycle between nodes");
    assert_eq!(
        OrderedGraphError::NodeDoesNotExist.description(),
        "attempt to create edge between nodes that don't exist"
    );
    assert_eq!(OrderedGraphError::Cycle.to_string(), "Ordered graph cycle error");
    assert_eq!(OrderedGraphError::NodeDoesNotExist.to_string(), "Ordered graph node does not exist error");
}

fn pre_order_string(graph: &OrderedDag<&'static str, i64>, start: NodeId) -> String {
    let mut walker = graph.walk_pre_order(start);
    let mut result = String::new();
    while let Some(node_id) = walker.next(graph) {
        result.push_str(graph.node(node_id).unwrap());
    }
    result
}

#[test]
fn sort_orders_children_by_edge_value() {
    //        a
    //       /|\
    //     23 11 7
    //     /  |   \
    //    b   c    d
    let mut graph: OrderedDag<&'static str, i64> = OrderedDag::new();
    let node_1 = graph.insert("a");
    let node_2 = graph.insert("b");
    let node_3 = graph.insert("c");
    let node_4 = graph.insert("d");
    graph.set_edge(node_1, node_2, 23).unwrap();
    graph.set_edge(node_1, node_3, 11).unwrap();
    graph.set_edge(node_1, node_4, 7).unwrap();
    assert_eq!(pre_order_string(&graph, node_1), "abcd");

    graph.sort();
    assert_eq!(pre_order_string(&graph, node_1), "adcb");

    // Move "b" to the front
    graph.set_edge(node_1, node_2, 6).unwrap();
    graph.sort();
    assert_eq!(pre_order_string(&graph, node_1), "abdc");
}

#[test]
fn sort_breaks_ties_by_child_id() {
    let mut graph: OrderedDag<&'static str, i64> = OrderedDag::new();
    let root = graph.insert("r");
    let x = graph.insert("x");
    let y = graph.insert("y");
    let z = graph.insert("z");
    // Equal edge values: the children come in id order after sorting.
    graph.set_edge(root, z, 5).unwrap();
    graph.set_edge(root, x, 5).unwrap();
    graph.set_edge(root, y, 5).unwrap();
    assert_eq!(pre_order_string(&graph, root), "rzxy");
    graph.sort();
    assert_eq!(pre_order_string(&graph, root), "rxyz");
    assert!(x < y && y < z);
}

#[test]
fn sort_keeps_edges_and_acyclicity() {
    let mut graph: OrderedDag<&'static str, i64> = OrderedDag::new();
    let a = graph.insert("a");
    let b = graph.insert("b");
    let c = graph.insert("c");
    graph.set_edge(a, b, 3).unwrap();
    graph.set_edge(a, c, 1).unwrap();
    graph.set_edge(b, c, 0).unwrap();
    graph.sort();
    assert_eq!(graph.out_edge_len(a), Some(2));
    assert_eq!(graph.out_edge_len(b), Some(1));
    assert_eq!(graph.out_edge_len(c), Some(0));
    assert_eq!(graph.len(), 3);
    // Still refuses the edge that would close a cycle.
    assert_eq!(graph.set_edge(c, a, 0), Err(OrderedGraphError::Cycle));
    assert_eq!(pre_order_string(&graph, a), "acbc");
}

#[test]
fn default_graph_is_empty() {
    let graph: OrderedDag<i64, i64> = OrderedDag::default();
    assert!(graph.is_empty());
    assert_eq!(graph.len(), 0);
    assert_eq!(graph.string(), "");
}

#[test]
fn refused_edge_leaves_graph_unchanged() {
    let mut graph: OrderedDag<i64, i64> = OrderedDag::new();
    let a = graph.insert(1);
    let b = graph.insert(2);
    let c = graph.insert(3);
    graph.set_edge(a, b, 4).unwrap();
    graph.set_edge(b, c, 5).unwrap();
    graph.set_edge(a, c, 6).unwrap();
    let before = graph.string();
    assert_eq!(graph.set_edge(c, a, 0), Err(OrderedGraphError::Cycle));
    assert_eq!(graph.set_edge(c, b, 0), Err(OrderedGraphError::Cycle));
    assert_eq!(graph.string(), before);
    assert_eq!(pre_order_string_i64(&graph, a), vec![1, 2, 3, 3]);
}

fn pre_order_string_i64(graph: &OrderedDag<i64, i64>, start: NodeId) -> Vec<i64> {
    let mut walker = graph.walk_pre_order(start);
    let mut out = Vec::new();
    while let Some(node_id) = walker.next(graph) {
        out.push(*graph.node(node_id).unwrap());
    }
    out
}

#[test]
fn null_id_is_no_node() {
    let mut g: OrderedDag<i64, i64> = OrderedDag::new();
    let n1 = g.insert(1);
    assert_eq!(g.node(n1), Some(&1));
    assert_eq!(g.node(NodeId::default()), None);
    *g.node_mut(n1).unwrap() = 2;
    assert_eq!(g.node(n1), Some(&2));
    assert_eq!(g.len(), 1);
    assert!(g.node_mut(NodeId::default()).is_none());
    let n2 = g.insert(2);
    let n3 = g.insert(3);
    g.set_edge(n1, n2, 0).unwrap();
    g.set_edge(n1, n3, 0).unwrap();
    assert_eq!(g.out_edge_len(n1), Some(2));
    assert_eq!(g.out_edge_len(n2), Some(0));
    assert_eq!(g.out_edge_len(n3), Some(0));
    assert_eq!(g.out_edge_len(NodeId::default()), None);
    assert_ne!(n1, NodeId::default());
}

#[test]
fn string_shows_multi_digit_ids() {
    let mut graph: OrderedDag<i64, i64> = OrderedDag::new();
    let mut last = graph.insert(0);
    for i in 1..12 {
        last = graph.insert(i);
    }
    let text = graph.string();
    let lines: Vec<&str> = text.lines().collect();
    assert_eq!(lines.len(), 12);
    assert_eq!(lines[9], "NodeId(10v1) ->");
    assert_eq!(lines[11], "NodeId(12v1) ->");
    let _ = last;
}

#[test]
fn set_edge_on_graph_with_cycle_refuses_only_closing_edges() {
    let mut graph: OrderedDag<i64, i64> = OrderedDag::new();
    let a = graph.insert(1);
    let b = graph.insert(2);
    let c = graph.insert(3);
    let leaf = graph.insert(4);
    graph.set_edge_unchecked(a, b, 0).unwrap();
    graph.set_edge_unchecked(b, c, 0).unwrap();
    graph.set_edge_unchecked(c, b, 0).unwrap();
    // Neither edge closes a cycle, though one is reachable from a.
    assert_eq!(graph.set_edge(a, b, 9), Ok(()));
    assert_eq!(graph.set_edge(a, leaf, 1), Ok(()));
    assert_eq!(graph.out_edge_len(a), Some(2));
    // b reaches c: re-setting c -> b is refused and changes nothing.
    let before = graph.string();
    assert_eq!(graph.set_edge(c, b, 5), Err(OrderedGraphError::Cycle));
    assert_eq!(graph.set_edge(leaf, a, 5), Err(OrderedGraphError::Cycle));
    assert_eq!(graph.string(), before);
    assert_eq!(graph.out_edge_len(c), Some(1));
}
