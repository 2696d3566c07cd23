use fast_graph::algorithms::bfs::{bfs_from, IterBreadthFirst};
use fast_graph::algorithms::dfs::{dfs_from, IterDepthFirst};
use fast_graph::categories::{Categorized, CategorizedGraphError};
use fast_graph::{CategorizedGraph, Graph, GraphError, GraphInterface, NodeID, SlotArena};

/// A freed slot is reused, but the stale key neither equals the new key nor
/// resolves to the new value.
#[test]
fn arena_stale_key_never_resolves_again() {
    let mut arena: SlotArena<u64> = SlotArena::new();
    let first = arena.insert(11);
    assert_eq!(arena.remove(first), Some(11));
    let second = arena.insert(22);
    // same slot, new generation
    assert_eq!(second.idx, first.idx);
    assert_ne!(second, first);
    assert_eq!(arena.get(first), None);
    assert_eq!(arena.get(second), Some(&22));
    assert_eq!(arena.remove(first), None);
    assert_eq!(arena.len(), 1);
}

/// The graph-level reading of the same guarantee: a removed node's identifier
/// stays invalid after the slot is reused.
#[test]
fn graph_stale_node_id_fails_lookup() {
    let mut graph: Graph<&str, ()> = Graph::new();
    let a = graph.add_node("a");
    graph.remove_node(a).unwrap();
    let b = graph.add_node("b");
    assert_ne!(a, b);
    assert!(graph.node(a).is_err());
    assert_eq!(graph.node(b).unwrap().data, "b");
}

#[test]
fn node_id_u64_round_trip() {
    let mut graph: Graph<u8, ()> = Graph::new();
    graph.add_node(0);
    graph.remove_node(graph.nodes()[0]).unwrap();
    let id = graph.add_node(7);
    let packed = id.to_u64();
    assert_eq!(NodeID::from_u64(packed), id);
    let edge = graph.add_edge(id, id, ());
    assert_eq!(fast_graph::EdgeID::from_u64(edge.to_u64()), edge);
}

/// Removing a node removes every edge touching it, in both directions, and
/// purges those edges from the surviving endpoints' adjacency lists.
#[test]
fn remove_node_cascades_both_directions() {
    let mut graph: Graph<i32, &str> = Graph::new();
    let a = graph.add_node(1);
    let b = graph.add_node(2);
    let c = graph.add_node(3);
    let ab = graph.add_edge(a, b, "ab");
    let ba = graph.add_edge(b, a, "ba");
    let bc = graph.add_edge(b, c, "bc");
    assert_eq!(graph.edge_count(), 3);

    graph.remove_node(b).unwrap();

    assert!(graph.node(b).is_err());
    assert!(graph.edge(ab).is_err());
    assert!(graph.edge(ba).is_err());
    assert!(graph.edge(bc).is_err());
    assert_eq!(graph.edge_count(), 0);
    assert!(graph.node(a).unwrap().connections.is_empty());
    assert!(graph.node(c).unwrap().connections.is_empty());
    // removing it again reports the error
    assert_eq!(graph.remove_node(b), Err(GraphError::NodeNotFound));
}

/// Removing an edge retracts it from both endpoints before deleting it.
#[test]
fn remove_edge_retracts_from_endpoints() {
    let mut graph: Graph<i32, ()> = Graph::new();
    let a = graph.add_node(1);
    let b = graph.add_node(2);
    let e1 = graph.add_edge(a, b, ());
    let e2 = graph.add_edge(b, a, ());
    graph.remove_edge(e1).unwrap();
    assert!(graph.edge(e1).is_err());
    assert_eq!(graph.node(a).unwrap().connections, vec![e2]);
    assert_eq!(graph.node(b).unwrap().connections, vec![e2]);
    assert_eq!(graph.remove_edge(e1), Err(GraphError::EdgeNotFound));
}

/// The five-node scenario: DFS yields all five nodes exactly once, in the
/// pre-order given by reverse-adjacency expansion, and the whole graph is one
/// component.
#[test]
fn five_node_scenario() {
    let mut graph: Graph<i64, ()> = Graph::new();
    let ids = graph.add_nodes(&[0, 1, 2, 3, 4]);
    let (n0, n1, n2, n3, n4) = (ids[0], ids[1], ids[2], ids[3], ids[4]);
    graph.add_edges(&[
        (n0, n1),
        (n0, n3),
        (n0, n2),
        (n1, n0),
        (n2, n3),
        (n2, n0),
        (n2, n4),
        (n4, n2),
    ]);

    let order = dfs_from(&graph, n0);
    assert_eq!(order.len(), 5);
    assert_eq!(order, vec![n0, n1, n3, n2, n4]);

    let components = graph.connected_components();
    assert_eq!(components.len(), 1);
    assert_eq!(components[0].len(), 5);
}

/// DFS from the same start twice, with no mutation in between, yields the
/// identical sequence.
#[test]
fn dfs_is_deterministic() {
    let mut graph: Graph<i64, ()> = Graph::new();
    let ids = graph.add_nodes(&[0, 1, 2, 3, 4]);
    graph.add_edges(&[
        (ids[0], ids[2]),
        (ids[2], ids[1]),
        (ids[1], ids[4]),
        (ids[4], ids[0]),
        (ids[2], ids[3]),
    ]);
    let first = dfs_from(&graph, ids[0]);
    let second = dfs_from(&graph, ids[0]);
    assert_eq!(first, second);
}

/// A two-node cycle terminates and yields each node exactly once.
#[test]
fn dfs_cycle_terminates() {
    let mut graph: Graph<i64, ()> = Graph::new();
    let n0 = graph.add_node(0);
    let n1 = graph.add_node(1);
    graph.add_edge(n0, n1, ());
    graph.add_edge(n1, n0, ());
    let order = dfs_from(&graph, n0);
    assert_eq!(order, vec![n0, n1]);
}

/// Empty graph: no nodes, no components.
#[test]
fn empty_graph_has_no_components() {
    let graph: Graph<u8, u8> = Graph::new();
    assert_eq!(graph.node_count(), 0);
    let components = graph.connected_components();
    assert!(components.is_empty());
}

/// Isolated nodes form one singleton component each.
#[test]
fn isolated_nodes_are_singleton_components() {
    let mut graph: Graph<u8, ()> = Graph::new();
    graph.add_nodes(&[10, 20, 30, 40, 50]);
    let components = graph.connected_components();
    assert_eq!(components.len(), 5);
    for component in components.iter() {
        assert_eq!(component.len(), 1);
    }
}

/// An edge from a node that was never added still gets created and is
/// resolvable; the missing endpoint records nothing.
#[test]
fn add_edge_with_missing_endpoint_is_orphaned() {
    let mut graph: Graph<u8, ()> = Graph::new();
    let ghost_node = {
        // an identifier from a parallel graph: a slot this graph never filled
        let mut other: Graph<u8, ()> = Graph::new();
        other.add_node(8);
        other.add_node(9)
    };
    let real = graph.add_node(1);

    let edge = graph.add_edge(ghost_node, real, ());
    assert!(graph.edge(edge).is_ok());
    assert_eq!(graph.edge(edge).unwrap().from, ghost_node);
    assert_eq!(graph.edge(edge).unwrap().to, real);
    assert!(graph.node(ghost_node).is_err());
    // the live endpoint records the edge; the missing one cannot
    assert_eq!(graph.node(real).unwrap().connections, vec![edge]);
}

/// Components split and merge as edges come and go, and every pair joined by
/// an edge shares a component whichever direction the edge was declared.
#[test]
fn components_follow_edges_in_either_direction() {
    let mut graph: Graph<u8, ()> = Graph::new();
    let ids = graph.add_nodes(&[0, 1, 2]);
    // single direction only
    graph.add_edge(ids[2], ids[0], ());
    let components = graph.connected_components();
    assert_eq!(components.len(), 2);
    let joint = components
        .iter()
        .find(|c| c.contains(&ids[0]))
        .unwrap();
    assert!(joint.contains(&ids[2]));
    assert!(!joint.contains(&ids[1]));
}

#[test]
fn remove_nodes_removes_all_or_reports() {
    let mut graph: Graph<u8, ()> = Graph::new();
    let ids = graph.add_nodes(&[1, 2, 3]);
    graph.remove_nodes(&ids).unwrap();
    assert_eq!(graph.node_count(), 0);
    assert_eq!(graph.remove_nodes(&ids), Err(GraphError::NodeNotFound));
}

#[test]
fn add_nodes_and_edges_batch() {
    let mut graph: Graph<u8, u8> = Graph::new();
    let hub = graph.add_node(0);
    let (new_nodes, new_edges) =
        graph.add_nodes_and_edges(vec![(1, vec![hub]), (2, vec![hub]), (3, vec![])]);
    assert_eq!(new_nodes.len(), 3);
    assert_eq!(new_edges.len(), 2);
    assert_eq!(graph.node_count(), 4);
    for eid in new_edges.iter() {
        assert_eq!(graph.edge(*eid).unwrap().to, hub);
    }
}

#[test]
fn add_edges_with_data_keeps_order() {
    let mut graph: Graph<u8, &str> = Graph::new();
    let a = graph.add_node(1);
    let b = graph.add_node(2);
    let edges = graph.add_edges_with_data(&[(a, b, "x"), (b, a, "y")]);
    assert_eq!(graph.edge(edges[0]).unwrap().data, "x");
    assert_eq!(graph.edge(edges[1]).unwrap().data, "y");
    assert_eq!(graph.edge(edges[0]).unwrap().from, a);
    assert_eq!(graph.edge(edges[1]).unwrap().from, b);
}

#[test]
fn node_data_is_editable_in_place() {
    let mut graph: Graph<String, ()> = Graph::new();
    let a = graph.add_node("before".to_string());
    graph.node_mut(a).unwrap().data = "after".to_string();
    assert_eq!(graph.node(a).unwrap().data, "after");
    assert!(graph.node_mut(NodeID::from_u64(a.to_u64() + (1u64 << 32))).is_err());
}

#[test]
fn category_members_listed_in_insertion_order() {
    let mut graph: CategorizedGraph<u8, ()> = CategorizedGraph::new();
    let a = graph.add_node(1);
    let b = graph.add_node(2);
    let cat = graph.add_to_category("pair", vec![a, b]);
    assert_eq!(graph.nodes_by_category_id(cat), vec![a, b]);
    assert_eq!(graph.nodes_by_category("pair"), vec![a, b]);
    assert!(graph.nodes_by_category("absent").is_empty());
    assert!(graph.category_exists("pair"));
    assert!(!graph.category_exists("absent"));
    assert_eq!(graph.category_id_by_name("pair"), Some(cat));
    // creating the same category again is refused
    assert!(graph.create_category("pair", vec![a], 0).is_err());
    assert_eq!(
        graph.nodes_by_category_ids(vec![cat, cat]),
        vec![a, b, a, b]
    );
    assert_eq!(
        graph.nodes_by_categories(vec!["pair", "absent"]),
        vec![a, b]
    );
}

/// Adding to a category by a stale identifier reports which identifier, as
/// its packed decimal form.
#[test]
fn category_not_found_names_the_id() {
    let mut graph: CategorizedGraph<u8, ()> = CategorizedGraph::new();
    let a = graph.add_node(1);
    let gone = graph.add_node(2);
    graph.remove_node(gone).unwrap();
    match graph.add_to_category_by_id(gone, vec![a]) {
        Err(CategorizedGraphError::CategoryNotFound(msg)) => {
            assert_eq!(msg, gone.to_u64().to_string());
        },
        _ => panic!("expected the category to be missing"),
    }
}

/// Breadth-first order is level by level, each node once, and the recorded
/// tree edges are the first-discovery steps.
#[test]
fn bfs_visits_level_by_level() {
    let mut graph: Graph<i64, ()> = Graph::new();
    let ids = graph.add_nodes(&[0, 1, 2, 3, 4]);
    graph.add_edges(&[
        (ids[0], ids[1]),
        (ids[0], ids[2]),
        (ids[1], ids[3]),
        (ids[2], ids[4]),
        (ids[4], ids[0]),
    ]);
    let order = bfs_from(&graph, ids[0]);
    assert_eq!(order, vec![ids[0], ids[1], ids[2], ids[3], ids[4]]);
    // twice gives the same sequence
    assert_eq!(bfs_from(&graph, ids[0]), order);

    let mut cursor = graph.iter_breadth_first(ids[0]);
    while cursor.next(&graph).is_some() {}
    assert_eq!(
        cursor.visited_edges(),
        &vec![
            (ids[0], ids[1]),
            (ids[0], ids[2]),
            (ids[1], ids[3]),
            (ids[2], ids[4])
        ]
    );
    assert_eq!(cursor.visited(), &order);
}
