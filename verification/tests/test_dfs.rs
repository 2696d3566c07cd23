use fast_graph::algorithms::dfs::IterDepthFirst;
use fast_graph::{Graph, GraphInterface, NodeID};
use hashbrown::HashSet;
use rand::seq::SliceRandom;

#[derive(Clone, Debug)]
enum NodeData {
    Int64(i64),
}
impl PartialEq for NodeData {
    fn eq(&self, other: &Self) -> bool {
        match (self, other) {
            (NodeData::Int64(a), NodeData::Int64(b)) => a == b,
        }
    }
}

fn add_n_nodes(graph: &mut Graph<NodeData, ()>, n: i64) -> Vec<NodeID> {
    let mut nodes = Vec::new();
    for i in 0..n {
        nodes.push(NodeData::Int64(i));
    }
    let nodes = graph.add_nodes(&nodes);
    if nodes.len() != n as usize {
        panic!("Failed to add nodes");
    }
    nodes
}

#[test]
fn test_dfs_connected_components() {
    let mut graph: Graph<NodeData, ()> = Graph::new();
    let ids = add_n_nodes(&mut graph, 5);
    let (node0, node1, node2, node3, node4) = (ids[0], ids[1], ids[2], ids[3], ids[4]);

    let mut components = graph.connected_components();
    println!(
        "Connected components 1 ({}): {:#?}",
        components.len(),
        components
    );
    assert_eq!(components.len(), 5);
    assert_eq!(components[0].len(), 1);

    graph.add_edges(&[(node0, node1), (node1, node0)]);

    components = graph.connected_components();
    println!(
        "Connected components 2 ({}): {:#?}",
        components.len(),
        components
    );
    assert_eq!(components.len(), 4);
    assert_eq!(components[0].len(), 2);

    graph.add_edges(&[(node2, node3), (node3, node4)]);

    components = graph.connected_components();
    println!(
        "Connected components 3 ({}): {:#?}",
        components.len(),
        components
    );

    assert_eq!(components.len(), 2);
    assert_eq!(components[1].len(), 3);
}

#[test]
fn test_dfs_iter() {
    let mut graph1: Graph<NodeData, ()> = Graph::new();
    let ids = add_n_nodes(&mut graph1, 5);
    let (node0, node1, node2, node3, node4) = (ids[0], ids[1], ids[2], ids[3], ids[4]);

    graph1.add_edges(&[
        (node0, node1),
        (node0, node3),
        (node0, node2),
        (node1, node0),
        (node2, node3),
        (node2, node0),
        (node2, node4),
        (node4, node2),
    ]);

    let mut graph2: Graph<NodeData, ()> = Graph::new();
    let ids = add_n_nodes(&mut graph2, 5);
    let (node0_1, node1_1, node2_1, node3_1, node4_1) = (ids[0], ids[1], ids[2], ids[3], ids[4]);
    let _ = (node1_1, node3_1, node4_1);

    graph2.add_edges(&[
        (node0_1, node3_1),
        (node0_1, node2_1),
        (node1_1, node0_1),
        (node2_1, node3_1),
        (node4_1, node2_1),
    ]);

    let mut visited = Vec::new();
    let mut depth_first = graph1.iter_depth_first(node0);
    while let Some(node) = depth_first.next(&graph1) {
        let node = graph1.node(node).unwrap();
        visited.push(node.id);
    }

    assert_eq!(visited.len(), graph1.node_count());
    assert_eq!(visited.len(), 5);

    println!(
        "Depth First Search 2 (node count: {}):",
        graph1.node_count()
    );
    println!("Edges: {:#?}", graph1.edge_count());

    let mut visited = Vec::new();
    let mut dfs = graph1.iter_depth_first(node0);
    while let Some(node) = dfs.next(&graph1) {
        let node = graph1.node(node).unwrap();
        visited.push(node.id);

        if node.data == NodeData::Int64(4) {
            break;
        }
    }

    assert_eq!(visited.len(), graph1.node_count());
    assert_eq!(visited.len(), 5);

    println!(
        "Depth First Search 3 (node count: {}):",
        graph2.node_count()
    );
    println!("Edges: {:#?}", graph2.edge_count());
    let mut visited2 = Vec::new();
    let mut dfs = graph2.iter_depth_first(node0_1);
    while let Some(node) = dfs.next(&graph2) {
        let node = graph2.node(node).unwrap();
        visited2.push(node.id);

        if node.data == NodeData::Int64(4) {
            break;
        }
    }

    assert_ne!(visited.len(), visited2.len());
}

fn random_nodes(count: usize, _breadth: usize) -> Vec<usize> {
    return (0..count).collect();
}

fn random_edges(count: usize, breadth: usize) -> Vec<(usize, usize)> {
    let mut rng = rand::thread_rng();
    let mut random_edges: HashSet<(usize, usize)> = HashSet::new();

    for _ in 0..breadth {
        let mut from = (0..count).collect::<Vec<usize>>();
        from.shuffle(&mut rng);
        let mut to = (0..count).collect::<Vec<usize>>();
        to.shuffle(&mut rng);

        to.iter().zip(from.iter()).for_each(|(t, f)| {
            if *t != *f {
                random_edges.insert((*f, *t));
            }
        });
    }

    random_edges.into_iter().collect()
}

fn random_petgraph(
    nodes: (Vec<usize>, Vec<(usize, usize)>),
) -> (
    petgraph::stable_graph::StableDiGraph<usize, ()>,
    petgraph::stable_graph::NodeIndex,
) {
    let mut graph = petgraph::stable_graph::StableDiGraph::new();

    let mut node_ids = vec![];
    for node in nodes.0 {
        let n = graph.add_node(node);
        node_ids.push(n);
    }

    for (n1, n2) in nodes.1 {
        graph.add_edge(node_ids[n1], node_ids[n2], ());
    }

    (graph, node_ids[0])
}

fn random_fastgraph(nodes: (Vec<usize>, Vec<(usize, usize)>)) -> (Graph<usize, ()>, NodeID) {
    let mut graph = Graph::new();

    let mut node_ids = vec![];
    for node in nodes.0 {
        let n = graph.add_node(node);
        node_ids.push(n);
    }

    for (n1, n2) in nodes.1 {
        graph.add_edge(node_ids[n1], node_ids[n2], ());
    }

    (graph, node_ids[0])
}

#[test]
pub fn test_fastgraph_dfs_equals_petgraph_random() {
    let random_nodes = random_nodes(100, 10);
    let random_edges = random_edges(100, 10);
    println!("random_nodes {:?}", random_nodes);
    println!("random_edges {:?}", random_edges);
    let petgraph = random_petgraph((random_nodes.clone(), random_edges.clone()));
    let fastgraph = random_fastgraph((random_nodes, random_edges));

    let mut visited_fastgraph = vec![];
    let mut visited_petgraph = vec![];

    let mut dfs = fastgraph.0.iter_depth_first(fastgraph.1);
    while let Some(v) = dfs.next(&fastgraph.0) {
        visited_fastgraph.push(fastgraph.0.node(v).unwrap().data);
    }

    let mut dfs = petgraph::visit::Dfs::new(&petgraph.0, petgraph.1);
    while let Some(nx) = dfs.next(&petgraph.0) {
        visited_petgraph.push(petgraph.0[nx]);
    }

    println!("fastgraph: {:?}", visited_fastgraph);
    println!("petgraph: {:?}", visited_petgraph);

    assert_eq!(visited_fastgraph.len(), visited_petgraph.len());
    assert_eq!(visited_fastgraph, visited_petgraph);
}

#[test]
pub fn test_fastgraph_dfs_equals_petgraph() {
    let mut graph: Graph<i32, ()> = Graph::new();

    let mut current_node = graph.add_node(1);
    let root = current_node;

    for i in 1..=10 {
        let n = graph.add_node(i + 100);
        let n2 = graph.add_node(i + 200);
        let n3 = graph.add_node(i + 300);
        graph.add_edge(current_node, n, ());
        graph.add_edge(current_node, n2, ());
        graph.add_edge(n2, n3, ());
        current_node = n;
    }

    let mut visited_fastgraph = vec![];

    let mut dfs = graph.iter_depth_first(root);
    while let Some(v) = dfs.next(&graph) {
        visited_fastgraph.push(v);
    }

    let mut pgraph = petgraph::stable_graph::StableGraph::new();

    let mut current_node = pgraph.add_node(1);

    let root = current_node;
    for i in 1..=10 {
        let n = pgraph.add_node(i + 100);
        let n2 = pgraph.add_node(i + 200);
        let n3 = pgraph.add_node(i + 300);
        pgraph.add_edge(current_node, n, ());
        pgraph.add_edge(current_node, n2, ());
        pgraph.add_edge(n2, n3, ());
        current_node = n;
    }

    let mut visited_petgraph = vec![];
    let mut dfs = petgraph::visit::Dfs::new(&pgraph, root);
    while let Some(nx) = dfs.next(&pgraph) {
        visited_petgraph.push(pgraph[nx]);
    }

    assert_eq!(visited_fastgraph.len(), visited_petgraph.len());

    for i in 0..visited_fastgraph.len() {
        assert_eq!(graph.node(visited_fastgraph[i]).unwrap().data, visited_petgraph[i])
    }
}
