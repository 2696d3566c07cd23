use fast_graph::categories::{Categorized, CategorizedGraph};
use fast_graph::GraphInterface;

#[test]
pub fn test_graph_categories() {
    #[derive(Clone, Debug, PartialEq)]
    enum NodeData {
        String(String),
        CategoryName(String),
        None,
    }

    impl Default for NodeData {
        fn default() -> Self {
            NodeData::None
        }
    }

    let mut graph: CategorizedGraph<NodeData, ()> = CategorizedGraph::new();

    let node1 = graph.add_node(NodeData::String("Node 1".into()));
    let node2 = graph.add_node(NodeData::String("Node 2".into()));
    let node3 = graph.add_node(NodeData::String("Node 3".into()));

    let category1 = graph
        .create_category(
            "Category 1",
            vec![node1, node2],
            NodeData::CategoryName("Category 1".into()),
        )
        .unwrap();
    let category2 = graph.add_to_category("Category 2", vec![node3]);
    let _ = category2;

    println!("Categories: {:#?}", graph.all_categories());

    assert_eq!(graph.category_count(), 2);
    assert_eq!(graph.node_count() - 1, 5); // the registered category node is separate from the data node

    assert_eq!(graph.category("Category 1").unwrap().connections.len(), 2);
    assert_eq!(graph.category("Category 2").unwrap().connections.len(), 1);

    assert_eq!(graph.edge_count(), 3);
    assert_eq!(graph.node_count() - 1, 5);
    assert_eq!(
        graph.category_by_id(category1).unwrap().data,
        NodeData::CategoryName("Category 1".into())
    );

    println!("{:#?}", graph.node_count());
}
