use version_graph::graph::{Graph, GraphError};

fn two_nodes() -> Graph<&'static str> {
    let mut g: Graph<&'static str> = Graph::new();
    g.add_node(1);
    g.add_node(2);
    g
}

#[test]
fn add_link_then_get_link_returns_what_was_written() {
    let mut g = two_nodes();
    assert_eq!(g.add_link(1, 2, 5, "a"), Ok(()));
    assert_eq!(g.get_link(&1, &2), Ok(&(5, "a")));
    assert_eq!(g.get_cost(&1, &2), Ok(&5));
    assert_eq!(g.get_data(&1, &2), Ok(&"a"));
}

#[test]
fn re_adding_a_link_overwrites_it() {
    let mut g = two_nodes();
    assert_eq!(g.add_link(1, 2, 5, "a"), Ok(()));
    assert_eq!(g.add_link(1, 2, 7, "b"), Ok(()));
    assert_eq!(g.get_link(&1, &2), Ok(&(7, "b")));
}

#[test]
fn links_are_one_directional() {
    let mut g = two_nodes();
    assert_eq!(g.add_link(1, 2, 5, "a"), Ok(()));
    assert_eq!(g.get_link(&2, &1), Err(GraphError::LinkNotFound(2, 1)));
    assert_eq!(g.get_cost(&2, &1), Err(GraphError::LinkNotFound(2, 1)));
    assert_eq!(g.get_data(&2, &1), Err(GraphError::LinkNotFound(2, 1)));
}

#[test]
fn add_node_twice_is_a_no_op() {
    let mut g = two_nodes();
    g.add_node(1);
    assert_eq!(g.add_link(1, 1, 0, "self"), Ok(()));
    assert_eq!(g.get_link(&1, &1), Ok(&(0, "self")));
    assert_eq!(g.check_node(&1), Ok(()));
    assert_eq!(g.check_node(&3), Err(GraphError::NodeNotFound(3)));
}

#[test]
fn add_link_with_unregistered_node_fails_and_changes_nothing() {
    let mut g = two_nodes();
    assert_eq!(g.add_link(3, 1, 1, "x"), Err(GraphError::NodeNotFound(3)));
    assert_eq!(g.add_link(1, 3, 1, "x"), Err(GraphError::NodeNotFound(3)));
    assert_eq!(g.add_link(4, 3, 1, "x"), Err(GraphError::NodeNotFound(4)));
    assert_eq!(g.get_link(&1, &3), Err(GraphError::NodeNotFound(3)));
    assert_eq!(g.get_link(&1, &2), Err(GraphError::LinkNotFound(1, 2)));
}

#[test]
fn get_link_with_unregistered_node_fails() {
    let mut g = two_nodes();
    assert_eq!(g.add_link(1, 2, 5, "a"), Ok(()));
    assert_eq!(g.get_link(&9, &2), Err(GraphError::NodeNotFound(9)));
    assert_eq!(g.get_link(&1, &9), Err(GraphError::NodeNotFound(9)));
    assert_eq!(g.get_link(&8, &9), Err(GraphError::NodeNotFound(8)));
    assert_eq!(g.get_cost(&9, &2), Err(GraphError::NodeNotFound(9)));
    assert_eq!(g.get_data(&1, &9), Err(GraphError::NodeNotFound(9)));
}

#[test]
fn default_graph_is_empty() {
    let g: Graph<&'static str> = Graph::default();
    assert_eq!(g.check_node(&1), Err(GraphError::NodeNotFound(1)));
}

#[test]
fn node_count_counts_each_node_once() {
    let mut g = two_nodes();
    assert_eq!(g.node_count(), 2);
    g.add_node(2);
    assert_eq!(g.node_count(), 2);
    g.add_node(5);
    assert_eq!(g.node_count(), 3);
}
