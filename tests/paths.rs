use version_graph::bypass_heuristics::version_diff;
use version_graph::converter::ConversionGraph;
use version_graph::demo::{demo_graph, DemoStep};
use version_graph::graph::{Graph, GraphError};

type Heuristic = fn(&ConversionGraph<DemoStep>, u32, u32) -> u32;

fn no_bypass() -> Option<Heuristic> {
    None
}

fn abs_diff() -> Option<Heuristic> {
    Some(version_diff::<version_graph::converter::ConverterFunction<DemoStep>>)
}

#[test]
fn path_from_1_to_18_goes_through_10() {
    let g = demo_graph();
    assert_eq!(g.compute_path(1, 18, no_bypass()), Ok(Some((vec![1, 10, 18], 2))));
}

#[test]
fn path_from_15_without_bypass_is_none() {
    let g = demo_graph();
    assert_eq!(g.compute_path(15, 1, no_bypass()), Ok(None));
}

#[test]
fn path_from_15_with_bypass_uses_a_synthetic_hop() {
    let g = demo_graph();
    assert_eq!(g.compute_path(15, 1, abs_diff()), Ok(Some((vec![15, 10, 1], 6))));
}

#[test]
fn path_to_itself_is_the_single_node() {
    let g = demo_graph();
    assert_eq!(g.compute_path(10, 10, no_bypass()), Ok(Some((vec![10], 0))));
    assert_eq!(g.compute_path(15, 15, abs_diff()), Ok(Some((vec![15], 0))));
}

#[test]
fn path_with_unregistered_node_fails() {
    let g = demo_graph();
    assert_eq!(g.compute_path(2, 18, no_bypass()), Err(GraphError::NodeNotFound(2)));
    assert_eq!(g.compute_path(1, 2, no_bypass()), Err(GraphError::NodeNotFound(2)));
    assert_eq!(g.compute_path(3, 2, abs_diff()), Err(GraphError::NodeNotFound(3)));
}

#[test]
fn bypass_connects_nodes_without_links() {
    let mut g: Graph<&'static str> = Graph::new();
    g.add_node(3);
    g.add_node(7);
    let h: fn(&Graph<&'static str>, u32, u32) -> u32 = version_diff::<&'static str>;
    assert_eq!(g.compute_path(3, 7, None::<fn(&Graph<&'static str>, u32, u32) -> u32>), Ok(None));
    assert_eq!(g.compute_path(3, 7, Some(h)), Ok(Some((vec![3, 7], 4))));
}

#[test]
fn cheaper_chain_beats_direct_link() {
    let mut g: Graph<&'static str> = Graph::new();
    for n in [1, 2, 3, 4] {
        g.add_node(n);
    }
    assert_eq!(g.add_link(1, 4, 10, "direct"), Ok(()));
    assert_eq!(g.add_link(1, 2, 2, "a"), Ok(()));
    assert_eq!(g.add_link(2, 3, 3, "b"), Ok(()));
    assert_eq!(g.add_link(3, 4, 4, "c"), Ok(()));
    let none = None::<fn(&Graph<&'static str>, u32, u32) -> u32>;
    assert_eq!(g.compute_path(1, 4, none), Ok(Some((vec![1, 2, 3, 4], 9))));
    assert_eq!(g.add_link(1, 4, 8, "direct"), Ok(()));
    assert_eq!(g.compute_path(1, 4, none), Ok(Some((vec![1, 4], 8))));
}

#[test]
fn large_costs_add_up_without_overflow() {
    let mut g: Graph<&'static str> = Graph::new();
    for n in [1, 2, 3] {
        g.add_node(n);
    }
    assert_eq!(g.add_link(1, 2, u32::MAX, "a"), Ok(()));
    assert_eq!(g.add_link(2, 3, u32::MAX, "b"), Ok(()));
    let none = None::<fn(&Graph<&'static str>, u32, u32) -> u32>;
    assert_eq!(g.compute_path(1, 3, none), Ok(Some((vec![1, 2, 3], 2 * u32::MAX as u64))));
}

#[test]
fn version_diff_is_the_distance() {
    let g: Graph<&'static str> = Graph::new();
    assert_eq!(version_diff(&g, 3, 10), 7);
    assert_eq!(version_diff(&g, 10, 3), 7);
    assert_eq!(version_diff(&g, 5, 5), 0);
    assert_eq!(version_diff(&g, 0, u32::MAX), u32::MAX);
}
