use version_graph::converter::Versioned;
use version_graph::demo::{demo_graph, fn_10_to_1, fn_10_to_18, fn_1_to_10};
use version_graph::graph::GraphError;

#[test]
fn convert_from_1_to_18_applies_both_steps() {
    let g = demo_graph();
    let mut value: u32 = 1;
    assert_eq!(g.convert(&mut value, 18), Ok(()));
    assert_eq!(value, 18);
    assert_eq!(value.version(), 18);
}

#[test]
fn convert_from_10_to_1_applies_one_step() {
    let g = demo_graph();
    let mut value: u32 = 10;
    assert_eq!(g.convert(&mut value, 1), Ok(()));
    assert_eq!(value, 1);
}

#[test]
fn convert_without_chain_fails_and_leaves_value() {
    let g = demo_graph();
    let mut value: u32 = 15;
    assert_eq!(g.convert(&mut value, 1), Err(GraphError::ConversionFailed(15, 1)));
    assert_eq!(value, 15);
    let mut value: u32 = 18;
    assert_eq!(g.convert(&mut value, 1), Err(GraphError::ConversionFailed(18, 1)));
    assert_eq!(value, 18);
}

#[test]
fn convert_with_unregistered_version_fails() {
    let g = demo_graph();
    let mut value: u32 = 2;
    assert_eq!(g.convert(&mut value, 18), Err(GraphError::NodeNotFound(2)));
    assert_eq!(value, 2);
    let mut value: u32 = 1;
    assert_eq!(g.convert(&mut value, 2), Err(GraphError::NodeNotFound(2)));
    assert_eq!(value, 1);
}

#[test]
fn convert_to_same_version_changes_nothing() {
    let g = demo_graph();
    let mut value: u32 = 10;
    assert_eq!(g.convert(&mut value, 10), Ok(()));
    assert_eq!(value, 10);
}

#[test]
fn payload_names_are_kept() {
    let g = demo_graph();
    assert_eq!(g.get_data(&1, &10).map(|c| c.fname), Ok("fn_1_to_10"));
    assert_eq!(g.get_cost(&10, &18), Ok(&1));
}

#[test]
fn example_steps_set_the_version() {
    let mut v: u32 = 0;
    fn_1_to_10(&mut v);
    assert_eq!(v, 10);
    fn_10_to_18(&mut v);
    assert_eq!(v, 18);
    fn_10_to_1(&mut v);
    assert_eq!(v, 1);
}
