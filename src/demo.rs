//! A small conversion graph over plain version numbers: nodes 1, 10, 15 and 18, links
//! 1 -> 10, 10 -> 1 and 10 -> 18 of cost one each. Node 15 has no links.
use vstd::prelude::*;
use crate::converter::{ConversionGraph, ConverterFunction, Transformation, Version, Versioned};
use crate::graph::Graph;

verus! {

/// Moves a value from version 1 to version 10.
pub fn fn_1_to_10(file: &mut u32)
    ensures
        *final(file) == 10,
{
    *file = 10;
}

/// Moves a value from version 10 to version 1.
pub fn fn_10_to_1(file: &mut u32)
    ensures
        *final(file) == 1,
{
    *file = 1;
}

/// Moves a value from version 10 to version 18.
pub fn fn_10_to_18(file: &mut u32)
    ensures
        *final(file) == 18,
{
    *file = 18;
}

/// A bare version number is its own version.
impl Versioned for u32 {
    open spec fn version_spec(&self) -> Version {
        *self
    }

    fn version(&self) -> (r: Version) {
        *self
    }
}

/// The steps of the example graph.
#[derive(Debug, Clone, Copy, PartialEq, Eq)]
pub enum DemoStep {
    OneToTen,
    TenToOne,
    TenToEighteen,
}

/// The version that a step leaves a value in.
pub open spec fn step_target(s: DemoStep) -> u32 {
    match s {
        DemoStep::OneToTen => 10,
        DemoStep::TenToOne => 1,
        DemoStep::TenToEighteen => 18,
    }
}

impl Transformation<u32> for DemoStep {
    open spec fn transforms(&self, before: u32, after: u32) -> bool {
        after == step_target(*self)
    }

    fn apply(&self, value: &mut u32) {
        match self {
            DemoStep::OneToTen => fn_1_to_10(value),
            DemoStep::TenToOne => fn_10_to_1(value),
            DemoStep::TenToEighteen => fn_10_to_18(value),
        }
    }
}

/// Builds the example graph.
pub fn demo_graph() -> (g: ConversionGraph<DemoStep>)
    ensures
        g.wf(),
        g@.nodes == set![1u32, 10u32, 15u32, 18u32],
        g@.links == map![
            (1u32, 10u32) => (1u32, ConverterFunction { fname: "fn_1_to_10", f: DemoStep::OneToTen }),
            (10u32, 1u32) => (1u32, ConverterFunction { fname: "fn_10_to_1", f: DemoStep::TenToOne }),
            (10u32, 18u32) => (1u32, ConverterFunction { fname: "fn_10_to_18", f: DemoStep::TenToEighteen }),
        ],
{
    let mut g: ConversionGraph<DemoStep> = Graph::new();
    g.add_node(1);
    g.add_node(10);
    g.add_node(15);
    g.add_node(18);
    let _ = g.add_link(1, 10, 1, ConverterFunction { fname: "fn_1_to_10", f: DemoStep::OneToTen });
    let _ = g.add_link(10, 1, 1, ConverterFunction { fname: "fn_10_to_1", f: DemoStep::TenToOne });
    let _ = g.add_link(10, 18, 1, ConverterFunction { fname: "fn_10_to_18", f: DemoStep::TenToEighteen });
    assert(g@.nodes =~= set![1u32, 10u32, 15u32, 18u32]);
    assert(g@.links =~= map![
        (1u32, 10u32) => (1u32, ConverterFunction { fname: "fn_1_to_10", f: DemoStep::OneToTen }),
        (10u32, 1u32) => (1u32, ConverterFunction { fname: "fn_10_to_1", f: DemoStep::TenToOne }),
        (10u32, 18u32) => (1u32, ConverterFunction { fname: "fn_10_to_18", f: DemoStep::TenToEighteen }),
    ]);
    g
}

} // verus!
