//! Moving a value from its version to another along the cheapest chain of registered links.
use vstd::prelude::*;
use crate::bypass_heuristics::version_diff;
use crate::graph::{hop_cost, is_answer, is_chain, Graph, GraphError, GraphView};

verus! {

pub type Version = u32;

pub type Cost = u32;

/// A value that knows which version it is in.
pub trait Versioned {
    spec fn version_spec(&self) -> Version;

    fn version(&self) -> (r: Version)
        ensures
            r == self.version_spec(),
    ;
}

/// An operation that rewrites a value in place, from one version into another.
pub trait Transformation<F> {
    /// `after` is what the operation makes of `before`.
    spec fn transforms(&self, before: F, after: F) -> bool;

    fn apply(&self, value: &mut F)
        ensures
            self.transforms(*old(value), *final(value)),
    ;
}

/// The payload of a link: a transformation and a name to show for it.
#[derive(Debug)]
pub struct ConverterFunction<T> {
    pub fname: &'static str,
    pub f: T,
}

pub type ConversionGraph<T> = Graph<ConverterFunction<T>>;

/// `vals` are the states of a value along `p`: each hop applies the payload of its link, and a
/// hop from a node to itself leaves the value as it was.
pub open spec fn runs_along<T: Transformation<F>, F>(g: GraphView<ConverterFunction<T>>, p: Seq<Version>, vals: Seq<F>) -> bool {
    &&& vals.len() == p.len()
    &&& forall|k: int|
        0 <= k < p.len() - 1 ==> if p[k] == #[trigger] p[k + 1] {
            vals[k + 1] == vals[k]
        } else {
            g.links[(p[k], p[k + 1])].1.f.transforms(vals[k], vals[k + 1])
        }
}

/// Some states of the value along the least-cost chain `p` from `from` to `to`, of cost `c`,
/// lead from `before` to `after`.
pub open spec fn converts_along<T: Transformation<F>, F>(
    g: GraphView<ConverterFunction<T>>,
    from: Version,
    to: Version,
    before: F,
    after: F,
) -> bool {
    exists|p: Seq<Version>, c: u64, vals: Seq<F>|
        {
            &&& is_answer(g, None, from, to, Some((p, c)))
            &&& runs_along(g, p, vals)
            &&& vals[0] == before
            &&& vals.last() == after
        }
}

impl<T> Graph<ConverterFunction<T>> {
    /// Applies to `file`, in order, the payloads of the links along `path`.
    fn apply_chain<F>(&self, file: &mut F, path: &Vec<Version>) -> (r: Result<(), GraphError>) where
        T: Transformation<F>,

        requires
            self.wf(),
            path@.len() >= 1,
            forall|k: int| 0 <= k < path@.len() - 1 ==> hop_cost(self@, None, #[trigger] path@[k], path@[k + 1]) is Some,
        ensures
            r == Ok::<(), GraphError>(()),
            exists|vals: Seq<F>|
                {
                    &&& runs_along(self@, path@, vals)
                    &&& vals[0] == *old(file)
                    &&& vals.last() == *final(file)
                },
    {
        let ghost p = path@;
        let ghost mut vals: Seq<F> = seq![*file];
        let mut k: usize = 1;
        while k < path.len()
            invariant
                self.wf(),
                p == path@,
                forall|k: int| 0 <= k < p.len() - 1 ==> hop_cost(self@, None, #[trigger] p[k], p[k + 1]) is Some,
                1 <= k <= p.len(),
                vals.len() == k,
                vals[0] == *old(file),
                vals.last() == *file,
                runs_along(self@, p.take(k as int), vals),
            decreases p.len() - k,
        {
            let prev = path[k - 1];
            let next = path[k];
            if prev != next {
                assert(hop_cost(self@, None, p[k - 1], p[k as int]) is Some);
                proof {
                    self.lemma_links_closed();
                }
                match self.get_data(&prev, &next) {
                    Ok(conv) => conv.f.apply(file),
                    Err(e) => return Err(e),
                }
            }
            proof {
                vals = vals.push(*file);
                assert forall|j: int| 0 <= j < k implies if p.take(k + 1)[j] == #[trigger] p.take(k + 1)[j + 1] {
                    vals[j + 1] == vals[j]
                } else {
                    self@.links[(p.take(k + 1)[j], p.take(k + 1)[j + 1])].1.f.transforms(vals[j], vals[j + 1])
                } by {
                    if j < k - 1 {
                        assert(p.take(k as int)[j] == p.take(k + 1)[j]);
                        assert(p.take(k as int)[j + 1] == p.take(k + 1)[j + 1]);
                    }
                }
            }
            k += 1;
        }
        proof {
            assert(p.take(p.len() as int) =~= p);
        }
        Ok(())
    }

    /// Converts `file` to version `to` by applying, in order, the payloads along a least-cost
    /// chain of registered links from its current version. Fails with `NodeNotFound` when
    /// either version is not registered and with `ConversionFailed` when no chain exists; a
    /// failure leaves `file` untouched.
    pub fn convert<F: Versioned>(&self, file: &mut F, to: Version) -> (r: Result<(), GraphError>) where
        T: Transformation<F>,

        requires
            self.wf(),
            self@.nodes.len() <= u32::MAX,
        ensures
            !self@.nodes.contains(old(file).version_spec()) ==> r == Err::<(), GraphError>(
                GraphError::NodeNotFound(old(file).version_spec()),
            ) && *final(file) == *old(file),
            self@.nodes.contains(old(file).version_spec()) && !self@.nodes.contains(to) ==> r == Err::<
                (),
                GraphError,
            >(GraphError::NodeNotFound(to)) && *final(file) == *old(file),
            self@.nodes.contains(old(file).version_spec()) && self@.nodes.contains(to) && !(exists|
                p: Seq<Version>,
            | is_chain(self@, None, p, old(file).version_spec(), to)) ==> r == Err::<(), GraphError>(
                GraphError::ConversionFailed(old(file).version_spec(), to),
            ) && *final(file) == *old(file),
            self@.nodes.contains(old(file).version_spec()) && self@.nodes.contains(to) && (exists|
                p: Seq<Version>,
            | is_chain(self@, None, p, old(file).version_spec(), to)) ==> r == Ok::<(), GraphError>(())
                && converts_along(self@, old(file).version_spec(), to, *old(file), *final(file)),
    {
        let from = file.version();
        // A `None` whose heuristic type is that of `version_diff`: the search keeps to links.
        let no_bypass = if false {
            Some(version_diff::<ConverterFunction<T>>)
        } else {
            None
        };
        let found = match self.compute_path(from, to, no_bypass) {
            Ok(found) => found,
            Err(e) => return Err(e),
        };
        match found {
            None => {
                assert(is_answer(self@, None, from, to, None));
                Err(GraphError::ConversionFailed(from, to))
            },
            Some((path, cost)) => {
                assert(is_answer(self@, None, from, to, Some((path@, cost))));
                let ghost before = *file;
                let r = self.apply_chain(file, &path);
                proof {
                    assert(is_chain(self@, None, path@, from, to));
                    let vals = choose|vals: Seq<F>|
                        {
                            &&& runs_along(self@, path@, vals)
                            &&& vals[0] == before
                            &&& vals.last() == *file
                        };
                    assert(is_answer(self@, None, from, to, Some((path@, cost))) && runs_along(self@, path@, vals)
                        && vals[0] == before && vals.last() == *file);
                    assert(converts_along(self@, from, to, before, *file));
                }
                r
            },
        }
    }
}

} // verus!
