//! The search for a singular solution near the target pose. The caller
//! solves the slightly moved poses and checks candidates with the forward
//! transform; the decisions of what to do next are taken here.
use vstd::prelude::*;
use crate::continuation::{is_redistribution, redistribute};
use crate::joints::{joints_in_limit, Joints};
use crate::singularity::{wrist_coupling, wrist_singular};

verus! {

/// Number of moved poses tried: one tiny step along each of x, y and z.
pub const PROBE_AXES: usize = 3;

/// What the caller does next.
#[derive(Clone, Copy, Debug, PartialEq)]
pub enum SearchStep {
    /// Solve the target pose moved by a tiny step along this axis (0, 1, 2
    /// for x, y, z) and hand the solutions to `probed`.
    Probe(usize),
    /// Check this candidate against the target pose with the forward
    /// transform and hand the outcome to `checked`.
    Check(Joints),
    /// The search is over, with the singular solution that passed the
    /// check, if any.
    Finish(Option<Joints>),
}

/// State of the search.
#[derive(Debug)]
pub struct SingularSearch {
    /// The joint vector the motion continues from.
    pub prev: Joints,
    /// The axis of the latest probe.
    pub axis: usize,
    /// The solutions of the latest probe.
    pub probe: Vec<Joints>,
    /// Index in `probe` of the next solution to consider.
    pub next: usize,
    /// The redistributed candidate under check, if one is.
    pub checking: Option<Joints>,
}

/// Some solution of `s` at index `from` or later is singular.
pub open spec fn singular_from(s: Seq<Joints>, from: int) -> bool {
    exists|k: int| from <= k < s.len() && #[trigger] wrist_singular(s[k])
}

impl SingularSearch {
    pub open spec fn wf(&self) -> bool {
        &&& self.axis < PROBE_AXES
        &&& self.next <= self.probe.len()
        &&& joints_in_limit(self.prev)
        &&& forall|k: int| 0 <= k < self.probe.len() ==> joints_in_limit(#[trigger] self.probe[k])
    }

    /// Starts the search after the exact solutions `exact`: it probes only
    /// where one of them is singular, and is over at once otherwise.
    pub fn start(exact: &Vec<Joints>, prev: &Joints) -> (r: (SingularSearch, SearchStep))
        requires
            joints_in_limit(*prev),
        ensures
            r.0.wf(),
            r.0.prev == *prev,
            r.0.checking is None,
            r.1 == (if singular_from(exact@, 0) {
                SearchStep::Probe(0)
            } else {
                SearchStep::Finish(None)
            }),
    {
        let state = SingularSearch { prev: *prev, axis: 0, probe: Vec::new(), next: 0, checking: None };
        let mut k: usize = 0;
        while k < exact.len()
            invariant
                state.wf(),
                state.prev == *prev,
                state.checking is None,
                k <= exact.len(),
                forall|m: int| 0 <= m < k ==> !#[trigger] wrist_singular(exact[m]),
            decreases exact.len() - k,
        {
            if wrist_coupling(exact[k][4]).is_some() {
                assert(wrist_singular(exact[k as int]));
                return (state, SearchStep::Probe(0));
            }
            k = k + 1;
        }
        (state, SearchStep::Finish(None))
    }

    /// Goes on from `next`: checks the next singular solution of the
    /// latest probe, redistributed; where none is left, probes the next
    /// axis; after the last axis, ends without a solution.
    fn scan(&mut self) -> (r: SearchStep)
        requires
            old(self).wf(),
        ensures
            final(self).wf(),
            final(self).prev == old(self).prev,
            singular_from(old(self).probe@, old(self).next as int) ==> {
                let k = final(self).next - 1;
                &&& r is Check
                &&& final(self).probe == old(self).probe
                &&& final(self).axis == old(self).axis
                &&& old(self).next <= k < old(self).probe.len()
                &&& wrist_singular(old(self).probe[k])
                &&& forall|m: int|
                    old(self).next <= m < k ==> !#[trigger] wrist_singular(old(self).probe[m])
                &&& final(self).checking == Some(r->Check_0)
                &&& is_redistribution(r->Check_0, old(self).probe[k], old(self).prev)
            },
            !singular_from(old(self).probe@, old(self).next as int) ==> {
                &&& final(self).checking is None
                &&& if old(self).axis + 1 < PROBE_AXES {
                    &&& r == SearchStep::Probe((old(self).axis + 1) as usize)
                    &&& final(self).axis == old(self).axis + 1
                } else {
                    r == SearchStep::Finish(None)
                }
            },
    {
        while self.next < self.probe.len()
            invariant
                self.wf(),
                self.prev == old(self).prev,
                self.axis == old(self).axis,
                self.probe == old(self).probe,
                old(self).next <= self.next,
                forall|m: int|
                    old(self).next <= m < self.next ==> !#[trigger] wrist_singular(self.probe[m]),
            decreases self.probe.len() - self.next,
        {
            let k = self.next;
            self.next = k + 1;
            match wrist_coupling(self.probe[k][4]) {
                Some(coupling) => {
                    assert(joints_in_limit(self.probe[k as int]));
                    let j = redistribute(&self.probe[k], &self.prev, coupling);
                    self.checking = Some(j);
                    assert(wrist_singular(self.probe[k as int]));
                    return SearchStep::Check(j);
                },
                None => {},
            }
        }
        self.checking = None;
        if self.axis + 1 < PROBE_AXES {
            self.axis = self.axis + 1;
            self.probe = Vec::new();
            self.next = 0;
            SearchStep::Probe(self.axis)
        } else {
            SearchStep::Finish(None)
        }
    }

    /// Takes the solutions of the pose moved along the latest axis.
    pub fn probed(&mut self, solutions: Vec<Joints>) -> (r: SearchStep)
        requires
            old(self).wf(),
            forall|k: int| 0 <= k < solutions.len() ==> joints_in_limit(#[trigger] solutions[k]),
        ensures
            final(self).wf(),
            final(self).prev == old(self).prev,
            singular_from(solutions@, 0) ==> {
                let k = final(self).next - 1;
                &&& r is Check
                &&& 0 <= k < solutions.len()
                &&& wrist_singular(solutions[k])
                &&& forall|m: int| 0 <= m < k ==> !#[trigger] wrist_singular(solutions[m])
                &&& is_redistribution(r->Check_0, solutions[k], old(self).prev)
            },
            !singular_from(solutions@, 0) ==> if old(self).axis + 1 < PROBE_AXES {
                r == SearchStep::Probe((old(self).axis + 1) as usize)
            } else {
                r == SearchStep::Finish(None)
            },
    {
        self.probe = solutions;
        self.next = 0;
        self.scan()
    }

    /// Takes the outcome of the check of the candidate last handed out: a
    /// candidate that passed ends the search with it; one that failed is
    /// dropped and the search goes on.
    pub fn checked(&mut self, passed: bool) -> (r: SearchStep)
        requires
            old(self).wf(),
        ensures
            final(self).wf(),
            final(self).prev == old(self).prev,
            passed && old(self).checking is Some ==> r == SearchStep::Finish(old(self).checking),
            !(passed && old(self).checking is Some) ==> {
                &&& singular_from(old(self).probe@, old(self).next as int) ==> {
                    let k = final(self).next - 1;
                    &&& r is Check
                    &&& old(self).next <= k < old(self).probe.len()
                    &&& wrist_singular(old(self).probe[k])
                    &&& forall|m: int|
                        old(self).next <= m < k ==> !#[trigger] wrist_singular(old(self).probe[m])
                    &&& is_redistribution(r->Check_0, old(self).probe[k], old(self).prev)
                }
                &&& !singular_from(old(self).probe@, old(self).next as int) ==> if old(self).axis
                    + 1 < PROBE_AXES {
                    r == SearchStep::Probe((old(self).axis + 1) as usize)
                } else {
                    r == SearchStep::Finish(None)
                }
            },
    {
        if passed {
            match self.checking {
                Some(j) => {
                    return SearchStep::Finish(Some(j));
                },
                None => {},
            }
        }
        self.scan()
    }
}

} // verus!
