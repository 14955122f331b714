//! Risk objects: the things that can shed debris. Objects are inclusive of
//! one another; the trajectories of one object are exclusive outcomes.

use vstd::prelude::*;

verus! {

/// Where an object's trajectories come from when nothing else is said.
pub fn default_source() -> (s: String)
    ensures
        s@ == "files"@,
{
    String::from_str("files")
}

/// A risk object as the library sees it: its id, its name and the source of
/// its trajectories (`files`, or a generator's name). The generator
/// parameters that travel with an object are numeric settings that only the
/// application layer reads.
#[derive(Debug, Clone)]
pub struct RiskObject {
    pub id: u64,
    pub name: String,
    pub source: String,
}

/// What keeps an object from being a valid risk object.
#[derive(Debug, Clone, Copy, PartialEq, Eq, Structural)]
pub enum ObjectIssue {
    /// The object has no failure mode yet.
    NoModes,
    /// Its failure-mode probabilities do not sum to 1.
    ModeSum,
    /// This many of its failure modes have no trajectory.
    EmptyModes(usize),
    /// Its trajectory probabilities do not sum to 1.
    TrajectorySum,
}

/// The issues of an object with `n_modes` failure modes, `empty_modes` of
/// them without trajectories: with no mode, only that; otherwise a mode
/// sum off 1, empty modes, and (only when no mode is empty) a trajectory
/// sum off 1, in that order.
pub open spec fn issues_of(n_modes: usize, empty_modes: usize, mode_sum_ok: bool, traj_sum_ok: bool) -> Seq<ObjectIssue> {
    if n_modes == 0 {
        seq![ObjectIssue::NoModes]
    } else {
        (if mode_sum_ok {
            Seq::empty()
        } else {
            seq![ObjectIssue::ModeSum]
        }) + (if empty_modes > 0 {
            seq![ObjectIssue::EmptyModes(empty_modes)]
        } else {
            Seq::empty()
        }) + (if !traj_sum_ok && empty_modes == 0 {
            seq![ObjectIssue::TrajectorySum]
        } else {
            Seq::empty()
        })
    }
}

/// The issues of an object; the two sums are judged by the caller.
pub fn object_issues(n_modes: usize, empty_modes: usize, mode_sum_ok: bool, traj_sum_ok: bool) -> (r: Vec<ObjectIssue>)
    ensures
        r@ == issues_of(n_modes, empty_modes, mode_sum_ok, traj_sum_ok),
{
    let mut out: Vec<ObjectIssue> = Vec::new();
    if n_modes == 0 {
        out.push(ObjectIssue::NoModes);
        assert(out@ =~= seq![ObjectIssue::NoModes]);
        return out;
    }
    if !mode_sum_ok {
        out.push(ObjectIssue::ModeSum);
    }
    if empty_modes > 0 {
        out.push(ObjectIssue::EmptyModes(empty_modes));
    }
    if !traj_sum_ok && empty_modes == 0 {
        out.push(ObjectIssue::TrajectorySum);
    }
    assert(out@ =~= issues_of(n_modes, empty_modes, mode_sum_ok, traj_sum_ok));
    out
}

/// An object is valid when both sums are 1 and no mode is empty; then, and
/// only then when it has a mode, it has no issue.
pub proof fn law_valid_means_no_issues(n_modes: usize, empty_modes: usize, mode_sum_ok: bool, traj_sum_ok: bool)
    requires
        n_modes > 0,
    ensures
        (issues_of(n_modes, empty_modes, mode_sum_ok, traj_sum_ok).len() == 0) == (mode_sum_ok && traj_sum_ok
            && empty_modes == 0),
{
}

} // verus!
