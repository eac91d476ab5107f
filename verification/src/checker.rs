//! The differential checker: what the two resolvers said about one root, and
//! whether that counts as agreement.

use crate::text::{is_prefix, text_starts_with};
use vstd::prelude::*;

verus! {

/// What the solver under test made of a root.
#[derive(Clone, Copy, Debug, PartialEq, Eq, Structural, Hash)]
pub enum SolverOutcome {
    /// It found an assignment; `consistent` says whether the assignment stood
    /// the consistency check.
    Solved { consistent: bool },
    /// It proved that there is none.
    NoSolution,
    /// It gave up with an error of its own.
    InternalError,
}

/// What the reference resolver made of a root.
#[derive(Clone, Copy, Debug, PartialEq, Eq, Structural, Hash)]
pub enum ReferenceOutcome {
    /// It found an assignment.
    Solved,
    /// It failed; `cyclic` says whether it complained of a cyclic package
    /// dependency, which the solver under test does not look for.
    Failed { cyclic: bool },
}

/// The verdict on one root.
#[derive(Clone, Copy, Debug, PartialEq, Eq, Structural, Hash)]
pub enum Classification {
    Agree,
    Disagree,
    Skipped,
}

/// Which resolvers are run on a root.
#[derive(Clone, Copy, Debug, PartialEq, Eq, Structural, Hash)]
pub enum Mode {
    /// Both, and their outcomes are compared.
    All,
    /// Only the solver under test.
    SolverOnly,
}

/// Where the check of one root stands.
#[derive(Clone, Copy, Debug, PartialEq, Eq, Structural, Hash)]
pub enum CheckState {
    Idle,
    RanEngineA { a: SolverOutcome },
    RanEngineB { a: SolverOutcome, b: ReferenceOutcome },
    Classified { verdict: Classification },
}

/// What moves the check of one root on.
#[derive(Clone, Copy, Debug, PartialEq, Eq, Structural, Hash)]
pub enum CheckEvent {
    /// The solver under test has answered.
    EngineA { a: SolverOutcome },
    /// The reference resolver has answered.
    EngineB { b: ReferenceOutcome },
    /// No further resolver will be run.
    Close,
}

impl SolverOutcome {
    /// The solver found an assignment.
    pub open spec fn solved(self) -> bool {
        self is Solved
    }

    /// The outcome is a fault of the solver whatever the reference resolver
    /// says: an error of its own, or an assignment that is not consistent.
    pub open spec fn anomalous(self) -> bool {
        match self {
            SolverOutcome::Solved { consistent } => !consistent,
            SolverOutcome::NoSolution => false,
            SolverOutcome::InternalError => true,
        }
    }
}

/// Whether the reference resolver is to be run: the solver's outcome is no
/// fault by itself, and the reference registry holds the root.
pub open spec fn wants_reference(a: SolverOutcome, reference_has_root: bool) -> bool {
    !a.anomalous() && reference_has_root
}

/// The verdict on the outcomes; `b` is `None` where the reference resolver was
/// not run.
pub open spec fn verdict(a: SolverOutcome, b: Option<ReferenceOutcome>) -> Classification {
    if a.anomalous() {
        Classification::Disagree
    } else {
        match b {
            None => Classification::Skipped,
            Some(ReferenceOutcome::Failed { cyclic: true }) => Classification::Skipped,
            Some(ReferenceOutcome::Failed { cyclic: false }) => if a.solved() {
                Classification::Disagree
            } else {
                Classification::Agree
            },
            Some(ReferenceOutcome::Solved) => if a.solved() {
                Classification::Agree
            } else {
                Classification::Disagree
            },
        }
    }
}

/// The state after an event. An event that the state does not wait for leaves
/// it as it is.
pub open spec fn next_state(state: CheckState, event: CheckEvent) -> CheckState {
    match (state, event) {
        (CheckState::Idle, CheckEvent::EngineA { a }) => CheckState::RanEngineA { a: a },
        (CheckState::RanEngineA { a }, CheckEvent::EngineB { b }) => CheckState::RanEngineB { a: a, b: b },
        (CheckState::RanEngineA { a }, CheckEvent::Close) => CheckState::Classified { verdict: verdict(a, None) },
        (CheckState::RanEngineB { a, b }, CheckEvent::Close) => CheckState::Classified { verdict: verdict(a, Some(b)) },
        _ => state,
    }
}

/// The text with which the reference resolver starts its complaint of a cyclic
/// package dependency.
pub open spec fn cyclic_prefix() -> Seq<char> {
    "cyclic package dependency"@
}

/// What a reply of the reference resolver counts as: `Err` holds its error
/// message.
pub open spec fn reference_outcome(reply: Result<(), String>) -> ReferenceOutcome {
    match reply {
        Ok(_) => ReferenceOutcome::Solved,
        Err(message) => ReferenceOutcome::Failed { cyclic: is_prefix(cyclic_prefix(), message@) },
    }
}

/// What a reply of the reference resolver counts as.
pub fn judge_reference(reply: &Result<(), String>) -> (r: ReferenceOutcome)
    ensures
        r == reference_outcome(*reply),
{
    match reply {
        Ok(_) => ReferenceOutcome::Solved,
        Err(message) => ReferenceOutcome::Failed { cyclic: is_cyclic_dependency(message.as_str()) },
    }
}

/// Whether an error message of the reference resolver complains of a cyclic
/// package dependency.
pub fn is_cyclic_dependency(message: &str) -> (r: bool)
    ensures
        r == is_prefix(cyclic_prefix(), message@),
{
    text_starts_with(message, "cyclic package dependency")
}

/// The verdict on the outcomes; `b` is `None` where the reference resolver was
/// not run.
pub fn classify(a: SolverOutcome, b: Option<ReferenceOutcome>) -> (r: Classification)
    ensures
        r == verdict(a, b),
{
    let solved: bool = match a {
        SolverOutcome::Solved { consistent } => {
            if !consistent {
                return Classification::Disagree;
            }
            true
        },
        SolverOutcome::NoSolution => false,
        SolverOutcome::InternalError => {
            return Classification::Disagree;
        },
    };
    match b {
        None => Classification::Skipped,
        Some(ReferenceOutcome::Failed { cyclic }) => {
            if cyclic {
                Classification::Skipped
            } else if solved {
                Classification::Disagree
            } else {
                Classification::Agree
            }
        },
        Some(ReferenceOutcome::Solved) => {
            if solved {
                Classification::Agree
            } else {
                Classification::Disagree
            }
        },
    }
}

/// Whether a root with this verdict stands: only a disagreement fails it.
pub fn passes(c: Classification) -> (r: bool)
    ensures
        r == (c != Classification::Disagree),
{
    match c {
        Classification::Disagree => false,
        _ => true,
    }
}

impl CheckState {
    /// The state after an event.
    pub fn next(self, event: CheckEvent) -> (r: CheckState)
        ensures
            r == next_state(self, event),
    {
        match self {
            CheckState::Idle => match event {
                CheckEvent::EngineA { a } => CheckState::RanEngineA { a: a },
                _ => self,
            },
            CheckState::RanEngineA { a } => match event {
                CheckEvent::EngineB { b } => CheckState::RanEngineB { a: a, b: b },
                CheckEvent::Close => CheckState::Classified { verdict: classify(a, None) },
                _ => self,
            },
            CheckState::RanEngineB { a, b } => match event {
                CheckEvent::Close => CheckState::Classified { verdict: classify(a, Some(b)) },
                _ => self,
            },
            CheckState::Classified { verdict } => self,
        }
    }

    /// Whether the reference resolver is to be run next.
    pub fn wants_engine_b(self, reference_has_root: bool) -> (r: bool)
        ensures
            r == match self {
                CheckState::RanEngineA { a } => wants_reference(a, reference_has_root),
                _ => false,
            },
    {
        match self {
            CheckState::RanEngineA { a } => {
                let anomalous: bool = match a {
                    SolverOutcome::Solved { consistent } => !consistent,
                    SolverOutcome::NoSolution => false,
                    SolverOutcome::InternalError => true,
                };
                !anomalous && reference_has_root
            },
            _ => false,
        }
    }
}

/// Checks one root: runs the solver under test, then the reference resolver
/// where it is wanted, and gives the verdict on what they said.
pub fn check<A: FnOnce() -> SolverOutcome, B: FnOnce() -> ReferenceOutcome>(
    run_solver: A,
    reference_has_root: bool,
    run_reference: B,
) -> (r: Classification)
    requires
        call_requires(run_solver, ()),
        call_requires(run_reference, ()),
    ensures
        exists|a: SolverOutcome| #[trigger] call_ensures(run_solver, (), a) && if wants_reference(a, reference_has_root) {
            exists|b: ReferenceOutcome| #[trigger] call_ensures(run_reference, (), b) && r == verdict(a, Some(b))
        } else {
            r == verdict(a, None)
        },
{
    let a: SolverOutcome = run_solver();
    let mut state = CheckState::Idle.next(CheckEvent::EngineA { a: a });
    if state.wants_engine_b(reference_has_root) {
        let b: ReferenceOutcome = run_reference();
        state = state.next(CheckEvent::EngineB { b: b });
    }
    state = state.next(CheckEvent::Close);
    match state {
        CheckState::Classified { verdict } => verdict,
        _ => Classification::Disagree,
    }
}

/// A root counts as agreed with both resolvers solving only where the solver's
/// assignment stood the consistency check.
pub proof fn lemma_agreement_is_consistent(a: SolverOutcome, b: Option<ReferenceOutcome>)
    requires
        verdict(a, b) == Classification::Agree,
    ensures
        b.is_some(),
        a.solved() <==> b == Some(ReferenceOutcome::Solved),
        a.solved() ==> a == (SolverOutcome::Solved { consistent: true }),
        !a.solved() ==> a == SolverOutcome::NoSolution && b == Some(ReferenceOutcome::Failed { cyclic: false }),
{
}

} // verus!
