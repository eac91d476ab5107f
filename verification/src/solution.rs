//! The consistency check of an assignment that a resolver returned.

use crate::checker::{
    classify, judge_reference, reference_outcome, verdict, wants_reference, CheckEvent, CheckState,
    Classification, Mode, ReferenceOutcome, SolverOutcome,
};
use crate::index_data::{Dependency, DependencyKind, DependencyModel, Version, VersionModel};
use crate::read_index::{Key, Snapshot};
use crate::semver_text::{requirement_admits, requirement_matches};
use crate::text::text_eq;
use vstd::prelude::*;

verus! {

/// One package of an assignment as a mathematical value.
pub struct SelectedModel {
    pub name: Seq<char>,
    pub vers: Seq<char>,
    pub features: Seq<Seq<char>>,
}

/// One package of an assignment: the version chosen and the features enabled
/// on it.
#[derive(Clone, Debug, PartialEq, Eq, Hash)]
pub struct Selected {
    pub name: String,
    pub vers: String,
    pub features: Vec<String>,
}

impl View for Selected {
    type V = SelectedModel;

    open spec fn view(&self) -> SelectedModel {
        SelectedModel { name: self.name@, vers: self.vers@, features: self.features.deep_view() }
    }
}

impl DeepView for Selected {
    type V = SelectedModel;

    open spec fn deep_view(&self) -> SelectedModel {
        self.view()
    }
}

/// The dependency has to be met whatever features are enabled: it is not
/// optional and not needed for development only.
pub open spec fn binding(dep: DependencyModel) -> bool {
    !dep.optional && dep.kind != DependencyKind::Dev
}

/// The pick at `j` is a version of the package that the dependency names and
/// satisfies its requirement.
pub open spec fn meets(dep: DependencyModel, picks: Seq<SelectedModel>, j: int) -> bool {
    0 <= j < picks.len() && picks[j].name == dep.package_name && requirement_admits(dep.req, picks[j].vers)
}

/// Some pick meets the dependency.
pub open spec fn requirement_met(dep: DependencyModel, picks: Seq<SelectedModel>) -> bool {
    exists|j: int| meets(dep, picks, j)
}

/// Every binding dependency of the version is met.
pub open spec fn requirements_met(v: VersionModel, picks: Seq<SelectedModel>) -> bool {
    forall|i: int| 0 <= i < v.deps.len() && binding(#[trigger] v.deps[i]) ==> requirement_met(v.deps[i], picks)
}

/// The text is the name of a feature of the version.
pub open spec fn names_feature(v: VersionModel, f: Seq<char>) -> bool {
    exists|m: int| 0 <= m < v.features.len() && (#[trigger] v.features[m]).0 == f
}

/// The entry at `i` of the feature table is honoured: where its feature is
/// enabled, so is every feature of the version that it implies.
pub open spec fn entry_honoured(v: VersionModel, enabled: Seq<Seq<char>>, i: int) -> bool {
    enabled.contains(v.features[i].0) ==> forall|k: int| 0 <= k < v.features[i].1.len() && names_feature(v, #[trigger] v.features[i].1[k]) ==> enabled.contains(v.features[i].1[k])
}

/// The enabled features are closed under what the feature table implies.
pub open spec fn implied_enabled(v: VersionModel, enabled: Seq<Seq<char>>) -> bool {
    forall|i: int| 0 <= i < v.features.len() ==> #[trigger] entry_honoured(v, enabled, i)
}

/// The pick is a version of the snapshot, its binding dependencies are met by
/// the picks, and its enabled features are closed.
pub open spec fn pick_consistent(snapshot: Map<Key, VersionModel>, picks: Seq<SelectedModel>, p: SelectedModel) -> bool {
    &&& snapshot.dom().contains((p.name, p.vers))
    &&& requirements_met(snapshot[(p.name, p.vers)], picks)
    &&& implied_enabled(snapshot[(p.name, p.vers)], p.features)
}

/// Every pick of the assignment is consistent.
pub open spec fn consistent(snapshot: Map<Key, VersionModel>, picks: Seq<SelectedModel>) -> bool {
    forall|i: int| 0 <= i < picks.len() ==> pick_consistent(snapshot, picks, #[trigger] picks[i])
}

/// Whether the texts hold `t`.
pub fn holds_text(texts: &Vec<String>, t: &str) -> (r: bool)
    ensures
        r == texts.deep_view().contains(t@),
{
    let mut i: usize = 0;
    while i < texts.len()
        invariant
            i <= texts.len(),
            forall|j: int| 0 <= j < i ==> texts.deep_view()[j] != t@,
        decreases texts.len() - i,
    {
        proof {
            assert(texts.deep_view()[i as int] == texts[i as int]@);
        }
        if text_eq(texts[i].as_str(), t) {
            return true;
        }
        i = i + 1;
    }
    false
}

/// Whether some pick meets the dependency.
pub fn requirement_is_met(dep: &Dependency, picks: &Vec<Selected>) -> (r: bool)
    ensures
        r == requirement_met(dep@, picks.deep_view()),
{
    let mut j: usize = 0;
    while j < picks.len()
        invariant
            j <= picks.len(),
            forall|k: int| 0 <= k < j ==> !meets(dep@, picks.deep_view(), k),
        decreases picks.len() - j,
    {
        proof {
            assert(picks.deep_view()[j as int] == picks[j as int]@);
        }
        if picks[j].name == dep.package_name && requirement_matches(dep.req.as_str(), picks[j].vers.as_str()) {
            proof {
                assert(meets(dep@, picks.deep_view(), j as int));
            }
            return true;
        }
        j = j + 1;
    }
    false
}

/// Whether every binding dependency of the version is met.
pub fn requirements_are_met(v: &Version, picks: &Vec<Selected>) -> (r: bool)
    ensures
        r == requirements_met(v@, picks.deep_view()),
{
    let mut i: usize = 0;
    while i < v.deps.len()
        invariant
            i <= v.deps.len(),
            forall|k: int| 0 <= k < i && binding(#[trigger] v@.deps[k]) ==> requirement_met(v@.deps[k], picks.deep_view()),
        decreases v.deps.len() - i,
    {
        proof {
            assert(v@.deps[i as int] == v.deps[i as int]@);
        }
        let dep = &v.deps[i];
        let is_dev: bool = match dep.kind {
            DependencyKind::Dev => true,
            _ => false,
        };
        if !dep.optional && !is_dev {
            if !requirement_is_met(dep, picks) {
                proof {
                    assert(binding(v@.deps[i as int]));
                }
                return false;
            }
        }
        i = i + 1;
    }
    true
}

/// Whether the text is the name of a feature of the version.
pub fn is_feature_of(v: &Version, f: &str) -> (r: bool)
    ensures
        r == names_feature(v@, f@),
{
    let mut m: usize = 0;
    while m < v.features.len()
        invariant
            m <= v.features.len(),
            forall|k: int| 0 <= k < m ==> (#[trigger] v@.features[k]).0 != f@,
        decreases v.features.len() - m,
    {
        proof {
            assert(v@.features[m as int] == v.features[m as int].deep_view());
        }
        if text_eq(v.features[m].0.as_str(), f) {
            return true;
        }
        m = m + 1;
    }
    false
}

/// Whether the entry at `i` of the feature table is honoured.
pub fn entry_is_honoured(v: &Version, enabled: &Vec<String>, i: usize) -> (r: bool)
    requires
        i < v.features.len(),
    ensures
        r == entry_honoured(v@, enabled.deep_view(), i as int),
{
    proof {
        assert(v@.features[i as int] == v.features[i as int].deep_view());
    }
    if !holds_text(enabled, v.features[i].0.as_str()) {
        return true;
    }
    let implied = &v.features[i].1;
    let mut k: usize = 0;
    while k < implied.len()
        invariant
            k <= implied.len(),
            i < v.features.len(),
            implied == &v.features[i as int].1,
            v@.features[i as int] == v.features[i as int].deep_view(),
            enabled.deep_view().contains(v@.features[i as int].0),
            forall|n: int| 0 <= n < k && names_feature(v@, #[trigger] v@.features[i as int].1[n]) ==> enabled.deep_view().contains(v@.features[i as int].1[n]),
        decreases implied.len() - k,
    {
        proof {
            assert(v@.features[i as int].1[k as int] == implied[k as int]@);
        }
        if is_feature_of(v, implied[k].as_str()) && !holds_text(enabled, implied[k].as_str()) {
            proof {
                assert(names_feature(v@, v@.features[i as int].1[k as int]));
                assert(!enabled.deep_view().contains(v@.features[i as int].1[k as int]));
            }
            return false;
        }
        k = k + 1;
    }
    true
}

/// Whether the enabled features are closed under what the feature table implies.
pub fn implied_are_enabled(v: &Version, enabled: &Vec<String>) -> (r: bool)
    ensures
        r == implied_enabled(v@, enabled.deep_view()),
{
    let mut i: usize = 0;
    while i < v.features.len()
        invariant
            i <= v.features.len(),
            forall|n: int| 0 <= n < i ==> #[trigger] entry_honoured(v@, enabled.deep_view(), n),
        decreases v.features.len() - i,
    {
        if !entry_is_honoured(v, enabled, i) {
            return false;
        }
        i = i + 1;
    }
    true
}

/// Whether an assignment is consistent with the snapshot: every pick is a
/// version of the snapshot, every binding dependency of a pick is met by a pick
/// that satisfies its requirement, and the features enabled on a pick are
/// closed under what its feature table implies.
pub fn solution_consistent(snapshot: &Snapshot, picks: &Vec<Selected>) -> (r: bool)
    ensures
        r == consistent(snapshot@, picks.deep_view()),
{
    let mut i: usize = 0;
    while i < picks.len()
        invariant
            i <= picks.len(),
            forall|n: int| 0 <= n < i ==> pick_consistent(snapshot@, picks.deep_view(), #[trigger] picks.deep_view()[n]),
        decreases picks.len() - i,
    {
        proof {
            assert(picks.deep_view()[i as int] == picks[i as int]@);
        }
        let p = &picks[i];
        match snapshot.get(p.name.as_str(), p.vers.as_str()) {
            None => {
                return false;
            },
            Some(v) => {
                if !requirements_are_met(&v, picks) || !implied_are_enabled(&v, &p.features) {
                    return false;
                }
            },
        }
        i = i + 1;
    }
    true
}

/// What the solver under test returned for a root.
#[derive(Clone, Debug, PartialEq, Eq)]
pub enum SolverAnswer {
    /// An assignment.
    Solved { picks: Vec<Selected> },
    /// The proof that there is none.
    NoSolution,
    /// An error of its own.
    InternalError,
}

/// The outcome that an answer counts as: an assignment is put to the
/// consistency check.
pub open spec fn outcome_of(snapshot: Map<Key, VersionModel>, answer: SolverAnswer) -> SolverOutcome {
    match answer {
        SolverAnswer::Solved { picks } => SolverOutcome::Solved { consistent: consistent(snapshot, picks.deep_view()) },
        SolverAnswer::NoSolution => SolverOutcome::NoSolution,
        SolverAnswer::InternalError => SolverOutcome::InternalError,
    }
}

/// The outcome that the solver's answer counts as.
pub fn judge(snapshot: &Snapshot, answer: &SolverAnswer) -> (r: SolverOutcome)
    ensures
        r == outcome_of(snapshot@, *answer),
{
    match answer {
        SolverAnswer::Solved { picks } => SolverOutcome::Solved { consistent: solution_consistent(snapshot, picks) },
        SolverAnswer::NoSolution => SolverOutcome::NoSolution,
        SolverAnswer::InternalError => SolverOutcome::InternalError,
    }
}

/// Where a root is agreed on with both resolvers solving, the solver's
/// assignment is consistent: each pick is a version of the snapshot, each of
/// its binding dependencies is met by a pick that satisfies the requirement,
/// and with an enabled feature the features that it implies are enabled.
pub proof fn lemma_agreed_solution_consistent(
    snapshot: Map<Key, VersionModel>,
    picks: Vec<Selected>,
    b: Option<ReferenceOutcome>,
)
    requires
        verdict(outcome_of(snapshot, SolverAnswer::Solved { picks }), b) == Classification::Agree,
    ensures
        b == Some(ReferenceOutcome::Solved),
        consistent(snapshot, picks.deep_view()),
        forall|i: int| 0 <= i < picks.len() ==> pick_consistent(snapshot, picks.deep_view(), #[trigger] picks.deep_view()[i]),
{
}

/// Whether the reference resolver can be asked about a root at all: both
/// resolvers are to run, the reference registry could be built, and the
/// snapshot holds the root.
pub open spec fn reference_has_root(
    snapshot: Map<Key, VersionModel>,
    name: Seq<char>,
    vers: Seq<char>,
    mode: Mode,
    reference_ready: bool,
) -> bool {
    mode == Mode::All && reference_ready && snapshot.dom().contains((name, vers))
}

/// Checks the root `name` at `vers` against the snapshot. The solver under test
/// is run and its answer judged: an assignment is put to the consistency check.
/// The reference resolver is run where the solver's outcome is no fault by
/// itself and the reference resolver can be asked about the root; its reply is
/// judged by its error message. The verdict is that on the two outcomes.
pub fn check_root<A: FnOnce() -> SolverAnswer, B: FnOnce() -> Result<(), String>>(
    snapshot: &Snapshot,
    name: &str,
    vers: &str,
    mode: Mode,
    reference_ready: bool,
    run_solver: A,
    run_reference: B,
) -> (r: Classification)
    requires
        call_requires(run_solver, ()),
        call_requires(run_reference, ()),
    ensures
        exists|answer: SolverAnswer| #[trigger] call_ensures(run_solver, (), answer) && if wants_reference(
            outcome_of(snapshot@, answer),
            reference_has_root(snapshot@, name@, vers@, mode, reference_ready),
        ) {
            exists|reply: Result<(), String>| #[trigger] call_ensures(run_reference, (), reply) && r == verdict(
                outcome_of(snapshot@, answer),
                Some(reference_outcome(reply)),
            )
        } else {
            r == verdict(outcome_of(snapshot@, answer), None)
        },
{
    let answer: SolverAnswer = run_solver();
    let a: SolverOutcome = judge(snapshot, &answer);
    let both: bool = match mode {
        Mode::All => true,
        Mode::SolverOnly => false,
    };
    let has_root: bool = both && reference_ready && snapshot.contains(name, vers);
    let state = CheckState::Idle.next(CheckEvent::EngineA { a: a });
    if state.wants_engine_b(has_root) {
        let reply: Result<(), String> = run_reference();
        let b: ReferenceOutcome = judge_reference(&reply);
        classify(a, Some(b))
    } else {
        classify(a, None)
    }
}

} // verus!
