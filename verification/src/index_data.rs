//! The canonical registry model: dependencies and published versions, built
//! from raw registry records.

use crate::order::{
    ascending, lemma_place_all_stable, lemma_place_at, lemma_place_sorted, lemma_put_all_stable,
    lemma_put_at, lemma_put_canonical, place_all, put_all, strictly_ascending,
};
use crate::semver_text::{parse_requirement, parse_version, requirement_text, version_text};
use crate::text::{lemma_lex_le_total, lex_le, lex_lt, text_le};
use vstd::prelude::*;

verus! {

/// What a dependency is needed for.
#[derive(Clone, Copy, Debug, PartialEq, Eq, Structural, Hash)]
pub enum DependencyKind {
    Normal,
    Dev,
    Build,
}

impl Default for DependencyKind {
    fn default() -> (r: Self)
        ensures
            r == DependencyKind::Normal,
    {
        DependencyKind::Normal
    }
}

/// Why a raw record was refused.
#[derive(Clone, Copy, Debug, PartialEq, Eq, Structural, Hash)]
pub enum ParseError {
    /// The version number of the record is no version number.
    InvalidVersion,
    /// A requirement of one of its dependencies is no requirement.
    InvalidRequirement,
}

/// A dependency as a mathematical value.
pub struct DependencyModel {
    pub name: Seq<char>,
    pub package_name: Seq<char>,
    pub req: Seq<char>,
    pub features: Seq<Seq<char>>,
    pub default_features: bool,
    pub kind: DependencyKind,
    pub optional: bool,
}

/// A dependency as the registry states it.
#[derive(Clone, Debug, PartialEq, Eq, Hash)]
pub struct RawDependency {
    pub name: String,
    pub package_name: String,
    pub req: String,
    pub features: Vec<String>,
    pub default_features: bool,
    pub kind: DependencyKind,
    pub optional: bool,
}

/// A dependency in canonical form: its requirement as `semver` renders it, its
/// features in order and each once.
#[derive(Clone, Debug, PartialEq, Eq, Hash)]
pub struct Dependency {
    pub name: String,
    pub package_name: String,
    pub req: String,
    pub features: Vec<String>,
    pub default_features: bool,
    pub kind: DependencyKind,
    pub optional: bool,
}

impl View for RawDependency {
    type V = DependencyModel;

    open spec fn view(&self) -> DependencyModel {
        DependencyModel {
            name: self.name@,
            package_name: self.package_name@,
            req: self.req@,
            features: self.features.deep_view(),
            default_features: self.default_features,
            kind: self.kind,
            optional: self.optional,
        }
    }
}

impl DeepView for RawDependency {
    type V = DependencyModel;

    open spec fn deep_view(&self) -> DependencyModel {
        self.view()
    }
}

impl View for Dependency {
    type V = DependencyModel;

    open spec fn view(&self) -> DependencyModel {
        DependencyModel {
            name: self.name@,
            package_name: self.package_name@,
            req: self.req@,
            features: self.features.deep_view(),
            default_features: self.default_features,
            kind: self.kind,
            optional: self.optional,
        }
    }
}

impl DeepView for Dependency {
    type V = DependencyModel;

    open spec fn deep_view(&self) -> DependencyModel {
        self.view()
    }
}

/// The key of a text in a set of texts: the text itself.
pub open spec fn text_key() -> spec_fn(Seq<char>) -> Seq<char> {
    |s: Seq<char>| s
}

/// The key by which dependencies are ordered: the name of the package depended on.
pub open spec fn dependency_key() -> spec_fn(DependencyModel) -> Seq<char> {
    |d: DependencyModel| d.package_name
}

/// The texts in order, each once.
pub open spec fn canonical_set(texts: Seq<Seq<char>>) -> Seq<Seq<char>> {
    put_all(texts, text_key())
}

/// The canonical form of a raw dependency: `None` where its requirement is none.
pub open spec fn canonical_dependency(raw: DependencyModel) -> Option<DependencyModel> {
    match requirement_text(raw.req) {
        None => None,
        Some(req) => Some(
            DependencyModel {
                name: raw.name,
                package_name: raw.package_name,
                req: req,
                features: canonical_set(raw.features),
                default_features: raw.default_features,
                kind: raw.kind,
                optional: raw.optional,
            },
        ),
    }
}

impl DependencyModel {
    /// The features are in order and none occurs twice.
    pub open spec fn wf(self) -> bool {
        strictly_ascending(self.features, text_key())
    }
}

/// The canonical set is in strict order and holds exactly the given texts.
pub proof fn lemma_canonical_set(texts: Seq<Seq<char>>)
    ensures
        strictly_ascending(canonical_set(texts), text_key()),
        forall|s: Seq<char>| #[trigger] canonical_set(texts).contains(s) <==> texts.contains(s),
    decreases texts.len(),
{
    if texts.len() > 0 {
        let head = texts.drop_last();
        lemma_canonical_set(head);
        lemma_put_canonical(canonical_set(head), texts.last(), text_key());
        assert forall|s: Seq<char>| #[trigger] canonical_set(texts).contains(s) <==> texts.contains(s) by {
            if texts.contains(s) {
                let i = choose|i: int| 0 <= i < texts.len() && texts[i] == s;
                if i < texts.len() - 1 {
                    assert(head[i] == s);
                    assert(head.contains(s));
                }
            }
            if head.contains(s) {
                let i = choose|i: int| 0 <= i < head.len() && head[i] == s;
                assert(texts[i] == s);
            }
            assert(texts[texts.len() - 1] == texts.last());
        }
    }
}

/// A copy of the texts.
pub fn copy_texts(texts: &Vec<String>) -> (r: Vec<String>)
    ensures
        r.deep_view() == texts.deep_view(),
{
    let mut out: Vec<String> = Vec::new();
    let mut i: usize = 0;
    while i < texts.len()
        invariant
            i <= texts.len(),
            out.len() == i,
            forall|j: int| 0 <= j < i ==> out[j]@ == texts[j]@,
        decreases texts.len() - i,
    {
        out.push(texts[i].clone());
        i = i + 1;
    }
    proof {
        assert(out.deep_view() =~= texts.deep_view());
    }
    out
}

/// The texts in order, each once.
pub fn canonical_texts(texts: &Vec<String>) -> (r: Vec<String>)
    ensures
        r.deep_view() == canonical_set(texts.deep_view()),
        strictly_ascending(r.deep_view(), text_key()),
        forall|s: Seq<char>| #[trigger] r.deep_view().contains(s) <==> texts.deep_view().contains(s),
{
    let ghost all = texts.deep_view();
    let mut out: Vec<String> = Vec::new();
    let mut i: usize = 0;
    proof {
        assert(all.take(0) =~= Seq::empty());
        assert(out.deep_view() =~= Seq::empty());
    }
    while i < texts.len()
        invariant
            i <= texts.len(),
            all == texts.deep_view(),
            out.deep_view() == canonical_set(all.take(i as int)),
        decreases texts.len() - i,
    {
        let x: String = texts[i].clone();
        let ghost before = out.deep_view();
        let mut pos: usize = 0;
        while pos < out.len() && !text_le(x.as_str(), out[pos].as_str())
            invariant
                pos <= out.len(),
                before == out.deep_view(),
                forall|j: int| 0 <= j < pos ==> lex_lt(#[trigger] text_key()(before[j]), x@),
            decreases out.len() - pos,
        {
            proof {
                lemma_lex_le_total(x@, out[pos as int]@);
                assert(before[pos as int] == out[pos as int]@);
            }
            pos = pos + 1;
        }
        proof {
            if pos < out.len() {
                assert(before[pos as int] == out[pos as int]@);
            }
            lemma_put_at(before, x@, text_key(), pos as int);
            assert(all.take(i as int + 1).drop_last() =~= all.take(i as int));
            assert(all.take(i as int + 1).last() == x@);
        }
        if pos < out.len() && out[pos] == x {
            proof {
                assert(before.update(pos as int, x@) =~= before);
            }
        } else {
            out.insert(pos, x);
            proof {
                assert(out.deep_view() =~= before.insert(pos as int, x@));
            }
        }
        i = i + 1;
    }
    proof {
        assert(all.take(i as int) =~= all);
        lemma_canonical_set(all);
    }
    out
}

impl Dependency {
    /// A copy of the dependency.
    pub fn copy(&self) -> (r: Dependency)
        ensures
            r@ == self@,
    {
        Dependency {
            name: self.name.clone(),
            package_name: self.package_name.clone(),
            req: self.req.clone(),
            features: copy_texts(&self.features),
            default_features: self.default_features,
            kind: self.kind,
            optional: self.optional,
        }
    }

    /// The canonical form of a raw dependency, or the reason why it has none.
    pub fn try_from(raw: &RawDependency) -> (r: Result<Dependency, ParseError>)
        ensures
            match r {
                Ok(d) => canonical_dependency(raw@) == Some(d@) && d@.wf(),
                Err(e) => canonical_dependency(raw@).is_none() && e == ParseError::InvalidRequirement,
            },
    {
        let features = canonical_texts(&raw.features);
        match parse_requirement(raw.req.as_str()) {
            Ok(req) => Ok(
                Dependency {
                    name: raw.name.clone(),
                    package_name: raw.package_name.clone(),
                    req: req,
                    features: features,
                    default_features: raw.default_features,
                    kind: raw.kind,
                    optional: raw.optional,
                },
            ),
            Err(_) => Err(ParseError::InvalidRequirement),
        }
    }
}

/// A published version as a mathematical value.
pub struct VersionModel {
    pub name: Seq<char>,
    pub vers: Seq<char>,
    pub deps: Seq<DependencyModel>,
    pub features: Seq<(Seq<char>, Seq<Seq<char>>)>,
    pub links: Option<Seq<char>>,
    pub yanked: bool,
}

/// One published version of a package as the registry states it.
#[derive(Clone, Debug, PartialEq, Eq, Hash)]
pub struct RawVersion {
    pub name: String,
    pub vers: String,
    pub deps: Vec<RawDependency>,
    pub features: Vec<(String, Vec<String>)>,
    pub links: Option<String>,
    pub yanked: bool,
}

/// One published version of a package in canonical form: its number as `semver`
/// renders it, its dependencies in order of the packages they name, its feature
/// table in order of the features, each once, with what each implies in order.
#[derive(Clone, Debug, PartialEq, Eq, Hash)]
pub struct Version {
    pub name: String,
    pub vers: String,
    pub deps: Vec<Dependency>,
    pub features: Vec<(String, Vec<String>)>,
    pub links: Option<String>,
    pub yanked: bool,
}

impl View for RawVersion {
    type V = VersionModel;

    open spec fn view(&self) -> VersionModel {
        VersionModel {
            name: self.name@,
            vers: self.vers@,
            deps: self.deps.deep_view(),
            features: self.features.deep_view(),
            links: self.links.deep_view(),
            yanked: self.yanked,
        }
    }
}

impl DeepView for RawVersion {
    type V = VersionModel;

    open spec fn deep_view(&self) -> VersionModel {
        self.view()
    }
}

impl View for Version {
    type V = VersionModel;

    open spec fn view(&self) -> VersionModel {
        VersionModel {
            name: self.name@,
            vers: self.vers@,
            deps: self.deps.deep_view(),
            features: self.features.deep_view(),
            links: self.links.deep_view(),
            yanked: self.yanked,
        }
    }
}

impl DeepView for Version {
    type V = VersionModel;

    open spec fn deep_view(&self) -> VersionModel {
        self.view()
    }
}

/// The key by which the entries of a feature table are ordered: the feature's name.
pub open spec fn feature_key() -> spec_fn((Seq<char>, Seq<Seq<char>>)) -> Seq<char> {
    |e: (Seq<char>, Seq<Seq<char>>)| e.0
}

/// Every dependency of the sequence has a canonical form.
pub open spec fn all_canonical(raws: Seq<DependencyModel>) -> bool {
    forall|i: int| 0 <= i < raws.len() ==> (#[trigger] canonical_dependency(raws[i])).is_some()
}

/// The canonical forms of the dependencies, in the order given.
pub open spec fn canonical_each(raws: Seq<DependencyModel>) -> Seq<DependencyModel> {
    Seq::new(raws.len(), |i: int| canonical_dependency(raws[i]).unwrap())
}

/// The canonical dependency list: each in canonical form, sorted by the package
/// depended on, those of one package in the order given.
pub open spec fn canonical_deps(raws: Seq<DependencyModel>) -> Seq<DependencyModel> {
    place_all(canonical_each(raws), dependency_key())
}

/// The entries of a raw feature table, each with what it implies in canonical form.
pub open spec fn canonical_entries(raw: Seq<(Seq<char>, Seq<Seq<char>>)>) -> Seq<(Seq<char>, Seq<Seq<char>>)> {
    Seq::new(raw.len(), |i: int| (raw[i].0, canonical_set(raw[i].1)))
}

/// The canonical feature table: in order of the features, a later entry of a
/// feature replacing an earlier one.
pub open spec fn canonical_table(raw: Seq<(Seq<char>, Seq<Seq<char>>)>) -> Seq<(Seq<char>, Seq<Seq<char>>)> {
    put_all(canonical_entries(raw), feature_key())
}

/// The canonical form of a raw record, or the reason why it has none: a
/// dependency's requirement is looked at before the version number.
pub open spec fn canonical_version(raw: VersionModel) -> Result<VersionModel, ParseError> {
    if !all_canonical(raw.deps) {
        Err(ParseError::InvalidRequirement)
    } else {
        match version_text(raw.vers) {
            None => Err(ParseError::InvalidVersion),
            Some(vers) => Ok(
                VersionModel {
                    name: raw.name,
                    vers: vers,
                    deps: canonical_deps(raw.deps),
                    features: canonical_table(raw.features),
                    links: raw.links,
                    yanked: raw.yanked,
                },
            ),
        }
    }
}

impl VersionModel {
    /// The dependencies are in order of the packages they name and each is well
    /// formed; the feature table is in order, no feature twice, and what each
    /// feature implies is in order, nothing twice.
    pub open spec fn wf(self) -> bool {
        &&& ascending(self.deps, dependency_key())
        &&& forall|i: int| 0 <= i < self.deps.len() ==> (#[trigger] self.deps[i]).wf()
        &&& strictly_ascending(self.features, feature_key())
        &&& forall|i: int| 0 <= i < self.features.len() ==> strictly_ascending((#[trigger] self.features[i]).1, text_key())
    }
}

/// The sorted dependency list is in order and a rearrangement of the list given.
pub proof fn lemma_place_all_sorted(items: Seq<DependencyModel>)
    ensures
        ascending(place_all(items, dependency_key()), dependency_key()),
        place_all(items, dependency_key()).to_multiset() == items.to_multiset(),
        place_all(items, dependency_key()).len() == items.len(),
    decreases items.len(),
{
    broadcast use vstd::seq_lib::group_to_multiset_ensures;
    if items.len() > 0 {
        let head = items.drop_last();
        lemma_place_all_sorted(head);
        lemma_place_sorted(place_all(head, dependency_key()), items.last(), dependency_key());
        assert(items =~= head.push(items.last()));
    } else {
        assert(items =~= Seq::empty());
    }
}

/// The canonical feature table is in strict order of its features, and every
/// entry in it is the canonical form of an entry of the raw table.
pub proof fn lemma_canonical_table(raw: Seq<(Seq<char>, Seq<Seq<char>>)>)
    ensures
        strictly_ascending(canonical_table(raw), feature_key()),
        forall|i: int| 0 <= i < canonical_table(raw).len() ==> canonical_entries(raw).contains(#[trigger] canonical_table(raw)[i]),
{
    lemma_put_all_canonical(canonical_entries(raw));
}

/// Putting entries one by one gives a table in strict order that holds entries
/// out of those given.
pub proof fn lemma_put_all_canonical(entries: Seq<(Seq<char>, Seq<Seq<char>>)>)
    ensures
        strictly_ascending(put_all(entries, feature_key()), feature_key()),
        forall|i: int| 0 <= i < put_all(entries, feature_key()).len() ==> entries.contains(#[trigger] put_all(entries, feature_key())[i]),
    decreases entries.len(),
{
    if entries.len() > 0 {
        let head = entries.drop_last();
        lemma_put_all_canonical(head);
        let t = put_all(head, feature_key());
        lemma_put_canonical(t, entries.last(), feature_key());
        let r = put_all(entries, feature_key());
        assert forall|i: int| 0 <= i < r.len() implies entries.contains(#[trigger] r[i]) by {
            assert(r.contains(r[i]));
            if r[i] == entries.last() {
                assert(entries[entries.len() - 1] == r[i]);
            } else {
                assert(t.contains(r[i]));
                let k = choose|k: int| 0 <= k < t.len() && t[k] == r[i];
                assert(head.contains(t[k]));
                let m = choose|m: int| 0 <= m < head.len() && head[m] == t[k];
                assert(entries[m] == r[i]);
            }
        }
    }
}

/// The canonical form of a record that has one is well formed.
pub proof fn lemma_canonical_version_wf(raw: VersionModel)
    requires
        canonical_version(raw).is_ok(),
    ensures
        canonical_version(raw).unwrap().wf(),
{
    broadcast use vstd::seq_lib::group_to_multiset_ensures;
    let v = canonical_version(raw).unwrap();
    let each = canonical_each(raw.deps);
    lemma_place_all_sorted(each);
    assert forall|i: int| 0 <= i < v.deps.len() implies (#[trigger] v.deps[i]).wf() by {
        assert(v.deps.to_multiset().count(v.deps[i]) > 0);
        assert(each.contains(v.deps[i]));
        let k = choose|k: int| 0 <= k < each.len() && each[k] == v.deps[i];
        lemma_canonical_set(raw.deps[k].features);
    }
    lemma_canonical_table(raw.features);
    assert forall|i: int| 0 <= i < v.features.len() implies strictly_ascending((#[trigger] v.features[i]).1, text_key()) by {
        let entries = canonical_entries(raw.features);
        assert(entries.contains(v.features[i]));
        let k = choose|k: int| 0 <= k < entries.len() && entries[k] == v.features[i];
        lemma_canonical_set(raw.features[k].1);
    }
}

/// The canonical order is stable: ordering a well-formed version once more
/// changes nothing in its dependency list, in the features of a dependency, in
/// its feature table or in what a feature implies.
pub proof fn lemma_canonical_order_stable(v: VersionModel)
    requires
        v.wf(),
    ensures
        place_all(v.deps, dependency_key()) == v.deps,
        forall|i: int| 0 <= i < v.deps.len() ==> canonical_set(#[trigger] v.deps[i].features) == v.deps[i].features,
        canonical_table(v.features) == v.features,
{
    lemma_place_all_stable(v.deps, dependency_key());
    assert forall|i: int| 0 <= i < v.deps.len() implies canonical_set(#[trigger] v.deps[i].features) == v.deps[i].features by {
        assert(v.deps[i].wf());
        lemma_put_all_stable(v.deps[i].features, text_key());
    }
    assert(canonical_entries(v.features) =~= v.features) by {
        assert forall|i: int| 0 <= i < v.features.len() implies canonical_entries(v.features)[i] == v.features[i] by {
            assert(strictly_ascending(v.features[i].1, text_key()));
            lemma_put_all_stable(v.features[i].1, text_key());
        }
    }
    lemma_put_all_stable(v.features, feature_key());
}

/// The dependencies in canonical form, sorted by the package depended on, or
/// `None` where one of them has no canonical form.
pub fn canonical_dependencies(raws: &Vec<RawDependency>) -> (r: Option<Vec<Dependency>>)
    ensures
        r.is_some() == all_canonical(raws.deep_view()),
        r.is_some() ==> r.unwrap().deep_view() == canonical_deps(raws.deep_view()),
{
    let ghost all = raws.deep_view();
    let mut out: Vec<Dependency> = Vec::new();
    let mut i: usize = 0;
    proof {
        assert(canonical_each(all).take(0) =~= Seq::empty());
        assert(out.deep_view() =~= Seq::empty());
    }
    while i < raws.len()
        invariant
            i <= raws.len(),
            all == raws.deep_view(),
            forall|j: int| 0 <= j < i ==> (#[trigger] canonical_dependency(all[j])).is_some(),
            out.deep_view() == place_all(canonical_each(all).take(i as int), dependency_key()),
        decreases raws.len() - i,
    {
        proof {
            assert(all[i as int] == raws[i as int]@);
        }
        let x: Dependency = match Dependency::try_from(&raws[i]) {
            Ok(d) => d,
            Err(_) => {
                return None;
            },
        };
        let ghost before = out.deep_view();
        let mut pos: usize = 0;
        while pos < out.len() && text_le(out[pos].package_name.as_str(), x.package_name.as_str())
            invariant
                pos <= out.len(),
                before == out.deep_view(),
                forall|j: int| 0 <= j < pos ==> lex_le(#[trigger] dependency_key()(before[j]), x@.package_name),
            decreases out.len() - pos,
        {
            proof {
                assert(before[pos as int] == out[pos as int]@);
            }
            pos = pos + 1;
        }
        proof {
            if pos < out.len() {
                assert(before[pos as int] == out[pos as int]@);
            }
            lemma_place_at(before, x@, dependency_key(), pos as int);
            let each = canonical_each(all);
            assert(each.take(i as int + 1).drop_last() =~= each.take(i as int));
            assert(each.take(i as int + 1).last() == x@);
        }
        out.insert(pos, x);
        proof {
            assert(out.deep_view() =~= before.insert(pos as int, x@));
        }
        i = i + 1;
    }
    proof {
        assert(canonical_each(all).take(i as int) =~= canonical_each(all));
    }
    Some(out)
}

/// The feature table in canonical form.
pub fn canonical_features(raw: &Vec<(String, Vec<String>)>) -> (r: Vec<(String, Vec<String>)>)
    ensures
        r.deep_view() == canonical_table(raw.deep_view()),
{
    let ghost all = canonical_entries(raw.deep_view());
    let mut out: Vec<(String, Vec<String>)> = Vec::new();
    let mut i: usize = 0;
    proof {
        assert(all.take(0) =~= Seq::empty());
        assert(out.deep_view() =~= Seq::empty());
    }
    while i < raw.len()
        invariant
            i <= raw.len(),
            all == canonical_entries(raw.deep_view()),
            out.deep_view() == put_all(all.take(i as int), feature_key()),
        decreases raw.len() - i,
    {
        let name: String = raw[i].0.clone();
        let implied: Vec<String> = canonical_texts(&raw[i].1);
        let ghost x = (name@, implied.deep_view());
        proof {
            assert(raw.deep_view()[i as int] == raw[i as int].deep_view());
            assert(all[i as int] == x);
        }
        let ghost before = out.deep_view();
        let mut pos: usize = 0;
        while pos < out.len() && !text_le(name.as_str(), out[pos].0.as_str())
            invariant
                pos <= out.len(),
                before == out.deep_view(),
                forall|j: int| 0 <= j < pos ==> lex_lt(#[trigger] feature_key()(before[j]), name@),
            decreases out.len() - pos,
        {
            proof {
                lemma_lex_le_total(name@, out[pos as int].0@);
                assert(before[pos as int] == out[pos as int].deep_view());
            }
            pos = pos + 1;
        }
        proof {
            if pos < out.len() {
                assert(before[pos as int] == out[pos as int].deep_view());
            }
            lemma_put_at(before, x, feature_key(), pos as int);
            assert(all.take(i as int + 1).drop_last() =~= all.take(i as int));
            assert(all.take(i as int + 1).last() == x);
        }
        if pos < out.len() && out[pos].0 == name {
            out.set(pos, (name, implied));
            proof {
                assert(out.deep_view() =~= before.update(pos as int, x));
            }
        } else {
            out.insert(pos, (name, implied));
            proof {
                assert(out.deep_view() =~= before.insert(pos as int, x));
            }
        }
        i = i + 1;
    }
    proof {
        assert(all.take(i as int) =~= all);
    }
    out
}

impl Version {
    /// The canonical form of a raw record, or the reason why it has none.
    pub fn try_from(raw: &RawVersion) -> (r: Result<Version, ParseError>)
        ensures
            match r {
                Ok(v) => canonical_version(raw@) == Ok::<VersionModel, ParseError>(v@) && v@.wf(),
                Err(e) => canonical_version(raw@) == Err::<VersionModel, ParseError>(e),
            },
    {
        let deps: Vec<Dependency> = match canonical_dependencies(&raw.deps) {
            Some(d) => d,
            None => {
                return Err(ParseError::InvalidRequirement);
            },
        };
        let vers: String = match parse_version(raw.vers.as_str()) {
            Ok(v) => v,
            Err(_) => {
                return Err(ParseError::InvalidVersion);
            },
        };
        let links: Option<String> = match &raw.links {
            Some(l) => Some(l.clone()),
            None => None,
        };
        let v = Version {
            name: raw.name.clone(),
            vers: vers,
            deps: deps,
            features: canonical_features(&raw.features),
            links: links,
            yanked: raw.yanked,
        };
        proof {
            lemma_canonical_version_wf(raw@);
        }
        Ok(v)
    }
}

/// A copy of a dependency list.
pub fn copy_dependencies(deps: &Vec<Dependency>) -> (r: Vec<Dependency>)
    ensures
        r.deep_view() == deps.deep_view(),
{
    let mut out: Vec<Dependency> = Vec::new();
    let mut i: usize = 0;
    while i < deps.len()
        invariant
            i <= deps.len(),
            out.len() == i,
            forall|j: int| 0 <= j < i ==> out[j]@ == deps[j]@,
        decreases deps.len() - i,
    {
        out.push(deps[i].copy());
        i = i + 1;
    }
    proof {
        assert(out.deep_view() =~= deps.deep_view());
    }
    out
}

/// A copy of a feature table.
pub fn copy_features(table: &Vec<(String, Vec<String>)>) -> (r: Vec<(String, Vec<String>)>)
    ensures
        r.deep_view() == table.deep_view(),
{
    let mut out: Vec<(String, Vec<String>)> = Vec::new();
    let mut i: usize = 0;
    while i < table.len()
        invariant
            i <= table.len(),
            out.len() == i,
            forall|j: int| 0 <= j < i ==> out[j].deep_view() == table[j].deep_view(),
        decreases table.len() - i,
    {
        out.push((table[i].0.clone(), copy_texts(&table[i].1)));
        i = i + 1;
    }
    proof {
        assert(out.deep_view() =~= table.deep_view());
    }
    out
}

impl Version {
    /// A copy of the version.
    pub fn copy(&self) -> (r: Version)
        ensures
            r@ == self@,
    {
        let links: Option<String> = match &self.links {
            Some(l) => Some(l.clone()),
            None => None,
        };
        Version {
            name: self.name.clone(),
            vers: self.vers.clone(),
            deps: copy_dependencies(&self.deps),
            features: copy_features(&self.features),
            links: links,
            yanked: self.yanked,
        }
    }
}

/// A copy of a sequence of versions.
pub fn copy_versions(versions: &Vec<Version>) -> (r: Vec<Version>)
    ensures
        r.deep_view() == versions.deep_view(),
{
    let mut out: Vec<Version> = Vec::new();
    let mut i: usize = 0;
    while i < versions.len()
        invariant
            i <= versions.len(),
            out.len() == i,
            forall|j: int| 0 <= j < i ==> out[j]@ == versions[j]@,
        decreases versions.len() - i,
    {
        out.push(versions[i].copy());
        i = i + 1;
    }
    proof {
        assert(out.deep_view() =~= versions.deep_view());
    }
    out
}

} // verus!
