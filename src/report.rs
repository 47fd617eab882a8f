//! The end-of-run account of missing dependencies: which are ignored by a
//! caller's patterns and which fail the run.

use vstd::prelude::*;

use crate::resolve::{base_name, base_name_of, Dependency};
use crate::text::texts;

verus! {

/// Whether `name` matches the shell pattern `pattern`, as the glob crate
/// decides it; a pattern that the crate does not accept matches nothing.
pub uninterp spec fn glob_matches(pattern: Seq<char>, name: Seq<char>) -> bool;

/// Relies on `glob::Pattern::new` and `glob::Pattern::matches`: compiles the
/// pattern and matches the name against it; the answer depends on the two
/// texts alone.
#[verifier::external_body]
fn pattern_matches(pattern: &str, name: &str) -> (r: bool)
    ensures
        r == glob_matches(pattern@, name@),
{
    match glob::Pattern::new(pattern) {
        Ok(p) => p.matches(name),
        Err(_) => false,
    }
}

/// What a dependency outcome says, as plain values.
pub type DependencyView = (Seq<char>, Seq<char>, bool);

pub open spec fn dependency_view(d: Dependency) -> DependencyView {
    (d.file@, d.name@, d.found)
}

pub open spec fn dependency_views(s: Seq<Dependency>) -> Seq<DependencyView> {
    s.map_values(|d: Dependency| dependency_view(d))
}

/// A missing dependency named `name` is ignored when its base name matches
/// one of the patterns.
pub open spec fn ignored_by(name: Seq<char>, patterns: Seq<Seq<char>>) -> bool {
    base_name(name).len() > 0 && exists|i: int|
        0 <= i < patterns.len() && #[trigger] glob_matches(patterns[i], base_name(name))
}

/// The missing dependencies of `deps`, in order, that are ignored (when
/// `ignored` holds) or that are not.
pub open spec fn missing(deps: Seq<DependencyView>, patterns: Seq<Seq<char>>, ignored: bool) -> Seq<
    DependencyView,
>
    decreases deps.len(),
{
    if deps.len() == 0 {
        deps
    } else {
        let before = missing(deps.drop_last(), patterns, ignored);
        let d = deps.last();
        if !d.2 && ignored_by(d.1, patterns) == ignored {
            before.push(d)
        } else {
            before
        }
    }
}

/// A missing dependency whose name an ignore pattern matches is listed
/// among the ignored ones, as a warning, and never among those that fail the
/// run; every one that fails the run is missing and matches no pattern.
pub proof fn lemma_ignored_missing_is_warning(deps: Seq<DependencyView>, patterns: Seq<Seq<char>>)
    ensures
        forall|i: int|
            0 <= i < deps.len() && !(#[trigger] deps[i]).2 && ignored_by(deps[i].1, patterns)
                ==> missing(deps, patterns, true).contains(deps[i]) && !missing(
                deps,
                patterns,
                false,
            ).contains(deps[i]),
        forall|j: int|
            0 <= j < missing(deps, patterns, false).len() ==> !(#[trigger] missing(
                deps,
                patterns,
                false,
            )[j]).2 && !ignored_by(missing(deps, patterns, false)[j].1, patterns),
    decreases deps.len(),
{
    if deps.len() > 0 {
        let p = deps.drop_last();
        lemma_ignored_missing_is_warning(p, patterns);
        let last = deps.last();
        let mt = missing(deps, patterns, true);
        let mf = missing(deps, patterns, false);
        let pt = missing(p, patterns, true);
        let pf = missing(p, patterns, false);
        assert forall|j: int| 0 <= j < mf.len() implies !(#[trigger] mf[j]).2 && !ignored_by(
            mf[j].1,
            patterns,
        ) by {
            if j < pf.len() {
                assert(mf[j] == pf[j]);
            }
        }
        assert forall|i: int|
            0 <= i < deps.len() && !(#[trigger] deps[i]).2 && ignored_by(deps[i].1, patterns)
                implies mt.contains(deps[i]) && !mf.contains(deps[i]) by {
            if mf.contains(deps[i]) {
                let j = choose|j: int| 0 <= j < mf.len() && mf[j] == deps[i];
                assert(!ignored_by(mf[j].1, patterns));
            }
            if i < deps.len() - 1 {
                assert(p[i] == deps[i]);
                let k = choose|k: int| 0 <= k < pt.len() && pt[k] == p[i];
                if mt != pt {
                    assert(mt == pt.push(last));
                    assert(mt[k] == pt[k]);
                }
                assert(mt[k] == deps[i]);
            } else {
                assert(deps[i] == last);
                assert(mt == pt.push(last));
                assert(mt[pt.len() as int] == last);
            }
        }
    }
}

/// When every missing dependency is ignored, none is left to fail the run,
/// and each missing dependency is listed among the ignored ones.
pub proof fn lemma_all_ignored_succeeds(deps: Seq<DependencyView>, patterns: Seq<Seq<char>>)
    requires
        forall|i: int| 0 <= i < deps.len() && !(#[trigger] deps[i]).2 ==> ignored_by(deps[i].1, patterns),
    ensures
        missing(deps, patterns, false).len() == 0,
        missing(deps, patterns, true).len() == deps.filter(|d: DependencyView| !d.2).len(),
    decreases deps.len(),
{
    reveal(Seq::filter);
    if deps.len() > 0 {
        let p = deps.drop_last();
        assert forall|i: int| 0 <= i < p.len() && !(#[trigger] p[i]).2 implies ignored_by(p[i].1, patterns) by {
            assert(p[i] == deps[i]);
        }
        lemma_all_ignored_succeeds(p, patterns);
        assert(deps.last() == deps[deps.len() - 1]);
    }
}

/// The missing dependencies of a run, split by the ignore patterns.
pub struct MissingReport {
    pub ignored: Vec<Dependency>,
    pub unmatched: Vec<Dependency>,
}

impl MissingReport {
    /// The run fails when some missing dependency is not ignored.
    pub fn failed(&self) -> (r: bool)
        ensures
            r == (self.unmatched@.len() > 0),
    {
        self.unmatched.len() > 0
    }
}

/// Whether the base name of `name` matches one of `patterns`.
pub fn is_ignored(name: &String, patterns: &Vec<String>) -> (r: bool)
    ensures
        r == ignored_by(name@, texts(patterns@)),
{
    let base = base_name_of(name);
    if base.unicode_len() == 0 {
        return false;
    }
    let mut i: usize = 0;
    while i < patterns.len()
        invariant
            i <= patterns.len(),
            base@ == base_name(name@),
            base@.len() > 0,
            forall|j: int| 0 <= j < i ==> !glob_matches(#[trigger] texts(patterns@)[j], base@),
        decreases patterns.len() - i,
    {
        assert(texts(patterns@)[i as int] == patterns@[i as int]@);
        if pattern_matches(patterns[i].as_str(), base.as_str()) {
            assert(glob_matches(texts(patterns@)[i as int], base_name(name@)));
            return true;
        }
        i = i + 1;
    }
    false
}

fn copy_dependency(d: &Dependency) -> (r: Dependency)
    ensures
        dependency_view(r) == dependency_view(*d),
{
    Dependency { file: d.file.clone(), name: d.name.clone(), found: d.found }
}

/// Splits the missing dependencies of `deps` into those that one of
/// `patterns` ignores and those that fail the run, each in order.
pub fn check_missing(deps: &Vec<Dependency>, patterns: &Vec<String>) -> (r: MissingReport)
    ensures
        dependency_views(r.ignored@) == missing(dependency_views(deps@), texts(patterns@), true),
        dependency_views(r.unmatched@) == missing(dependency_views(deps@), texts(patterns@), false),
{
    let ghost pats = texts(patterns@);
    let mut ignored: Vec<Dependency> = Vec::new();
    let mut unmatched: Vec<Dependency> = Vec::new();
    let mut i: usize = 0;
    assert(dependency_views(deps@.take(0)) =~= Seq::<DependencyView>::empty());
    assert(dependency_views(ignored@) =~= Seq::<DependencyView>::empty());
    assert(dependency_views(unmatched@) =~= Seq::<DependencyView>::empty());
    while i < deps.len()
        invariant
            i <= deps.len(),
            pats == texts(patterns@),
            dependency_views(ignored@) == missing(dependency_views(deps@.take(i as int)), pats, true),
            dependency_views(unmatched@) == missing(
                dependency_views(deps@.take(i as int)),
                pats,
                false,
            ),
        decreases deps.len() - i,
    {
        let ghost after = dependency_views(deps@.take(i + 1));
        assert(after.drop_last() =~= dependency_views(deps@.take(i as int)));
        assert(after.last() == dependency_view(deps@[i as int]));
        let d = &deps[i];
        if !d.found {
            let ghost pi = ignored@;
            let ghost pu = unmatched@;
            if is_ignored(&d.name, patterns) {
                ignored.push(copy_dependency(d));
                assert(dependency_views(ignored@) =~= dependency_views(pi).push(dependency_view(*d)));
            } else {
                unmatched.push(copy_dependency(d));
                assert(dependency_views(unmatched@) =~= dependency_views(pu).push(
                    dependency_view(*d),
                ));
            }
        }
        i = i + 1;
    }
    assert(deps@.take(i as int) =~= deps@);
    MissingReport { ignored, unmatched }
}

} // verus!
