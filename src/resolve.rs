//! Resolution of a file's dependencies against absolute paths, libc and the
//! library cache, and the search path that results.

use vstd::prelude::*;
use vstd::string::*;

use crate::cache::{first_provider, LibraryCache};
use crate::text::{contains_text, texts};

verus! {

/// One candidate file name of a dependency, with what the file system says
/// of it: whether it names an existing regular file, and whether its base
/// name exists as a regular file under the libc library directory.
pub struct Candidate {
    pub name: String,
    pub is_file: bool,
    pub in_libc: bool,
}

/// What a candidate says, as plain values.
pub type CandidateView = (Seq<char>, bool, bool);

pub open spec fn candidate_view(c: Candidate) -> CandidateView {
    (c.name@, c.is_file, c.in_libc)
}

pub open spec fn set_view(s: Seq<Candidate>) -> Seq<CandidateView> {
    s.map_values(|c: Candidate| candidate_view(c))
}

pub open spec fn sets_view(d: Seq<Vec<Candidate>>) -> Seq<Seq<CandidateView>> {
    d.map_values(|v: Vec<Candidate>| set_view(v@))
}

/// The outcome for one dependency alternative-set of a file.
pub struct Dependency {
    pub file: String,
    pub name: String,
    pub found: bool,
}

/// A file's dependency outcomes and its resulting search path.
pub struct Resolution {
    pub dependencies: Vec<Dependency>,
    pub search_path: Vec<String>,
}

impl Resolution {
    /// The search path is rewritten only when it is not empty.
    pub fn needs_rewrite(&self) -> (r: bool)
        ensures
            r == (self.search_path@.len() > 0),
    {
        self.search_path.len() > 0
    }
}

/// How the resolution of a file is configured.
pub struct ResolveConfig {
    pub keep_libc: bool,
    pub prepend: Vec<String>,
    pub append: Vec<String>,
}

impl ResolveConfig {
    /// The configuration for one file: the runtime dependencies are
    /// prepended for dynamic executables only; the appended directories go
    /// to every file.
    pub fn for_file(
        keep_libc: bool,
        runtime_dependencies: &Vec<String>,
        append: &Vec<String>,
        is_dynamic_executable: bool,
    ) -> (r: ResolveConfig)
        ensures
            r.keep_libc == keep_libc,
            texts(r.prepend@) == (if is_dynamic_executable {
                texts(runtime_dependencies@)
            } else {
                Seq::<Seq<char>>::empty()
            }),
            texts(r.append@) == texts(append@),
    {
        let mut prepend: Vec<String> = Vec::new();
        assert(texts(prepend@) =~= Seq::<Seq<char>>::empty());
        if is_dynamic_executable {
            extend_texts(&mut prepend, runtime_dependencies);
        }
        let mut app: Vec<String> = Vec::new();
        assert(texts(app@) =~= Seq::<Seq<char>>::empty());
        extend_texts(&mut app, append);
        ResolveConfig { keep_libc, prepend, append: app }
    }
}

pub open spec fn is_absolute(p: Seq<char>) -> bool {
    p.len() > 0 && p[0] == '/'
}

/// The part of a path after its last `/`.
pub open spec fn base_name(p: Seq<char>) -> Seq<char>
    decreases p.len(),
{
    if p.len() == 0 {
        p
    } else if p.last() == '/' {
        Seq::empty()
    } else {
        base_name(p.drop_last()).push(p.last())
    }
}

/// How a single candidate resolves: `None` when it does not, `Some(None)`
/// when it resolves with no search-path contribution, `Some(Some(d))` when
/// it resolves through the cache in directory `d`.
pub open spec fn candidate_outcome(
    c: CandidateView,
    keep_libc: bool,
    entries: Seq<(Seq<char>, u16, Seq<char>, u8)>,
    arch: u16,
    abi: u8,
) -> Option<Option<Seq<char>>> {
    if is_absolute(c.0) && c.1 {
        Some(None)
    } else if c.2 && !keep_libc {
        Some(None)
    } else if base_name(c.0).len() > 0 && first_provider(entries, base_name(c.0), arch, abi) is Some {
        Some(first_provider(entries, base_name(c.0), arch, abi))
    } else if c.2 {
        Some(None)
    } else {
        None
    }
}

/// The first candidate of a set that resolves, with how it resolves.
pub open spec fn set_outcome(
    cs: Seq<CandidateView>,
    keep_libc: bool,
    entries: Seq<(Seq<char>, u16, Seq<char>, u8)>,
    arch: u16,
    abi: u8,
) -> Option<(Seq<char>, Option<Seq<char>>)>
    decreases cs.len(),
{
    if cs.len() == 0 {
        None
    } else {
        match candidate_outcome(cs[0], keep_libc, entries, arch, abi) {
            Some(c) => Some((cs[0].0, c)),
            None => set_outcome(cs.drop_first(), keep_libc, entries, arch, abi),
        }
    }
}

/// The names joined by a comma and a space.
pub open spec fn join_names(names: Seq<Seq<char>>) -> Seq<char>
    decreases names.len(),
{
    if names.len() == 0 {
        Seq::empty()
    } else if names.len() == 1 {
        names[0]
    } else {
        join_names(names.drop_last()) + seq![',', ' '] + names.last()
    }
}

/// How an unresolved set is reported: its only candidate, or the
/// disjunction of all of them.
pub open spec fn unresolved_label(cs: Seq<CandidateView>) -> Seq<char> {
    if cs.len() == 1 {
        cs[0].0
    } else {
        seq!['a', 'n', 'y', '('] + join_names(cs.map_values(|c: CandidateView| c.0)) + seq![')']
    }
}

/// The reported name and whether the set was found.
pub open spec fn reported(
    cs: Seq<CandidateView>,
    keep_libc: bool,
    entries: Seq<(Seq<char>, u16, Seq<char>, u8)>,
    arch: u16,
    abi: u8,
) -> (Seq<char>, bool) {
    match set_outcome(cs, keep_libc, entries, arch, abi) {
        Some(o) => (o.0, true),
        None => (unresolved_label(cs), false),
    }
}

/// The directories that the sets contribute, in resolution order.
pub open spec fn contributions(
    sets: Seq<Seq<CandidateView>>,
    keep_libc: bool,
    entries: Seq<(Seq<char>, u16, Seq<char>, u8)>,
    arch: u16,
    abi: u8,
) -> Seq<Seq<char>>
    decreases sets.len(),
{
    if sets.len() == 0 {
        Seq::empty()
    } else {
        let before = contributions(sets.drop_last(), keep_libc, entries, arch, abi);
        match set_outcome(sets.last(), keep_libc, entries, arch, abi) {
            Some((_, Some(d))) => before.push(d),
            _ => before,
        }
    }
}

/// The list without repeats, each element kept at its first occurrence.
pub open spec fn dedup(s: Seq<Seq<char>>) -> Seq<Seq<char>>
    decreases s.len(),
{
    if s.len() == 0 {
        s
    } else if dedup(s.drop_last()).contains(s.last()) {
        dedup(s.drop_last())
    } else {
        dedup(s.drop_last()).push(s.last())
    }
}

/// A set whose first candidate is an existing absolute file resolves through
/// it, whatever the cache holds, and contributes no directory.
pub proof fn lemma_absolute_path_wins(
    cs: Seq<CandidateView>,
    keep_libc: bool,
    entries: Seq<(Seq<char>, u16, Seq<char>, u8)>,
    arch: u16,
    abi: u8,
)
    requires
        cs.len() > 0,
        is_absolute(cs[0].0),
        cs[0].1,
    ensures
        set_outcome(cs, keep_libc, entries, arch, abi) == Some((cs[0].0, None::<Seq<char>>)),
        contributions(seq![cs], keep_libc, entries, arch, abi) == Seq::<Seq<char>>::empty(),
{
    let one = seq![cs];
    assert(one.drop_last() =~= Seq::<Seq<CandidateView>>::empty());
    assert(one.last() == cs);
    assert(contributions(one.drop_last(), keep_libc, entries, arch, abi) == Seq::<Seq<char>>::empty());
    assert(set_outcome(one.last(), keep_libc, entries, arch, abi) == Some((cs[0].0, None::<Seq<char>>)));
}

/// A libc candidate that is not an existing absolute file resolves with no
/// contribution when libc is not kept; when libc is kept and the cache
/// provides its base name, it resolves through the cache directory.
pub proof fn lemma_libc_candidate(
    c: CandidateView,
    entries: Seq<(Seq<char>, u16, Seq<char>, u8)>,
    arch: u16,
    abi: u8,
)
    requires
        c.2,
        !(is_absolute(c.0) && c.1),
    ensures
        candidate_outcome(c, false, entries, arch, abi) == Some(None::<Seq<char>>),
        base_name(c.0).len() > 0 && first_provider(entries, base_name(c.0), arch, abi) is Some
            ==> candidate_outcome(c, true, entries, arch, abi) == Some(
            first_provider(entries, base_name(c.0), arch, abi),
        ),
        candidate_outcome(c, true, entries, arch, abi) is Some,
{
}

/// Removing repeats keeps exactly the elements of the list, once each, and
/// keeps a list without repeats as it is.
pub proof fn lemma_dedup_keeps_first(s: Seq<Seq<char>>)
    ensures
        dedup(s).no_duplicates(),
        forall|x: Seq<char>| dedup(s).contains(x) <==> s.contains(x),
        s.no_duplicates() ==> dedup(s) == s,
    decreases s.len(),
{
    if s.len() > 0 {
        let p = s.drop_last();
        lemma_dedup_keeps_first(p);
        assert forall|x: Seq<char>| dedup(s).contains(x) <==> s.contains(x) by {
            assert(s.contains(x) <==> (p.contains(x) || x == s.last())) by {
                if s.contains(x) {
                    let k = choose|k: int| 0 <= k < s.len() && s[k] == x;
                    if k < s.len() - 1 {
                        assert(p[k] == x);
                    }
                }
                if p.contains(x) {
                    let k = choose|k: int| 0 <= k < p.len() && p[k] == x;
                    assert(s[k] == x);
                }
                assert(s[s.len() - 1] == s.last());
            }
            if !dedup(p).contains(s.last()) {
                let q = dedup(p).push(s.last());
                assert(q.contains(x) <==> (dedup(p).contains(x) || x == s.last())) by {
                    if q.contains(x) && x != s.last() {
                        let k = choose|k: int| 0 <= k < q.len() && q[k] == x;
                        assert(dedup(p)[k] == x);
                    }
                    if dedup(p).contains(x) {
                        let k = choose|k: int| 0 <= k < dedup(p).len() && dedup(p)[k] == x;
                        assert(q[k] == x);
                    }
                    assert(q[q.len() - 1] == s.last());
                }
            }
        }
        if s.no_duplicates() {
            assert(p.no_duplicates());
            assert(!p.contains(s.last()));
            assert(s == p.push(s.last()));
        }
    }
}

/// A file with one dependency that only the cache resolves reports it found,
/// and the directory that the cache gives stands in its search path.
pub proof fn lemma_cache_match_enters_search_path(
    c: CandidateView,
    keep_libc: bool,
    entries: Seq<(Seq<char>, u16, Seq<char>, u8)>,
    arch: u16,
    abi: u8,
    prepend: Seq<Seq<char>>,
    append: Seq<Seq<char>>,
)
    requires
        !(is_absolute(c.0) && c.1),
        !c.2,
        base_name(c.0).len() > 0,
        first_provider(entries, base_name(c.0), arch, abi) is Some,
    ensures
        reported(seq![c], keep_libc, entries, arch, abi) == (c.0, true),
        dedup(prepend + contributions(seq![seq![c]], keep_libc, entries, arch, abi) + append).contains(
            first_provider(entries, base_name(c.0), arch, abi)->0,
        ),
{
    let d = first_provider(entries, base_name(c.0), arch, abi)->0;
    let one = seq![c];
    assert(set_outcome(one, keep_libc, entries, arch, abi) == Some((c.0, Some(d))));
    let sets = seq![one];
    assert(sets.drop_last() =~= Seq::<Seq<CandidateView>>::empty());
    assert(sets.last() == one);
    assert(contributions(sets.drop_last(), keep_libc, entries, arch, abi) == Seq::<Seq<char>>::empty());
    assert(contributions(sets, keep_libc, entries, arch, abi) =~= seq![d]);
    let all = prepend + seq![d] + append;
    assert(all[prepend.len() as int] == d);
    assert(all.contains(d));
    assert(all == prepend + contributions(sets, keep_libc, entries, arch, abi) + append);
    lemma_dedup_keeps_first(all);
    assert(dedup(all).contains(d));
}

/// The part of `p` after its last `/`.
pub fn base_name_of(p: &String) -> (r: String)
    ensures
        r@ == base_name(p@),
{
    let n = p.unicode_len();
    let mut start: usize = 0;
    let mut i: usize = 0;
    while i < n
        invariant
            n == p@.len(),
            start <= i <= n,
            base_name(p@.take(i as int)) == p@.subrange(start as int, i as int),
        decreases n - i,
    {
        assert(p@.take(i + 1).drop_last() =~= p@.take(i as int));
        assert(p@.take(i + 1).last() == p@[i as int]);
        if p.get_char(i) == '/' {
            start = i + 1;
            assert(p@.subrange(start as int, start as int) =~= Seq::<char>::empty());
        } else {
            assert(p@.subrange(start as int, i + 1) =~= p@.subrange(start as int, i as int).push(
                p@[i as int],
            ));
        }
        i = i + 1;
    }
    assert(p@.take(n as int) =~= p@);
    p.as_str().substring_char(start, n).to_owned()
}

/// The list without repeats, each element kept at its first occurrence.
pub fn dedup_paths(v: &Vec<String>) -> (r: Vec<String>)
    ensures
        texts(r@) == dedup(texts(v@)),
{
    let mut r: Vec<String> = Vec::new();
    let mut i: usize = 0;
    while i < v.len()
        invariant
            i <= v.len(),
            texts(r@) == dedup(texts(v@.take(i as int))),
        decreases v.len() - i,
    {
        let ghost before = texts(v@.take(i as int));
        let ghost after = texts(v@.take(i + 1));
        assert(after.drop_last() =~= before);
        assert(after.last() == v@[i as int]@);
        if !contains_text(&r, &v[i]) {
            let ghost pre = r@;
            r.push(v[i].clone());
            assert(texts(r@) =~= texts(pre).push(v@[i as int]@));
        }
        i = i + 1;
    }
    assert(v@.take(i as int) =~= v@);
    r
}

/// Appends copies of the strings of `src` to `dst`.
fn extend_texts(dst: &mut Vec<String>, src: &Vec<String>)
    ensures
        texts(final(dst)@) == texts(old(dst)@) + texts(src@),
{
    let mut i: usize = 0;
    while i < src.len()
        invariant
            i <= src.len(),
            texts(dst@) == texts(old(dst)@) + texts(src@.take(i as int)),
        decreases src.len() - i,
    {
        let ghost pre = dst@;
        dst.push(src[i].clone());
        assert(texts(dst@) =~= texts(pre).push(src@[i as int]@));
        assert(texts(src@.take(i + 1)) =~= texts(src@.take(i as int)).push(src@[i as int]@));
        i = i + 1;
    }
    assert(src@.take(i as int) =~= src@);
}

/// How a single candidate resolves.
pub fn resolve_candidate(
    c: &Candidate,
    cache: &LibraryCache,
    arch: u16,
    abi: u8,
    keep_libc: bool,
) -> (r: Option<Option<String>>)
    ensures
        candidate_outcome(candidate_view(*c), keep_libc, cache.libraries(), arch, abi) == match r {
            None => None,
            Some(None) => Some(None),
            Some(Some(d)) => Some(Some(d@)),
        },
{
    let absolute = c.name.unicode_len() > 0 && c.name.as_str().get_char(0) == '/';
    if absolute && c.is_file {
        return Some(None);
    }
    if c.in_libc && !keep_libc {
        return Some(None);
    }
    let base = base_name_of(&c.name);
    if base.unicode_len() > 0 {
        match cache.find_dependency(&base, arch, abi) {
            Some(d) => {
                return Some(Some(d));
            },
            None => {},
        }
    }
    if c.in_libc {
        Some(None)
    } else {
        None
    }
}

/// The first candidate of a set that resolves: its index and how it
/// resolves.
pub fn resolve_set(
    cs: &Vec<Candidate>,
    cache: &LibraryCache,
    arch: u16,
    abi: u8,
    keep_libc: bool,
) -> (r: Option<(usize, Option<String>)>)
    ensures
        match r {
            None => set_outcome(set_view(cs@), keep_libc, cache.libraries(), arch, abi) is None,
            Some((k, d)) => {
                &&& k < cs@.len()
                &&& set_outcome(set_view(cs@), keep_libc, cache.libraries(), arch, abi) == Some(
                    (
                        cs@[k as int].name@,
                        match d {
                            None => None,
                            Some(d) => Some(d@),
                        },
                    ),
                )
            },
        },
{
    let ghost all = set_view(cs@);
    assert(all.subrange(0, all.len() as int) =~= all);
    let mut i: usize = 0;
    while i < cs.len()
        invariant
            i <= cs.len(),
            all == set_view(cs@),
            set_outcome(all, keep_libc, cache.libraries(), arch, abi) == set_outcome(
                all.subrange(i as int, all.len() as int),
                keep_libc,
                cache.libraries(),
                arch,
                abi,
            ),
        decreases cs.len() - i,
    {
        let ghost rest = all.subrange(i as int, all.len() as int);
        assert(rest[0] == candidate_view(cs@[i as int]));
        assert(rest.drop_first() =~= all.subrange(i + 1, all.len() as int));
        match resolve_candidate(&cs[i], cache, arch, abi, keep_libc) {
            Some(d) => {
                return Some((i, d));
            },
            None => {},
        }
        i = i + 1;
    }
    None
}

/// The names of the candidates, joined by a comma and a space.
fn join_candidate_names(cs: &Vec<Candidate>) -> (r: String)
    ensures
        r@ == join_names(set_view(cs@).map_values(|c: CandidateView| c.0)),
{
    let ghost names = set_view(cs@).map_values(|c: CandidateView| c.0);
    let mut r = String::new();
    let mut i: usize = 0;
    proof {
        reveal_strlit(", ");
        assert(names.take(0) =~= Seq::<Seq<char>>::empty());
    }
    while i < cs.len()
        invariant
            i <= cs.len(),
            names == set_view(cs@).map_values(|c: CandidateView| c.0),
            r@ == join_names(names.take(i as int)),
            ", "@ == seq![',', ' '],
        decreases cs.len() - i,
    {
        let ghost after = names.take(i + 1);
        assert(after.drop_last() =~= names.take(i as int));
        assert(after.last() == cs@[i as int].name@);
        if i > 0 {
            r.append(", ");
        }
        r.append(cs[i].name.as_str());
        i = i + 1;
    }
    assert(names.take(i as int) =~= names);
    r
}

/// How an unresolved set is reported.
pub fn label_of(cs: &Vec<Candidate>) -> (r: String)
    ensures
        r@ == unresolved_label(set_view(cs@)),
{
    if cs.len() == 1 {
        return cs[0].name.clone();
    }
    proof {
        reveal_strlit("any(");
        reveal_strlit(")");
    }
    let mut r = String::new();
    r.append("any(");
    let joined = join_candidate_names(cs);
    r.append(joined.as_str());
    r.append(")");
    assert(r@ =~= unresolved_label(set_view(cs@)));
    r
}

/// Resolves each dependency set of `file` (architecture `arch`, OS-ABI tag
/// `abi`), and builds its search path: the prepended directories, then the
/// directories that the cache contributed, then the appended ones, without
/// repeats.
pub fn resolve_dependencies(
    file: &String,
    deps: &Vec<Vec<Candidate>>,
    cache: &LibraryCache,
    arch: u16,
    abi: u8,
    config: &ResolveConfig,
) -> (r: Resolution)
    ensures
        r.dependencies@.len() == deps@.len(),
        forall|i: int|
            0 <= i < deps@.len() ==> {
                &&& (#[trigger] r.dependencies@[i]).file@ == file@
                &&& (r.dependencies@[i].name@, r.dependencies@[i].found) == reported(
                    set_view(deps@[i]@),
                    config.keep_libc,
                    cache.libraries(),
                    arch,
                    abi,
                )
            },
        texts(r.search_path@) == dedup(
            texts(config.prepend@) + contributions(
                sets_view(deps@),
                config.keep_libc,
                cache.libraries(),
                arch,
                abi,
            ) + texts(config.append@),
        ),
{
    let ghost entries = cache.libraries();
    let ghost keep = config.keep_libc;
    let mut found_dirs: Vec<String> = Vec::new();
    let mut outcomes: Vec<Dependency> = Vec::new();
    let mut i: usize = 0;
    assert(sets_view(deps@.take(0)) =~= Seq::<Seq<CandidateView>>::empty());
    while i < deps.len()
        invariant
            i <= deps.len(),
            entries == cache.libraries(),
            keep == config.keep_libc,
            outcomes@.len() == i,
            forall|j: int|
                0 <= j < i ==> {
                    &&& (#[trigger] outcomes@[j]).file@ == file@
                    &&& (outcomes@[j].name@, outcomes@[j].found) == reported(
                        set_view(deps@[j]@),
                        keep,
                        entries,
                        arch,
                        abi,
                    )
                },
            texts(found_dirs@) == contributions(sets_view(deps@.take(i as int)), keep, entries, arch, abi),
        decreases deps.len() - i,
    {
        let ghost after = sets_view(deps@.take(i + 1));
        assert(after.drop_last() =~= sets_view(deps@.take(i as int)));
        assert(after.last() == set_view(deps@[i as int]@));
        let set = &deps[i];
        match resolve_set(set, cache, arch, abi, config.keep_libc) {
            Some((k, d)) => {
                match d {
                    Some(dir) => {
                        let ghost pre = found_dirs@;
                        found_dirs.push(dir);
                        assert(texts(found_dirs@) =~= texts(pre).push(found_dirs@.last()@));
                    },
                    None => {},
                }
                outcomes.push(Dependency { file: file.clone(), name: set[k].name.clone(), found: true });
            },
            None => {
                outcomes.push(Dependency { file: file.clone(), name: label_of(set), found: false });
            },
        }
        i = i + 1;
    }
    assert(deps@.take(i as int) =~= deps@);
    let mut all: Vec<String> = Vec::new();
    extend_texts(&mut all, &config.prepend);
    extend_texts(&mut all, &found_dirs);
    extend_texts(&mut all, &config.append);
    assert(texts(Seq::<String>::empty()) =~= Seq::<Seq<char>>::empty());
    let search_path = dedup_paths(&all);
    Resolution { dependencies: outcomes, search_path }
}

} // verus!
