use auto_patchelf::cache::LibraryCache;
use auto_patchelf::misc::{glob, join_search_path, path_string, resolved_library_path, wants_patch};
use auto_patchelf::report::{check_missing, is_ignored};
use auto_patchelf::resolve::{
    base_name_of, dedup_paths, label_of, resolve_dependencies, Candidate, Dependency,
    ResolveConfig,
};

fn s(x: &str) -> String {
    x.to_string()
}

fn cand(name: &str, is_file: bool, in_libc: bool) -> Candidate {
    Candidate { name: s(name), is_file, in_libc }
}

fn config(keep_libc: bool) -> ResolveConfig {
    ResolveConfig { keep_libc, prepend: vec![], append: vec![] }
}

fn cache_with(name: &str, dir: &str) -> LibraryCache {
    let mut cache = LibraryCache::new();
    cache.add_library(s(name), s(dir), 62, 0, &vec![]);
    cache
}

#[test]
fn dedup_keeps_first_occurrence() {
    let v = vec![s("d1"), s("d2"), s("d1"), s("d3")];
    assert_eq!(dedup_paths(&v), vec![s("d1"), s("d2"), s("d3")]);
    assert_eq!(dedup_paths(&vec![]), Vec::<String>::new());
}

#[test]
fn absolute_existing_candidate_wins_over_cache() {
    let cache = cache_with("libfoo.so.1", "/cache/lib");
    let deps = vec![vec![cand("/abs/libfoo.so.1", true, false)]];
    let r = resolve_dependencies(&s("/bin/x"), &deps, &cache, 62, 0, &config(false));
    assert_eq!(r.dependencies.len(), 1);
    assert!(r.dependencies[0].found);
    assert_eq!(r.dependencies[0].name, "/abs/libfoo.so.1");
    assert!(r.search_path.is_empty());
    assert!(!r.needs_rewrite());
}

#[test]
fn absolute_missing_candidate_falls_to_cache() {
    let cache = cache_with("libfoo.so.1", "/cache/lib");
    let deps = vec![vec![cand("/abs/libfoo.so.1", false, false)]];
    let r = resolve_dependencies(&s("/bin/x"), &deps, &cache, 62, 0, &config(false));
    assert!(r.dependencies[0].found);
    assert_eq!(r.search_path, vec![s("/cache/lib")]);
}

#[test]
fn libc_candidate_without_keep_libc_contributes_nothing() {
    let cache = cache_with("libc.so.6", "/cache/glibc");
    let deps = vec![vec![cand("libc.so.6", false, true)]];
    let r = resolve_dependencies(&s("/bin/x"), &deps, &cache, 62, 0, &config(false));
    assert!(r.dependencies[0].found);
    assert!(r.search_path.is_empty());
}

#[test]
fn libc_candidate_with_keep_libc_uses_cache_dir() {
    let cache = cache_with("libc.so.6", "/cache/glibc");
    let deps = vec![vec![cand("libc.so.6", false, true)]];
    let r = resolve_dependencies(&s("/bin/x"), &deps, &cache, 62, 0, &config(true));
    assert!(r.dependencies[0].found);
    assert_eq!(r.search_path, vec![s("/cache/glibc")]);
}

#[test]
fn libc_candidate_with_keep_libc_and_no_cache_is_found() {
    let cache = LibraryCache::new();
    let deps = vec![vec![cand("libm.so.6", false, true)]];
    let r = resolve_dependencies(&s("/bin/x"), &deps, &cache, 62, 0, &config(true));
    assert!(r.dependencies[0].found);
    assert!(r.search_path.is_empty());
}

#[test]
fn search_path_order_prepend_found_append() {
    let mut cache = LibraryCache::new();
    cache.add_library(s("liba.so"), s("/la"), 62, 0, &vec![]);
    cache.add_library(s("libb.so"), s("/lb"), 62, 0, &vec![]);
    let deps = vec![
        vec![cand("liba.so", false, false)],
        vec![cand("libb.so", false, false)],
        vec![cand("liba.so", false, false)],
    ];
    let cfg = ResolveConfig {
        keep_libc: false,
        prepend: vec![s("/pre"), s("/lb")],
        append: vec![s("/post"), s("/pre")],
    };
    let r = resolve_dependencies(&s("/bin/x"), &deps, &cache, 62, 0, &cfg);
    assert_eq!(r.search_path, vec![s("/pre"), s("/lb"), s("/la"), s("/post")]);
    assert_eq!(join_search_path(&r.search_path), "/pre:/lb:/la:/post");
    assert!(r.needs_rewrite());
}

#[test]
fn alternatives_resolve_by_first_success() {
    let cache = cache_with("libp11-kit.so.0", "/p11");
    let deps = vec![vec![cand("libidn2.so.0", false, false), cand("libp11-kit.so.0", false, false)]];
    let r = resolve_dependencies(&s("/bin/x"), &deps, &cache, 62, 0, &config(false));
    assert!(r.dependencies[0].found);
    assert_eq!(r.dependencies[0].name, "libp11-kit.so.0");
    assert_eq!(r.search_path, vec![s("/p11")]);
}

#[test]
fn unresolved_alternatives_get_disjunction_label() {
    let cache = LibraryCache::new();
    let deps = vec![
        vec![cand("liba.so.1", false, false), cand("libb.so.2", false, false)],
        vec![cand("libc2.so", false, false)],
    ];
    let r = resolve_dependencies(&s("/bin/x"), &deps, &cache, 62, 0, &config(false));
    assert!(!r.dependencies[0].found);
    assert_eq!(r.dependencies[0].name, "any(liba.so.1, libb.so.2)");
    assert!(!r.dependencies[1].found);
    assert_eq!(r.dependencies[1].name, "libc2.so");
    assert_eq!(r.dependencies[1].file, "/bin/x");
    assert_eq!(label_of(&vec![cand("a", false, false)]), "a");
}

#[test]
fn cache_lookup_uses_base_name() {
    let cache = cache_with("libfoo.so.1", "/cache/lib");
    assert_eq!(base_name_of(&s("sub/dir/libfoo.so.1")), "libfoo.so.1");
    assert_eq!(base_name_of(&s("libfoo.so.1")), "libfoo.so.1");
    assert_eq!(base_name_of(&s("dir/")), "");
    let deps = vec![vec![cand("sub/libfoo.so.1", false, false)]];
    let r = resolve_dependencies(&s("/bin/x"), &deps, &cache, 62, 0, &config(false));
    assert!(r.dependencies[0].found);
    assert_eq!(r.search_path, vec![s("/cache/lib")]);
}

#[test]
fn end_to_end_found_and_missing() {
    let mut cache = LibraryCache::new();
    cache.populate_cache(&vec![s("/explicit/lib")]);
    assert_eq!(cache.next_dir(), Some(s("/explicit/lib")));
    cache.add_library(s("libfoo.so.1"), s("/explicit/lib"), 62, 0, &vec![]);
    assert_eq!(cache.next_dir(), None);

    let ok = resolve_dependencies(
        &s("/out/bin/a"),
        &vec![vec![cand("libfoo.so.1", false, false)]],
        &cache,
        62,
        3,
        &config(false),
    );
    assert!(ok.dependencies[0].found);
    assert!(!ok.search_path.is_empty());
    assert!(ok.search_path.contains(&s("/explicit/lib")));

    let bad = resolve_dependencies(
        &s("/out/bin/b"),
        &vec![vec![cand("libmissing.so.7", false, false)]],
        &cache,
        62,
        3,
        &config(false),
    );
    let mut all = Vec::new();
    all.extend(ok.dependencies);
    all.extend(bad.dependencies);
    let report = check_missing(&all, &vec![]);
    assert!(report.failed());
    assert_eq!(report.unmatched.len(), 1);
    assert_eq!(report.unmatched[0].name, "libmissing.so.7");
    assert_eq!(report.unmatched[0].file, "/out/bin/b");
    assert!(report.ignored.is_empty());
}

fn missing(name: &str) -> Dependency {
    Dependency { file: s("/out/bin/x"), name: s(name), found: false }
}

#[test]
fn ignore_glob_downgrades_missing() {
    let deps = vec![
        missing("libssl.so.3"),
        Dependency { file: s("/out/bin/x"), name: s("libz.so.1"), found: true },
    ];
    let report = check_missing(&deps, &vec![s("libssl*")]);
    assert!(!report.failed());
    assert_eq!(report.ignored.len(), 1);
    assert_eq!(report.ignored[0].name, "libssl.so.3");
    assert!(report.unmatched.is_empty());
}

#[test]
fn ignore_glob_leaves_other_missing() {
    let deps = vec![missing("libssl.so.3"), missing("libcrypto.so.3")];
    let report = check_missing(&deps, &vec![s("libssl*"), s("[")]);
    assert!(report.failed());
    assert_eq!(report.unmatched.len(), 1);
    assert_eq!(report.unmatched[0].name, "libcrypto.so.3");
}

#[test]
fn ignore_patterns_match_base_names() {
    assert!(is_ignored(&s("/nix/store/x/libssl.so.3"), &vec![s("libssl.so.*")]));
    assert!(!is_ignored(&s("libssl.so.3"), &vec![s("libcrypto*")]));
    assert!(!is_ignored(&s("libssl.so.3"), &vec![]));
    assert!(is_ignored(&s("libfoo.so"), &vec![s("lib?oo.so")]));
}

#[test]
fn glob_patterns_and_path_text() {
    assert_eq!(glob(&s("/out"), "*.so*", false), "/out/*.so*");
    assert_eq!(glob(&s("/out"), "*", true), "/out/**/*");
    assert_eq!(path_string(&s("/a/b")), "/a/b");
}

#[test]
fn prepend_only_for_dynamic_executables() {
    let runtime = vec![s("/rt")];
    let append = vec![s("/ap")];
    let exe = ResolveConfig::for_file(true, &runtime, &append, true);
    assert!(exe.keep_libc);
    assert_eq!(exe.prepend, vec![s("/rt")]);
    assert_eq!(exe.append, vec![s("/ap")]);
    let lib = ResolveConfig::for_file(false, &runtime, &append, false);
    assert!(!lib.keep_libc);
    assert!(lib.prepend.is_empty());
    assert_eq!(lib.append, vec![s("/ap")]);
}

#[test]
fn resolved_path_kept_only_when_name_survives() {
    assert_eq!(
        resolved_library_path(&s("/lib/libfoo.so.1"), Some(s("/store/x/libfoo.so.1"))),
        "/store/x/libfoo.so.1"
    );
    assert_eq!(
        resolved_library_path(&s("/lib/libfoo.so.1"), Some(s("/store/x/libfoo.so.1.2.3"))),
        "/lib/libfoo.so.1"
    );
    assert_eq!(resolved_library_path(&s("/lib/libfoo.so"), None), "/lib/libfoo.so");
}

#[test]
fn per_file_filter() {
    let magic = [0x7f, b'E', b'L', b'F'];
    assert!(wants_patch(false, true, &magic, false));
    assert!(!wants_patch(true, true, &magic, false));
    assert!(!wants_patch(false, false, &magic, false));
    assert!(!wants_patch(false, true, &magic, true));
    assert!(!wants_patch(false, true, b"#!/b", false));
    assert!(!wants_patch(false, true, &[], false));
}
