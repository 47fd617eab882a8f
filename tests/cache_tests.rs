use auto_patchelf::abi::{osabi_are_compatible, osabi_to_string};
use auto_patchelf::cache::LibraryCache;

fn s(x: &str) -> String {
    x.to_string()
}

#[test]
fn osabi_compatibility_rules() {
    assert!(osabi_are_compatible(0, 0));
    assert!(osabi_are_compatible(3, 3));
    assert!(osabi_are_compatible(0, 9));
    assert!(osabi_are_compatible(9, 0));
    assert!(!osabi_are_compatible(3, 9));
    assert!(!osabi_are_compatible(9, 3));
}

#[test]
fn osabi_names() {
    assert_eq!(osabi_to_string(0), "ELFOSABI_SYSV");
    assert_eq!(osabi_to_string(3), "ELFOSABI_LINUX");
    assert_eq!(osabi_to_string(12), "ELFOSABI_OPENBSD");
    assert_eq!(osabi_to_string(4), "unknown_4");
    assert_eq!(osabi_to_string(200), "unknown_200");
}

#[test]
fn cyclic_runpaths_visit_each_dir_once() {
    let mut cache = LibraryCache::new();
    cache.populate_cache(&vec![s("/dir1")]);
    assert_eq!(cache.next_dir(), Some(s("/dir1")));
    cache.add_library(s("libA.so"), s("/dir1"), 62, 0, &vec![s("/dir2")]);
    assert_eq!(cache.next_dir(), Some(s("/dir2")));
    cache.add_library(s("libB.so"), s("/dir2"), 62, 0, &vec![s("/dir1")]);
    assert_eq!(cache.next_dir(), None);
    assert_eq!(cache.next_dir(), None);
    assert_eq!(cache.find_dependency(&s("libA.so"), 62, 3), Some(s("/dir1")));
    assert_eq!(cache.find_dependency(&s("libB.so"), 62, 3), Some(s("/dir2")));
}

#[test]
fn repeated_seed_is_scanned_once() {
    let mut cache = LibraryCache::new();
    cache.populate_cache(&vec![s("/a"), s("/b"), s("/a")]);
    assert_eq!(cache.next_dir(), Some(s("/a")));
    assert_eq!(cache.next_dir(), Some(s("/b")));
    assert_eq!(cache.next_dir(), None);
}

#[test]
fn runpath_skips_empty_and_origin_entries() {
    let mut cache = LibraryCache::new();
    cache.populate_cache(&vec![s("/d")]);
    assert_eq!(cache.next_dir(), Some(s("/d")));
    cache.add_library(
        s("libx.so"),
        s("/d"),
        62,
        0,
        &vec![s(""), s("$ORIGIN/../lib"), s("/e"), s("/f$ORIGIN"), s("/g")],
    );
    assert_eq!(cache.next_dir(), Some(s("/e")));
    assert_eq!(cache.next_dir(), Some(s("/g")));
    assert_eq!(cache.next_dir(), None);
}

#[test]
fn find_unknown_is_none() {
    let mut cache = LibraryCache::new();
    cache.add_library(s("libfoo.so.1"), s("/lib1"), 62, 0, &vec![]);
    assert_eq!(cache.find_dependency(&s("libbar.so"), 62, 0), None);
    assert_eq!(cache.find_dependency(&s("libfoo.so.1"), 183, 0), None);
}

#[test]
fn find_returns_earliest_compatible_provider() {
    let mut cache = LibraryCache::new();
    cache.add_library(s("libfoo.so.1"), s("/freebsd"), 62, 9, &vec![]);
    cache.add_library(s("libfoo.so.1"), s("/first"), 62, 3, &vec![]);
    cache.add_library(s("libfoo.so.1"), s("/second"), 62, 0, &vec![]);
    assert_eq!(cache.find_dependency(&s("libfoo.so.1"), 62, 3), Some(s("/first")));
    assert_eq!(cache.find_dependency(&s("libfoo.so.1"), 62, 0), Some(s("/freebsd")));
    assert_eq!(cache.find_dependency(&s("libfoo.so.1"), 62, 9), Some(s("/freebsd")));
    assert_eq!(cache.find_dependency(&s("libfoo.so.1"), 62, 2), Some(s("/second")));
}

#[test]
fn identical_entry_is_recorded_once() {
    let mut cache = LibraryCache::new();
    cache.populate_cache(&vec![s("/d")]);
    assert_eq!(cache.next_dir(), Some(s("/d")));
    cache.add_library(s("libz.so.1"), s("/store/z"), 62, 0, &vec![s("/e")]);
    cache.add_library(s("libz.so.1"), s("/store/z"), 62, 0, &vec![s("/f")]);
    cache.add_library(s("libz.so.1"), s("/other"), 62, 0, &vec![]);
    // the runpath of every library is still queued
    assert_eq!(cache.next_dir(), Some(s("/e")));
    assert_eq!(cache.next_dir(), Some(s("/f")));
    assert_eq!(cache.find_dependency(&s("libz.so.1"), 62, 0), Some(s("/store/z")));
}
