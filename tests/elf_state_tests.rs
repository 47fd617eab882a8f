use auto_patchelf::elf::{split_colon_list, trim_nuls, DynamicEntry, ElfFile, FileAction};
use auto_patchelf::state::DirState;

fn s(x: &str) -> String {
    x.to_string()
}

fn descriptor(object_type: u16, segments: Vec<u32>, dynamic: Vec<DynamicEntry>) -> ElfFile {
    ElfFile { arch: 62, osabi: 0, object_type, segments, dynamic, dlopen_notes: vec![] }
}

fn dynent(tag: u64, text: &str) -> DynamicEntry {
    DynamicEntry { tag, text: Some(s(text)) }
}

fn minimal_elf(osabi: u8, machine: u16) -> Vec<u8> {
    let mut b = vec![0x7f, b'E', b'L', b'F', 2, 1, 1, osabi];
    b.extend([0u8; 8]);
    b.extend(3u16.to_le_bytes());
    b.extend(machine.to_le_bytes());
    b.extend(1u32.to_le_bytes());
    b.extend(0u64.to_le_bytes());
    b.extend(0u64.to_le_bytes());
    b.extend(0u64.to_le_bytes());
    b.extend(0u32.to_le_bytes());
    b.extend(64u16.to_le_bytes());
    b.extend(56u16.to_le_bytes());
    b.extend(0u16.to_le_bytes());
    b.extend(64u16.to_le_bytes());
    b.extend(0u16.to_le_bytes());
    b.extend(0u16.to_le_bytes());
    b
}

#[test]
fn parses_minimal_header() {
    let bytes = minimal_elf(3, 62);
    let elf = ElfFile::new(&bytes).expect("a valid header parses");
    assert_eq!(elf.get_arch(), 62);
    assert_eq!(elf.get_osabi(), 3);
    assert!(!elf.has_program_headers());
    assert!(!elf.is_static_executable());
    assert!(!elf.is_dynamic_executable());
    assert!(elf.get_rpath().is_empty());
    assert!(elf.get_dependencies(&vec![]).is_empty());
}

#[test]
fn rejects_non_elf_bytes() {
    assert!(ElfFile::new(b"not an elf file at all, just some text bytes........").is_none());
    assert!(ElfFile::new(&[]).is_none());
}

#[test]
fn splits_runpath_at_colons() {
    assert_eq!(split_colon_list("/a:/b"), vec![s("/a"), s("/b")]);
    assert_eq!(split_colon_list(""), vec![s("")]);
    assert_eq!(split_colon_list("/a::"), vec![s("/a"), s(""), s("")]);
}

#[test]
fn runpath_preferred_over_rpath() {
    let both = descriptor(3, vec![1], vec![dynent(15, "/r1:/r2"), dynent(29, "/run")]);
    assert_eq!(both.get_rpath(), vec![s("/run")]);
    let only_rpath = descriptor(3, vec![1], vec![dynent(15, "/r1:/r2")]);
    assert_eq!(only_rpath.get_rpath(), vec![s("/r1"), s("/r2")]);
    let unnamed = descriptor(3, vec![1], vec![DynamicEntry { tag: 29, text: None }, dynent(15, "/r")]);
    assert_eq!(unnamed.get_rpath(), vec![s("/r")]);
}

#[test]
fn dependencies_from_needed_and_dlopen() {
    let f = descriptor(
        3,
        vec![1],
        vec![dynent(1, "libc.so.6"), dynent(15, "/r"), dynent(1, "libm.so.6")],
    );
    let dlopen = vec![vec![s("libidn2.so.0")], vec![], vec![s("libtss2-mu.so.0"), s("libtss2-rc.so.0")]];
    assert_eq!(
        f.get_dependencies(&dlopen),
        vec![
            vec![s("libc.so.6")],
            vec![s("libm.so.6")],
            vec![s("libidn2.so.0")],
            vec![s("libtss2-mu.so.0"), s("libtss2-rc.so.0")],
        ]
    );
}

#[test]
fn classification_of_files() {
    let interp = descriptor(3, vec![1], vec![]);
    let static_exe = descriptor(2, vec![1], vec![]);
    assert!(static_exe.is_static_executable());
    assert_eq!(static_exe.classify(&interp), FileAction::StaticExecutable);
    let dyn_exe = descriptor(2, vec![6, 3, 1], vec![]);
    assert!(dyn_exe.is_dynamic_executable());
    assert!(!dyn_exe.is_static_executable());
    assert_eq!(dyn_exe.classify(&interp), FileAction::Patch);
    let no_segments = descriptor(3, vec![], vec![]);
    assert_eq!(no_segments.classify(&interp), FileAction::NoSegments);
    let mut other_arch = descriptor(3, vec![1], vec![]);
    other_arch.arch = 183;
    assert_eq!(other_arch.classify(&interp), FileAction::ArchMismatch);
    let mut linux_interp = descriptor(3, vec![1], vec![]);
    linux_interp.osabi = 3;
    let mut freebsd = descriptor(3, vec![1], vec![]);
    freebsd.osabi = 9;
    assert_eq!(freebsd.classify(&linux_interp), FileAction::AbiMismatch);
    assert_eq!(freebsd.classify(&interp), FileAction::Patch);
}

#[test]
fn state_round_trip() {
    let mut state = DirState::new();
    state.update(s("/a/lib.so"), 100);
    let bytes = state.serialize();
    assert_eq!(&bytes[0..4], &[1, 0, 0, 0]);
    let loaded = DirState::deserialize(&bytes);
    assert!(loaded.up_to_date(&s("/a/lib.so"), 100));
    assert!(!loaded.up_to_date(&s("/a/lib.so"), 101));
    assert!(!loaded.up_to_date(&s("/b/lib.so"), 100));
}

#[test]
fn state_update_overwrites() {
    let mut state = DirState::new();
    state.update(s("x"), 1);
    state.update(s("y"), 2);
    state.update(s("x"), 3);
    assert!(state.up_to_date(&s("x"), 3));
    assert!(!state.up_to_date(&s("x"), 1));
    let loaded = DirState::deserialize(&state.serialize());
    assert!(loaded.up_to_date(&s("x"), 3));
    assert!(loaded.up_to_date(&s("y"), 2));
}

#[test]
fn state_bad_records_start_empty() {
    let mut state = DirState::new();
    state.update(s("/a/lib.so"), 100);
    let mut bytes = state.serialize();
    bytes[0] = 2;
    assert!(!DirState::deserialize(&bytes).up_to_date(&s("/a/lib.so"), 100));
    assert!(!DirState::deserialize(&[1, 0]).up_to_date(&s("/a/lib.so"), 100));
    assert!(!DirState::deserialize(&[1, 0, 0, 0, 9]).up_to_date(&s("/a/lib.so"), 100));
    assert!(!DirState::deserialize(&[]).up_to_date(&s(""), 0));
}

#[test]
fn dlopen_texts_decode_and_trim() {
    let mut f = descriptor(3, vec![1], vec![]);
    f.dlopen_notes = vec![
        b"[{\"soname\":[\"libidn2.so.0\"]}]\0\0\0".to_vec(),
        vec![0xff, 0xfe, 0x00],
        b"plain".to_vec(),
    ];
    assert_eq!(
        f.dlopen_texts(),
        vec![s("[{\"soname\":[\"libidn2.so.0\"]}]"), s("plain")]
    );
    assert_eq!(trim_nuls("ab\0\0"), "ab");
    assert_eq!(trim_nuls("\0"), "");
    assert_eq!(trim_nuls("a\0b"), "a\0b");
}

#[test]
fn bytes_without_magic_never_parse() {
    let mut bytes = minimal_elf(3, 62);
    bytes[0] = 0;
    assert!(ElfFile::new(&bytes).is_none());
}

#[test]
fn failed_patch_keeps_earlier_record() {
    let mut state = DirState::new();
    state.record_patched(s("a"), 5, true);
    state.record_patched(s("a"), 6, false);
    state.record_patched(s("b"), 7, false);
    assert!(state.up_to_date(&s("a"), 5));
    assert!(!state.up_to_date(&s("a"), 6));
    assert!(!state.up_to_date(&s("b"), 7));
}
