//! ELF introspection: a descriptor of plain values taken from a parsed file,
//! and what the patching decisions read from it.

use vstd::prelude::*;
use vstd::string::*;

use crate::abi::{compatible, osabi_are_compatible};
use crate::text::texts;

verus! {

#[verifier::external_type_specification]
#[verifier::external_body]
pub struct ExElf<'a>(goblin::elf::Elf<'a>);

/// What `goblin::elf::Elf::parse` reads from `content`: machine, object type,
/// OS-ABI byte, program header types and the dynamic section's (tag, value)
/// pairs; `None` when it rejects the bytes.
pub uninterp spec fn goblin_elf(content: Seq<u8>) -> Option<(u16, u16, u8, Seq<u32>, Seq<(u64, u64)>)>;

/// What `goblin::strtab::Strtab::get_at` finds at `offset` in the dynamic
/// string table of the file that `content` holds.
pub uninterp spec fn goblin_dynstr(content: Seq<u8>, offset: u64) -> Option<Seq<char>>;

/// The payloads of the notes that `goblin::elf::Elf::iter_note_sections`
/// yields for the sections named `section`, up to the first note that does
/// not parse.
pub uninterp spec fn goblin_notes(content: Seq<u8>, section: Seq<char>) -> Seq<Seq<u8>>;

/// What goblin reads from `content`, where it parses.
pub open spec fn elf_facts(content: Seq<u8>) -> (u16, u16, u8, Seq<u32>, Seq<(u64, u64)>) {
    goblin_elf(content)->0
}

/// The four bytes that open every ELF file.
pub open spec fn elf_magic() -> Seq<u8> {
    seq![0x7fu8, 0x45u8, 0x4cu8, 0x46u8]
}

/// A file that goblin parsed, kept with the bytes it was parsed from.
pub struct ParsedElf<'a> {
    elf: goblin::elf::Elf<'a>,
    content: &'a [u8],
}

impl<'a> ParsedElf<'a> {
    /// The bytes the file was parsed from.
    pub closed spec fn source(&self) -> Seq<u8> {
        self.content@
    }
}

/// Relies on `goblin::elf::Elf::parse`, which rejects bytes that do not
/// start with the ELF magic.
#[verifier::external_body]
fn parse_elf<'a>(content: &'a [u8]) -> (r: Option<ParsedElf<'a>>)
    ensures
        r is None <==> goblin_elf(content@) is None,
        match r {
            Some(p) => p.source() == content@,
            None => true,
        },
        !(content@.len() >= 4 && content@.subrange(0, 4) == elf_magic()) ==> r is None,
{
    goblin::elf::Elf::parse(content).ok().map(|elf| ParsedElf { elf, content })
}

/// Relies on the header that `goblin::elf::Elf::parse` read: machine, object
/// type and OS-ABI byte of the identification.
#[verifier::external_body]
fn header_fields(p: &ParsedElf) -> (r: (u16, u16, u8))
    requires
        goblin_elf(p.source()) is Some,
    ensures
        r.0 == elf_facts(p.source()).0,
        r.1 == elf_facts(p.source()).1,
        r.2 == elf_facts(p.source()).2,
{
    let h = &p.elf.header;
    (h.e_machine, h.e_type, h.e_ident[goblin::elf::header::EI_OSABI])
}

/// Relies on the program headers that goblin read: their types, in order.
#[verifier::external_body]
fn segment_types(p: &ParsedElf) -> (r: Vec<u32>)
    requires
        goblin_elf(p.source()) is Some,
    ensures
        r@ == elf_facts(p.source()).3,
{
    p.elf.program_headers.iter().map(|ph| ph.p_type).collect()
}

/// Relies on the dynamic section that goblin read: tag and value of each
/// entry, in order; none without a dynamic section.
#[verifier::external_body]
fn dynamic_pairs(p: &ParsedElf) -> (r: Vec<(u64, u64)>)
    requires
        goblin_elf(p.source()) is Some,
    ensures
        r@ == elf_facts(p.source()).4,
{
    match &p.elf.dynamic {
        Some(d) => d.dyns.iter().map(|e| (e.d_tag, e.d_val)).collect(),
        None => Vec::new(),
    }
}

/// Relies on `goblin::strtab::Strtab::get_at` over the dynamic string table:
/// the string at `offset`, if there is one.
#[verifier::external_body]
fn dynamic_string(p: &ParsedElf, offset: u64) -> (r: Option<String>)
    ensures
        match r {
            Some(t) => goblin_dynstr(p.source(), offset) == Some(t@),
            None => goblin_dynstr(p.source(), offset) is None,
        },
{
    p.elf.dynstrtab.get_at(offset as usize).map(String::from)
}

/// Relies on `goblin::elf::Elf::iter_note_sections`: the payloads of the
/// notes in the sections named `section`, in order. The first note that does
/// not parse ends the list; the notes after it are dropped.
#[verifier::external_body]
fn note_payloads(p: &ParsedElf, section: &str) -> (r: Vec<Vec<u8>>)
    ensures
        r@.map_values(|v: Vec<u8>| v@) == goblin_notes(p.source(), section@),
{
    p.elf.iter_note_sections(p.content, Some(section))
        .into_iter()
        .flatten()
        .map_while(Result::ok)
        .map(|n| n.desc.to_vec())
        .collect()
}

/// The text that the bytes hold as UTF-8, or `None` when they are not UTF-8.
pub uninterp spec fn utf8_decoded(bytes: Seq<u8>) -> Option<Seq<char>>;

/// Relies on `std::str::from_utf8`: the text that the bytes encode.
#[verifier::external_body]
fn decode_utf8(bytes: &Vec<u8>) -> (r: Option<String>)
    ensures
        match r {
            Some(t) => utf8_decoded(bytes@) == Some(t@),
            None => utf8_decoded(bytes@) is None,
        },
{
    std::str::from_utf8(bytes).ok().map(String::from)
}

/// The text without the NUL characters at its end.
pub open spec fn trim_trailing_nuls(s: Seq<char>) -> Seq<char>
    decreases s.len(),
{
    if s.len() > 0 && s.last() == '\0' {
        trim_trailing_nuls(s.drop_last())
    } else {
        s
    }
}

/// The texts of the notes that are UTF-8, without their trailing NULs, in
/// order.
pub open spec fn note_texts(notes: Seq<Seq<u8>>) -> Seq<Seq<char>>
    decreases notes.len(),
{
    if notes.len() == 0 {
        Seq::empty()
    } else {
        match utf8_decoded(notes.last()) {
            Some(t) => note_texts(notes.drop_last()).push(trim_trailing_nuls(t)),
            None => note_texts(notes.drop_last()),
        }
    }
}

/// Drops the NUL characters at the end of `s`.
pub fn trim_nuls(s: &str) -> (r: String)
    ensures
        r@ == trim_trailing_nuls(s@),
{
    let mut j = s.unicode_len();
    assert(s@.take(j as int) =~= s@);
    while j > 0 && s.get_char(j - 1) == '\0'
        invariant
            j <= s@.len(),
            trim_trailing_nuls(s@) == trim_trailing_nuls(s@.take(j as int)),
        decreases j,
    {
        assert(s@.take(j as int).drop_last() =~= s@.take(j - 1));
        j = j - 1;
    }
    assert(s@.subrange(0, j as int) =~= s@.take(j as int));
    s.substring_char(0, j).to_owned()
}

pub const ET_EXEC: u16 = 2;

pub const PT_INTERP: u32 = 3;

pub const DT_NEEDED: u64 = 1;

pub const DT_RPATH: u64 = 15;

pub const DT_RUNPATH: u64 = 29;

/// An entry of the dynamic section, with the string it names where its tag
/// is one of needed, rpath or runpath.
pub struct DynamicEntry {
    pub tag: u64,
    pub text: Option<String>,
}

/// What the patching decisions read from an ELF file.
pub struct ElfFile {
    pub arch: u16,
    pub osabi: u8,
    pub object_type: u16,
    pub segments: Vec<u32>,
    pub dynamic: Vec<DynamicEntry>,
    pub dlopen_notes: Vec<Vec<u8>>,
}

/// A dynamic entry as the file gives it: its tag, and the string it names
/// where the tag is needed, rpath or runpath.
pub open spec fn read_entry(content: Seq<u8>, e: (u64, u64)) -> DynamicView {
    (
        e.0,
        if e.0 == DT_NEEDED || e.0 == DT_RPATH || e.0 == DT_RUNPATH {
            goblin_dynstr(content, e.1)
        } else {
            None
        },
    )
}

/// The section that holds the dlopen notes.
pub open spec fn dlopen_section() -> Seq<char> {
    ".note.dlopen"@
}

/// `f` holds what goblin reads from `content`.
pub open spec fn describes(f: ElfFile, content: Seq<u8>) -> bool {
    let g = goblin_elf(content)->0;
    &&& goblin_elf(content) is Some
    &&& f.arch == g.0
    &&& f.object_type == g.1
    &&& f.osabi == g.2
    &&& f.segments@ == g.3
    &&& f.dynamic_views() == g.4.map_values(|e: (u64, u64)| read_entry(content, e))
    &&& f.dlopen_notes@.map_values(|v: Vec<u8>| v@) == goblin_notes(content, dlopen_section())
}

/// What a dynamic entry says, as plain values.
pub type DynamicView = (u64, Option<Seq<char>>);

pub open spec fn dynamic_view(e: DynamicEntry) -> DynamicView {
    (
        e.tag,
        match e.text {
            Some(t) => Some(t@),
            None => None,
        },
    )
}

/// The text of the first entry with tag `tag` that names a string.
pub open spec fn first_text(dyns: Seq<DynamicView>, tag: u64) -> Option<Seq<char>>
    decreases dyns.len(),
{
    if dyns.len() == 0 {
        None
    } else if dyns[0].0 == tag && dyns[0].1 is Some {
        dyns[0].1
    } else {
        first_text(dyns.drop_first(), tag)
    }
}

/// The pieces of `s` between colons, in order; the empty text gives one
/// empty piece.
pub open spec fn split_colons(s: Seq<char>) -> Seq<Seq<char>>
    decreases s.len(),
{
    if s.len() == 0 {
        seq![Seq::<char>::empty()]
    } else if s.last() == ':' {
        split_colons(s.drop_last()).push(Seq::empty())
    } else {
        let p = split_colons(s.drop_last());
        p.update(p.len() - 1, p.last().push(s.last()))
    }
}

/// The names of the needed entries, each as a set of one, in order.
pub open spec fn needed_sets(dyns: Seq<DynamicView>) -> Seq<Seq<Seq<char>>>
    decreases dyns.len(),
{
    if dyns.len() == 0 {
        Seq::empty()
    } else {
        let before = needed_sets(dyns.drop_last());
        let e = dyns.last();
        if e.0 == DT_NEEDED && e.1 is Some {
            before.push(seq![e.1->0])
        } else {
            before
        }
    }
}

/// The non-empty sets among `sets`, in order.
pub open spec fn nonempty_sets(sets: Seq<Seq<Seq<char>>>) -> Seq<Seq<Seq<char>>>
    decreases sets.len(),
{
    if sets.len() == 0 {
        sets
    } else if sets.last().len() > 0 {
        nonempty_sets(sets.drop_last()).push(sets.last())
    } else {
        nonempty_sets(sets.drop_last())
    }
}

pub open spec fn set_texts(v: Seq<Vec<String>>) -> Seq<Seq<Seq<char>>> {
    v.map_values(|s: Vec<String>| texts(s@))
}

/// Why a file is left alone, or that it is to be patched.
#[derive(PartialEq, Eq, Structural, Debug, Clone, Copy)]
pub enum FileAction {
    Patch,
    StaticExecutable,
    NoSegments,
    ArchMismatch,
    AbiMismatch,
}

/// Splits `s` at each colon.
pub fn split_colon_list(s: &str) -> (r: Vec<String>)
    ensures
        texts(r@) == split_colons(s@),
{
    let n = s.unicode_len();
    let mut pieces: Vec<String> = Vec::new();
    let mut start: usize = 0;
    let mut i: usize = 0;
    assert(s@.take(0) =~= Seq::<char>::empty());
    assert(texts(pieces@).push(s@.subrange(0, 0)) =~= split_colons(s@.take(0)));
    while i < n
        invariant
            n == s@.len(),
            start <= i <= n,
            texts(pieces@).push(s@.subrange(start as int, i as int)) == split_colons(
                s@.take(i as int),
            ),
        decreases n - i,
    {
        let ghost t = s@.take(i + 1);
        assert(t.drop_last() =~= s@.take(i as int));
        assert(t.last() == s@[i as int]);
        if s.get_char(i) == ':' {
            let piece = s.substring_char(start, i).to_owned();
            let ghost pre = pieces@;
            assert(split_colons(t) == split_colons(s@.take(i as int)).push(Seq::<char>::empty()));
            pieces.push(piece);
            assert(texts(pieces@) =~= texts(pre).push(s@.subrange(start as int, i as int)));
            start = i + 1;
            assert(s@.subrange(start as int, i + 1) =~= Seq::<char>::empty());
            assert(texts(pieces@).push(s@.subrange(start as int, i + 1)) =~= split_colons(t));
        } else {
            let ghost p = split_colons(s@.take(i as int));
            assert(s@.subrange(start as int, i + 1) =~= s@.subrange(start as int, i as int).push(
                s@[i as int],
            ));
            assert(texts(pieces@).push(s@.subrange(start as int, i + 1)) =~= p.update(
                p.len() - 1,
                p.last().push(s@[i as int]),
            ));
        }
        i = i + 1;
    }
    assert(s@.take(n as int) =~= s@);
    let last = s.substring_char(start, n).to_owned();
    let ghost pre = pieces@;
    pieces.push(last);
    assert(texts(pieces@) =~= texts(pre).push(s@.subrange(start as int, n as int)));
    pieces
}

impl ElfFile {
    pub open spec fn dynamic_views(&self) -> Seq<DynamicView> {
        self.dynamic@.map_values(|e: DynamicEntry| dynamic_view(e))
    }

    pub open spec fn has_interpreter(&self) -> bool {
        exists|i: int| 0 <= i < self.segments@.len() && #[trigger] self.segments@[i] == PT_INTERP
    }

    /// The runpath: the runpath entry if there is one, else the rpath
    /// entry, split at colons; empty when there is neither.
    pub open spec fn runpath(&self) -> Seq<Seq<char>> {
        match first_text(self.dynamic_views(), DT_RUNPATH) {
            Some(t) => split_colons(t),
            None => match first_text(self.dynamic_views(), DT_RPATH) {
                Some(t) => split_colons(t),
                None => Seq::empty(),
            },
        }
    }

    /// Parses `content` as ELF: `None` exactly when goblin rejects it, else
    /// the descriptor of what goblin read.
    pub fn new(content: &[u8]) -> (r: Option<ElfFile>)
        ensures
            r is None <==> goblin_elf(content@) is None,
            match r {
                Some(f) => describes(f, content@),
                None => true,
            },
            !(content@.len() >= 4 && content@.subrange(0, 4) == elf_magic()) ==> r is None,
    {
        let parsed = match parse_elf(content) {
            Some(p) => p,
            None => {
                return None;
            },
        };
        let ghost g = goblin_elf(content@)->0;
        let (arch, object_type, osabi) = header_fields(&parsed);
        let segments = segment_types(&parsed);
        let pairs = dynamic_pairs(&parsed);
        let mut dynamic: Vec<DynamicEntry> = Vec::new();
        let mut i: usize = 0;
        while i < pairs.len()
            invariant
                i <= pairs.len(),
                pairs@ == g.4,
                parsed.source() == content@,
                dynamic@.len() == i,
                forall|j: int|
                    0 <= j < i ==> #[trigger] dynamic_view(dynamic@[j]) == read_entry(content@, g.4[j]),
            decreases pairs.len() - i,
        {
            let (tag, value) = pairs[i];
            let text = if tag == DT_NEEDED || tag == DT_RPATH || tag == DT_RUNPATH {
                dynamic_string(&parsed, value)
            } else {
                None
            };
            dynamic.push(DynamicEntry { tag, text });
            assert(dynamic_view(dynamic@[i as int]) == read_entry(content@, g.4[i as int]));
            i = i + 1;
        }
        let dlopen_notes = note_payloads(&parsed, ".note.dlopen");
        let f = ElfFile { arch, osabi, object_type, segments, dynamic, dlopen_notes };
        assert(f.dynamic_views() =~= g.4.map_values(|e: (u64, u64)| read_entry(content@, e)));
        Some(f)
    }

    pub fn get_arch(&self) -> (r: u16)
        ensures
            r == self.arch,
    {
        self.arch
    }

    pub fn get_osabi(&self) -> (r: u8)
        ensures
            r == self.osabi,
    {
        self.osabi
    }

    pub fn has_program_headers(&self) -> (r: bool)
        ensures
            r == (self.segments@.len() > 0),
    {
        self.segments.len() > 0
    }

    /// Whether some segment names an interpreter.
    pub fn is_dynamic_executable(&self) -> (r: bool)
        ensures
            r == self.has_interpreter(),
    {
        let mut i: usize = 0;
        while i < self.segments.len()
            invariant
                i <= self.segments.len(),
                forall|j: int| 0 <= j < i ==> self.segments@[j] != PT_INTERP,
            decreases self.segments.len() - i,
        {
            if self.segments[i] == PT_INTERP {
                return true;
            }
            i = i + 1;
        }
        false
    }

    /// Checks if an ELF file is a statically linked executable: an
    /// executable with no interpreter segment.
    pub fn is_static_executable(&self) -> (r: bool)
        ensures
            r == (self.object_type == ET_EXEC && !self.has_interpreter()),
    {
        self.object_type == ET_EXEC && !self.is_dynamic_executable()
    }

    fn find_text(&self, tag: u64) -> (r: Option<&String>)
        ensures
            match r {
                Some(t) => first_text(self.dynamic_views(), tag) == Some(t@),
                None => first_text(self.dynamic_views(), tag) is None,
            },
    {
        let ghost all = self.dynamic_views();
        assert(all.subrange(0, all.len() as int) =~= all);
        let mut i: usize = 0;
        while i < self.dynamic.len()
            invariant
                i <= self.dynamic.len(),
                all == self.dynamic_views(),
                first_text(all, tag) == first_text(all.subrange(i as int, all.len() as int), tag),
            decreases self.dynamic.len() - i,
        {
            let ghost rest = all.subrange(i as int, all.len() as int);
            assert(rest[0] == dynamic_view(self.dynamic@[i as int]));
            assert(rest.drop_first() =~= all.subrange(i + 1, all.len() as int));
            let e = &self.dynamic[i];
            if e.tag == tag {
                match &e.text {
                    Some(t) => {
                        return Some(t);
                    },
                    None => {},
                }
            }
            i = i + 1;
        }
        None
    }

    /// Gets the runpath, falling back to the rpath.
    pub fn get_rpath(&self) -> (r: Vec<String>)
        ensures
            texts(r@) == self.runpath(),
    {
        match self.find_text(DT_RUNPATH) {
            Some(t) => split_colon_list(t.as_str()),
            None => match self.find_text(DT_RPATH) {
                Some(t) => split_colon_list(t.as_str()),
                None => {
                    let r: Vec<String> = Vec::new();
                    assert(texts(r@) =~= Seq::<Seq<char>>::empty());
                    r
                },
            },
        }
    }

    /// Gets the dependencies: one set of one name per needed entry, then
    /// each non-empty set of sonames that the dlopen notes list.
    pub fn get_dependencies(&self, dlopen_sonames: &Vec<Vec<String>>) -> (r: Vec<Vec<String>>)
        ensures
            set_texts(r@) == needed_sets(self.dynamic_views()) + nonempty_sets(
                set_texts(dlopen_sonames@),
            ),
    {
        let ghost dv = self.dynamic_views();
        let mut r: Vec<Vec<String>> = Vec::new();
        let mut i: usize = 0;
        assert(set_texts(r@) =~= needed_sets(dv.take(0)));
        while i < self.dynamic.len()
            invariant
                i <= self.dynamic.len(),
                dv == self.dynamic_views(),
                set_texts(r@) == needed_sets(dv.take(i as int)),
            decreases self.dynamic.len() - i,
        {
            let ghost t = dv.take(i + 1);
            assert(t.drop_last() =~= dv.take(i as int));
            assert(t.last() == dynamic_view(self.dynamic@[i as int]));
            let e = &self.dynamic[i];
            if e.tag == DT_NEEDED {
                match &e.text {
                    Some(name) => {
                        let ghost pre = r@;
                        let mut one: Vec<String> = Vec::new();
                        one.push(name.clone());
                        assert(texts(one@) =~= seq![name@]);
                        r.push(one);
                        assert(set_texts(r@) =~= set_texts(pre).push(seq![name@]));
                    },
                    None => {},
                }
            }
            i = i + 1;
        }
        assert(dv.take(i as int) =~= dv);
        let ghost base = set_texts(r@);
        let ghost ds = set_texts(dlopen_sonames@);
        let mut k: usize = 0;
        assert(ds.take(0) =~= Seq::<Seq<Seq<char>>>::empty());
        assert(base + nonempty_sets(ds.take(0)) =~= base);
        while k < dlopen_sonames.len()
            invariant
                k <= dlopen_sonames.len(),
                ds == set_texts(dlopen_sonames@),
                set_texts(r@) == base + nonempty_sets(ds.take(k as int)),
            decreases dlopen_sonames.len() - k,
        {
            let ghost t = ds.take(k + 1);
            assert(t.drop_last() =~= ds.take(k as int));
            assert(t.last() == texts(dlopen_sonames@[k as int]@));
            let set = &dlopen_sonames[k];
            if set.len() > 0 {
                let ghost pre = r@;
                let mut copy: Vec<String> = Vec::new();
                let mut j: usize = 0;
                while j < set.len()
                    invariant
                        j <= set.len(),
                        texts(copy@) == texts(set@.take(j as int)),
                    decreases set.len() - j,
                {
                    let ghost before = copy@;
                    copy.push(set[j].clone());
                    assert(texts(copy@) =~= texts(before).push(set@[j as int]@));
                    assert(texts(set@.take(j + 1)) =~= texts(set@.take(j as int)).push(set@[j as int]@));
                    j = j + 1;
                }
                assert(set@.take(j as int) =~= set@);
                r.push(copy);
                assert(set_texts(r@) =~= set_texts(pre).push(texts(set@)));
            }
            k = k + 1;
        }
        assert(ds.take(k as int) =~= ds);
        r
    }

    /// The texts of the dlopen notes that are UTF-8, without their trailing
    /// NULs: the payloads that list optional sonames.
    pub fn dlopen_texts(&self) -> (r: Vec<String>)
        ensures
            texts(r@) == note_texts(self.dlopen_notes@.map_values(|v: Vec<u8>| v@)),
    {
        let ghost notes = self.dlopen_notes@.map_values(|v: Vec<u8>| v@);
        let mut r: Vec<String> = Vec::new();
        let mut i: usize = 0;
        assert(texts(r@) =~= note_texts(notes.take(0)));
        while i < self.dlopen_notes.len()
            invariant
                i <= self.dlopen_notes.len(),
                notes == self.dlopen_notes@.map_values(|v: Vec<u8>| v@),
                texts(r@) == note_texts(notes.take(i as int)),
            decreases self.dlopen_notes.len() - i,
        {
            assert(notes.take(i + 1).drop_last() =~= notes.take(i as int));
            assert(notes.take(i + 1).last() == self.dlopen_notes@[i as int]@);
            match decode_utf8(&self.dlopen_notes[i]) {
                Some(t) => {
                    let ghost pre = r@;
                    r.push(trim_nuls(t.as_str()));
                    assert(texts(r@) =~= texts(pre).push(r@.last()@));
                },
                None => {},
            }
            i = i + 1;
        }
        assert(notes.take(i as int) =~= notes);
        r
    }

    /// How a file is to be handled, given the system interpreter: static
    /// executables, files without segments, and files whose architecture or
    /// OS-ABI does not fit the interpreter's are left alone.
    pub fn classify(&self, interpreter: &ElfFile) -> (r: FileAction)
        ensures
            r == (if self.object_type == ET_EXEC && !self.has_interpreter() {
                FileAction::StaticExecutable
            } else if self.segments@.len() == 0 {
                FileAction::NoSegments
            } else if interpreter.arch != self.arch {
                FileAction::ArchMismatch
            } else if !compatible(interpreter.osabi, self.osabi) {
                FileAction::AbiMismatch
            } else {
                FileAction::Patch
            }),
    {
        if self.is_static_executable() {
            FileAction::StaticExecutable
        } else if !self.has_program_headers() {
            FileAction::NoSegments
        } else if interpreter.get_arch() != self.get_arch() {
            FileAction::ArchMismatch
        } else if !osabi_are_compatible(interpreter.get_osabi(), self.get_osabi()) {
            FileAction::AbiMismatch
        } else {
            FileAction::Patch
        }
    }
}

} // verus!
