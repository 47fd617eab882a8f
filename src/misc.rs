//! Path text helpers.

use vstd::prelude::*;
use vstd::string::*;

use crate::elf::elf_magic;
use crate::resolve::{base_name, base_name_of};
use crate::text::texts;

verus! {

/// The text of a path, as it is shown in messages.
pub fn path_string(path: &String) -> (r: String)
    ensures
        r@ == path@,
{
    path.clone()
}

/// The glob pattern that lists the entries of directory `path` whose names
/// match `pattern`: in `path` itself, or at any depth below it when
/// `recursive` holds.
pub fn glob(path: &String, pattern: &str, recursive: bool) -> (r: String)
    ensures
        r@ == path@ + (if recursive {
            seq!['/', '*', '*', '/']
        } else {
            seq!['/']
        }) + pattern@,
{
    let mut r = path.clone();
    proof {
        reveal_strlit("/**/");
        reveal_strlit("/");
    }
    if recursive {
        r.append("/**/");
    } else {
        r.append("/");
    }
    r.append(pattern);
    r
}

/// The path a library is recorded under: its resolved path where resolving
/// keeps the file's name, else the path as it was found.
pub fn resolved_library_path(path: &String, resolved: Option<String>) -> (r: String)
    ensures
        r@ == (match resolved {
            Some(p) => if base_name(p@) == base_name(path@) {
                p@
            } else {
                path@
            },
            None => path@,
        }),
{
    match resolved {
        Some(p) => {
            let a = base_name_of(&p);
            let b = base_name_of(path);
            if a == b {
                p
            } else {
                path.clone()
            }
        },
        None => path.clone(),
    }
}

/// Whether a file found under a root is to be patched: a regular file, not
/// a symlink, whose first bytes are the ELF magic, and not recorded as up to
/// date.
pub fn wants_patch(is_symlink: bool, is_regular: bool, head: &[u8], up_to_date: bool) -> (r: bool)
    ensures
        r == (!is_symlink && is_regular && head@ == elf_magic() && !up_to_date),
{
    if is_symlink || !is_regular || up_to_date || head.len() != 4 {
        return false;
    }
    let magic = head[0] == 0x7f && head[1] == 0x45 && head[2] == 0x4c && head[3] == 0x46;
    if magic {
        assert(head@ =~= elf_magic());
    }
    magic
}

/// The directories joined by colons, as a runpath spells them.
pub open spec fn colon_joined(dirs: Seq<Seq<char>>) -> Seq<char>
    decreases dirs.len(),
{
    if dirs.len() == 0 {
        Seq::empty()
    } else if dirs.len() == 1 {
        dirs[0]
    } else {
        colon_joined(dirs.drop_last()) + seq![':'] + dirs.last()
    }
}

/// The directories joined by colons.
pub fn join_search_path(dirs: &Vec<String>) -> (r: String)
    ensures
        r@ == colon_joined(texts(dirs@)),
{
    let ghost ds = texts(dirs@);
    let mut r = String::new();
    let mut i: usize = 0;
    proof {
        reveal_strlit(":");
        assert(ds.take(0) =~= Seq::<Seq<char>>::empty());
    }
    while i < dirs.len()
        invariant
            i <= dirs.len(),
            ds == texts(dirs@),
            r@ == colon_joined(ds.take(i as int)),
            ":"@ == seq![':'],
        decreases dirs.len() - i,
    {
        let ghost t = ds.take(i + 1);
        assert(t.drop_last() =~= ds.take(i as int));
        assert(t.last() == dirs@[i as int]@);
        if i > 0 {
            r.append(":");
        }
        r.append(dirs[i].as_str());
        i = i + 1;
    }
    assert(ds.take(i as int) =~= ds);
    r
}

} // verus!
