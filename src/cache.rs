//! Index of discoverable shared libraries, keyed by file name and
//! architecture, filled breadth-first over directories and the runpaths of
//! the libraries found in them.

use vstd::prelude::*;

use crate::abi::{compatible, osabi_are_compatible};
use crate::text::{contains_infix, contains_text, has_infix, texts};

verus! {

/// One discovered library: its file name, architecture, containing directory
/// and OS-ABI tag.
pub struct LibraryEntry {
    pub soname: String,
    pub arch: u16,
    pub dir: String,
    pub osabi: u8,
}

/// What an entry says, as plain values.
pub type EntryView = (Seq<char>, u16, Seq<char>, u8);

/// The placeholder that marks a runpath entry as relative to its library.
pub open spec fn origin_token() -> Seq<char> {
    seq!['$', 'O', 'R', 'I', 'G', 'I', 'N']
}

/// A runpath entry worth scanning: non-empty and free of the placeholder.
pub open spec fn usable_dir(d: Seq<char>) -> bool {
    d.len() > 0 && !has_infix(d, origin_token())
}

/// The usable entries of a runpath, in order.
pub open spec fn usable_dirs(r: Seq<Seq<char>>) -> Seq<Seq<char>>
    decreases r.len(),
{
    if r.len() == 0 {
        r
    } else if usable_dir(r.last()) {
        usable_dirs(r.drop_last()).push(r.last())
    } else {
        usable_dirs(r.drop_last())
    }
}

/// An entry that provides `soname` for `arch` to a file with tag `abi`.
pub open spec fn provides(e: EntryView, soname: Seq<char>, arch: u16, abi: u8) -> bool {
    e.0 == soname && e.1 == arch && compatible(abi, e.3)
}

/// The directory of the first entry that provides `soname`, if any.
pub open spec fn first_provider(
    entries: Seq<EntryView>,
    soname: Seq<char>,
    arch: u16,
    abi: u8,
) -> Option<Seq<char>>
    decreases entries.len(),
{
    if entries.len() == 0 {
        None
    } else if provides(entries[0], soname, arch, abi) {
        Some(entries[0].2)
    } else {
        first_provider(entries.drop_first(), soname, arch, abi)
    }
}

/// A lookup of a name and architecture that no entry carries finds nothing.
pub proof fn lemma_unknown_not_found(entries: Seq<EntryView>, soname: Seq<char>, arch: u16, abi: u8)
    requires
        forall|i: int| 0 <= i < entries.len() ==> !(#[trigger] entries[i].0 == soname && entries[i].1 == arch),
    ensures
        first_provider(entries, soname, arch, abi) is None,
    decreases entries.len(),
{
    if entries.len() > 0 {
        assert(!(entries[0].0 == soname && entries[0].1 == arch));
        let rest = entries.drop_first();
        assert forall|i: int| 0 <= i < rest.len() implies !(#[trigger] rest[i].0 == soname && rest[i].1 == arch) by {
            assert(rest[i] == entries[i + 1]);
        }
        lemma_unknown_not_found(rest, soname, arch, abi);
    }
}

/// Among several providers, the lookup finds the earliest discovered one.
pub proof fn lemma_earliest_provider_wins(
    entries: Seq<EntryView>,
    k: int,
    soname: Seq<char>,
    arch: u16,
    abi: u8,
)
    requires
        0 <= k < entries.len(),
        provides(entries[k], soname, arch, abi),
        forall|j: int| 0 <= j < k ==> !provides(#[trigger] entries[j], soname, arch, abi),
    ensures
        first_provider(entries, soname, arch, abi) == Some(entries[k].2),
    decreases k,
{
    if k > 0 {
        assert(!provides(entries[0], soname, arch, abi));
        let rest = entries.drop_first();
        assert forall|j: int| 0 <= j < k - 1 implies !provides(#[trigger] rest[j], soname, arch, abi) by {
            assert(rest[j] == entries[j + 1]);
        }
        lemma_earliest_provider_wins(rest, k - 1, soname, arch, abi);
    }
}

/// Library cache to avoid duplicate scanning.
///
/// Population runs as a sequence of steps: `populate_cache` queues seed
/// directories, `next_dir` hands out the next directory not scanned yet, and
/// `add_library` records a library found there and queues its runpath.
pub struct LibraryCache {
    visited: Vec<String>,
    pending: Vec<String>,
    entries: Vec<LibraryEntry>,
}

impl LibraryCache {
    /// Directories handed out for scanning so far, in order.
    pub closed spec fn visited_dirs(&self) -> Seq<Seq<char>> {
        texts(self.visited@)
    }

    /// Directories queued and not handed out yet, in order.
    pub closed spec fn pending_dirs(&self) -> Seq<Seq<char>> {
        texts(self.pending@)
    }

    /// Recorded libraries, in discovery order.
    pub closed spec fn libraries(&self) -> Seq<EntryView> {
        self.entries@.map_values(|e: LibraryEntry| (e.soname@, e.arch, e.dir@, e.osabi))
    }

    /// No directory is handed out twice, and no library is recorded twice
    /// with the same directory and tag.
    pub open spec fn wf(&self) -> bool {
        &&& self.visited_dirs().no_duplicates()
        &&& self.libraries().no_duplicates()
    }

    fn has_entry(&self, soname: &String, arch: u16, dir: &String, osabi: u8) -> (r: bool)
        ensures
            r == self.libraries().contains((soname@, arch, dir@, osabi)),
    {
        let ghost all = self.libraries();
        let mut i: usize = 0;
        while i < self.entries.len()
            invariant
                i <= self.entries.len(),
                all == self.libraries(),
                forall|j: int| 0 <= j < i ==> all[j] != (soname@, arch, dir@, osabi),
            decreases self.entries.len() - i,
        {
            let e = &self.entries[i];
            assert(all[i as int] == (e.soname@, e.arch, e.dir@, e.osabi));
            if e.soname == *soname && e.arch == arch && e.dir == *dir && e.osabi == osabi {
                return true;
            }
            i = i + 1;
        }
        false
    }

    pub fn new() -> (r: Self)
        ensures
            r.wf(),
            r.visited_dirs() == Seq::<Seq<char>>::empty(),
            r.pending_dirs() == Seq::<Seq<char>>::empty(),
            r.libraries() == Seq::<EntryView>::empty(),
    {
        let r = LibraryCache { visited: Vec::new(), pending: Vec::new(), entries: Vec::new() };
        assert(r.libraries().len() == 0);
        assert(r.visited_dirs() =~= Seq::<Seq<char>>::empty());
        assert(r.pending_dirs() =~= Seq::<Seq<char>>::empty());
        assert(r.libraries() =~= Seq::<EntryView>::empty());
        r
    }

    /// Populates the cache from `initial`: queues those directories, in
    /// order, behind those already queued.
    pub fn populate_cache(&mut self, initial: &Vec<String>)
        requires
            old(self).wf(),
        ensures
            final(self).wf(),
            final(self).pending_dirs() == old(self).pending_dirs() + texts(initial@),
            final(self).visited_dirs() == old(self).visited_dirs(),
            final(self).libraries() == old(self).libraries(),
    {
        let mut i: usize = 0;
        while i < initial.len()
            invariant
                i <= initial.len(),
                self.wf(),
                self.pending_dirs() == old(self).pending_dirs() + texts(initial@.take(i as int)),
                self.visited_dirs() == old(self).visited_dirs(),
                self.libraries() == old(self).libraries(),
            decreases initial.len() - i,
        {
            let ghost pre = self.pending@;
            self.pending.push(initial[i].clone());
            assert(texts(self.pending@) =~= texts(pre).push(initial@[i as int]@));
            assert(texts(initial@.take(i + 1)) =~= texts(initial@.take(i as int)).push(initial@[i as int]@));
            assert(self.pending_dirs() =~= old(self).pending_dirs() + texts(initial@.take(i + 1)));
            i = i + 1;
        }
        assert(initial@.take(i as int) =~= initial@);
    }

    /// Hands out the first queued directory not handed out before, dropping
    /// the already visited ones in front of it.
    pub fn next_dir(&mut self) -> (r: Option<String>)
        requires
            old(self).wf(),
        ensures
            final(self).wf(),
            final(self).libraries() == old(self).libraries(),
            match r {
                None => {
                    &&& final(self).pending_dirs().len() == 0
                    &&& final(self).visited_dirs() == old(self).visited_dirs()
                    &&& forall|j: int|
                        0 <= j < old(self).pending_dirs().len() ==> old(
                            self,
                        ).visited_dirs().contains(#[trigger] old(self).pending_dirs()[j])
                },
                Some(d) => exists|k: int|
                    {
                        &&& 0 <= k < old(self).pending_dirs().len()
                        &&& #[trigger] old(self).pending_dirs()[k] == d@
                        &&& !old(self).visited_dirs().contains(d@)
                        &&& forall|j: int|
                            0 <= j < k ==> old(self).visited_dirs().contains(
                                #[trigger] old(self).pending_dirs()[j],
                            )
                        &&& final(self).pending_dirs() == old(self).pending_dirs().subrange(
                            k + 1,
                            old(self).pending_dirs().len() as int,
                        )
                        &&& final(self).visited_dirs() == old(self).visited_dirs().push(d@)
                    },
            },
    {
        let ghost start = self.pending_dirs();
        let ghost n = start.len();
        while self.pending.len() > 0
            invariant
                self.wf(),
                self.libraries() == old(self).libraries(),
                self.visited_dirs() == old(self).visited_dirs(),
                start == old(self).pending_dirs(),
                n == start.len(),
                self.pending_dirs().len() <= n,
                self.pending_dirs() == start.subrange(n - self.pending_dirs().len(), n as int),
                forall|j: int|
                    0 <= j < n - self.pending_dirs().len() ==> old(self).visited_dirs().contains(
                        #[trigger] start[j],
                    ),
            decreases self.pending.len(),
        {
            let ghost k = n - self.pending_dirs().len();
            let ghost pre = self.pending@;
            assert(texts(pre)[0] == pre[0]@);
            assert(texts(pre)[0] == start[k]);
            let d = self.pending.remove(0);
            assert(self.pending@ =~= pre.subrange(1, pre.len() as int));
            assert(texts(self.pending@) =~= texts(pre).subrange(1, pre.len() as int));
            assert(self.pending_dirs() =~= start.subrange(k + 1, n as int));
            if !contains_text(&self.visited, &d) {
                self.visited.push(d.clone());
                assert(self.visited_dirs() =~= old(self).visited_dirs().push(d@));
                return Some(d);
            }
        }
        None
    }

    /// Records a library named `file_name` found in `dir`, unless the same
    /// entry is recorded already, and queues the usable entries of its
    /// runpath.
    pub fn add_library(
        &mut self,
        file_name: String,
        dir: String,
        arch: u16,
        osabi: u8,
        runpath: &Vec<String>,
    )
        requires
            old(self).wf(),
        ensures
            final(self).wf(),
            final(self).libraries() == (if old(self).libraries().contains(
                (file_name@, arch, dir@, osabi),
            ) {
                old(self).libraries()
            } else {
                old(self).libraries().push((file_name@, arch, dir@, osabi))
            }),
            final(self).pending_dirs() == old(self).pending_dirs() + usable_dirs(texts(runpath@)),
            final(self).visited_dirs() == old(self).visited_dirs(),
    {
        let ghost fname = file_name@;
        let ghost dname = dir@;
        if !self.has_entry(&file_name, arch, &dir, osabi) {
            self.entries.push(LibraryEntry { soname: file_name, arch, dir, osabi });
            assert(self.libraries() =~= old(self).libraries().push((fname, arch, dname, osabi)));
        }
        let ghost mid = self.libraries();
        let mut i: usize = 0;
        while i < runpath.len()
            invariant
                i <= runpath.len(),
                self.wf(),
                self.libraries() == mid,
                self.visited_dirs() == old(self).visited_dirs(),
                self.pending_dirs() == old(self).pending_dirs() + usable_dirs(
                    texts(runpath@.take(i as int)),
                ),
            decreases runpath.len() - i,
        {
            let d = &runpath[i];
            let ghost before = texts(runpath@.take(i as int));
            let ghost after = texts(runpath@.take(i + 1));
            assert(after.drop_last() =~= before);
            assert(after.last() == d@);
            proof {
                reveal_strlit("$ORIGIN");
            }
            let keep = d.unicode_len() > 0 && !contains_infix(d.as_str(), "$ORIGIN");
            assert("$ORIGIN"@ =~= origin_token());
            if keep {
                let ghost pre = self.pending@;
                self.pending.push(d.clone());
                assert(texts(self.pending@) =~= texts(pre).push(d@));
                assert(usable_dirs(after) =~= usable_dirs(before).push(d@));
                assert(self.pending_dirs() =~= old(self).pending_dirs() + usable_dirs(after));
            } else {
                assert(usable_dirs(after) == usable_dirs(before));
            }
            i = i + 1;
        }
        assert(runpath@.take(i as int) =~= runpath@);
    }

    /// Finds a dependency in the cache: the directory of the earliest
    /// discovered library named `soname` for `soarch` whose tag is
    /// compatible with `soabi`.
    pub fn find_dependency(&self, soname: &String, soarch: u16, soabi: u8) -> (r: Option<String>)
        ensures
            match r {
                Some(d) => first_provider(self.libraries(), soname@, soarch, soabi) == Some(d@),
                None => first_provider(self.libraries(), soname@, soarch, soabi) is None,
            },
    {
        let ghost all = self.libraries();
        assert(all.subrange(0, all.len() as int) =~= all);
        let mut i: usize = 0;
        while i < self.entries.len()
            invariant
                i <= self.entries.len(),
                all == self.libraries(),
                all.len() == self.entries.len(),
                first_provider(all, soname@, soarch, soabi) == first_provider(
                    all.subrange(i as int, all.len() as int),
                    soname@,
                    soarch,
                    soabi,
                ),
            decreases self.entries.len() - i,
        {
            let e = &self.entries[i];
            let ghost rest = all.subrange(i as int, all.len() as int);
            assert(rest[0] == (e.soname@, e.arch, e.dir@, e.osabi));
            assert(rest.drop_first() =~= all.subrange(i + 1, all.len() as int));
            if e.soname == *soname && e.arch == soarch && osabi_are_compatible(soabi, e.osabi) {
                return Some(e.dir.clone());
            }
            i = i + 1;
        }
        None
    }
}

} // verus!
