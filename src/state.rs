//! Per-root incremental state: the modification time last seen for each
//! root-relative path, and its versioned binary record.

use bincode::Options;
use vstd::prelude::*;

verus! {

/// The record's bytes after the version tag, as bincode's fixed-width
/// encoding writes a list of (path, time) pairs.
pub uninterp spec fn encoded_entries(entries: Seq<(Seq<char>, i64)>) -> Seq<u8>;

/// The pairs that bincode's fixed-width decoding reads from `bytes` within
/// `limit` bytes, or `None` when it fails.
pub uninterp spec fn decoded_entries(bytes: Seq<u8>, limit: u64) -> Option<Seq<(Seq<char>, i64)>>;

pub open spec fn pair_views(v: Seq<(String, i64)>) -> Seq<(Seq<char>, i64)> {
    v.map_values(|p: (String, i64)| (p.0@, p.1))
}

/// Relies on `bincode::serialize`, which cannot fail on a list of pairs of
/// a string and an integer, and whose output bincode's fixed-width decoding
/// reads back within any limit that its length meets.
#[verifier::external_body]
fn encode_entries(entries: &Vec<(String, i64)>) -> (r: Vec<u8>)
    ensures
        r@ == encoded_entries(pair_views(entries@)),
        forall|limit: u64|
            r@.len() <= limit ==> #[trigger] decoded_entries(r@, limit) == Some(pair_views(entries@)),
{
    bincode::serialize(entries).unwrap_or_default()
}

/// Relies on bincode's `Options::deserialize` with fixed-width integers, a
/// size limit and trailing bytes allowed, on the bytes from `from` on.
#[verifier::external_body]
fn decode_entries(bytes: &[u8], from: usize, limit: u64) -> (r: Option<Vec<(String, i64)>>)
    requires
        from <= bytes@.len(),
    ensures
        match r {
            Some(v) => decoded_entries(bytes@.subrange(from as int, bytes@.len() as int), limit)
                == Some(pair_views(v@)),
            None => decoded_entries(bytes@.subrange(from as int, bytes@.len() as int), limit) is None,
        },
{
    bincode::options()
        .with_fixint_encoding()
        .with_limit(limit)
        .allow_trailing_bytes()
        .deserialize(&bytes[from..])
        .ok()
}

/// The version that a record must carry to be read.
pub const VERSION: u32 = 1;

/// The most bytes that reading a record's pairs may take.
pub const DECODE_LIMIT: u64 = 33554432;

/// The integer that four bytes encode, least significant first.
pub open spec fn le_u32(b0: u8, b1: u8, b2: u8, b3: u8) -> int {
    b0 as int + 256 * b1 as int + 65536 * b2 as int + 16777216 * b3 as int
}

/// The four bytes that encode `v`, least significant first.
pub open spec fn le_bytes(v: u32) -> Seq<u8> {
    seq![(v % 256) as u8, ((v / 256) % 256) as u8, ((v / 65536) % 256) as u8, (v / 16777216) as u8]
}

/// What a record holds: nothing when it is too short, carries another
/// version or does not decode; otherwise the mapping of its pairs.
pub open spec fn record_map(bytes: Seq<u8>) -> Map<Seq<char>, i64> {
    if bytes.len() < 4 || le_u32(bytes[0], bytes[1], bytes[2], bytes[3]) != VERSION {
        Map::empty()
    } else {
        match decoded_entries(bytes.subrange(4, bytes.len() as int), DECODE_LIMIT) {
            Some(s) => map_of(s),
            None => Map::empty(),
        }
    }
}

/// The mapping that a list of pairs gives, a later pair overriding an
/// earlier one with the same path.
pub open spec fn map_of(s: Seq<(Seq<char>, i64)>) -> Map<Seq<char>, i64>
    decreases s.len(),
{
    if s.len() == 0 {
        Map::empty()
    } else {
        map_of(s.drop_last()).insert(s.last().0, s.last().1)
    }
}

pub open spec fn unique_keys(s: Seq<(Seq<char>, i64)>) -> bool {
    forall|i: int, j: int| 0 <= i < j < s.len() ==> #[trigger] s[i].0 != #[trigger] s[j].0
}

proof fn lemma_map_of_keys(s: Seq<(Seq<char>, i64)>)
    ensures
        forall|k: Seq<char>|
            map_of(s).contains_key(k) <==> exists|i: int| 0 <= i < s.len() && #[trigger] s[i].0 == k,
        unique_keys(s) ==> forall|i: int| 0 <= i < s.len() ==> map_of(s)[#[trigger] s[i].0] == s[i].1,
    decreases s.len(),
{
    if s.len() > 0 {
        let p = s.drop_last();
        lemma_map_of_keys(p);
        assert forall|k: Seq<char>|
            map_of(s).contains_key(k) <==> exists|i: int| 0 <= i < s.len() && #[trigger] s[i].0 == k by {
            if map_of(s).contains_key(k) && k != s.last().0 {
                assert(map_of(p).contains_key(k));
                let i = choose|i: int| 0 <= i < p.len() && #[trigger] p[i].0 == k;
                assert(s[i].0 == k);
            }
            if k == s.last().0 {
                assert(s[s.len() - 1].0 == k);
            }
            if exists|i: int| 0 <= i < s.len() && #[trigger] s[i].0 == k {
                let i = choose|i: int| 0 <= i < s.len() && #[trigger] s[i].0 == k;
                if i < s.len() - 1 {
                    assert(p[i].0 == k);
                    assert(map_of(p).contains_key(k));
                }
            }
        }
        if unique_keys(s) {
            assert forall|i: int| 0 <= i < s.len() implies map_of(s)[#[trigger] s[i].0] == s[i].1 by {
                if i < s.len() - 1 {
                    assert(p[i] == s[i]);
                    assert(s[i].0 != s[s.len() - 1].0);
                }
            }
        }
    }
}

proof fn lemma_map_of_set(s: Seq<(Seq<char>, i64)>, k: int, v: i64)
    requires
        unique_keys(s),
        0 <= k < s.len(),
    ensures
        map_of(s.update(k, (s[k].0, v))) == map_of(s).insert(s[k].0, v),
        unique_keys(s.update(k, (s[k].0, v))),
    decreases s.len(),
{
    let t = s.update(k, (s[k].0, v));
    if k == s.len() - 1 {
        assert(t.drop_last() =~= s.drop_last());
        assert(map_of(t) =~= map_of(s).insert(s[k].0, v));
    } else {
        let p = s.drop_last();
        assert(t.drop_last() =~= p.update(k, (p[k].0, v)));
        lemma_map_of_set(p, k, v);
        assert(s.last().0 != s[k].0);
        assert(map_of(t) =~= map_of(s).insert(s[k].0, v));
    }
}

/// The recorded times of one root.
pub struct DirState {
    entries: Vec<(String, i64)>,
}

impl DirState {
    /// The recorded pairs, in the order they are written.
    pub closed spec fn pairs(&self) -> Seq<(Seq<char>, i64)> {
        pair_views(self.entries@)
    }

    /// The recorded time of each root-relative path.
    pub open spec fn recorded(&self) -> Map<Seq<char>, i64> {
        map_of(self.pairs())
    }

    pub open spec fn wf(&self) -> bool {
        unique_keys(self.pairs())
    }

    /// A state with nothing recorded.
    pub fn new() -> (r: Self)
        ensures
            r.wf(),
            r.recorded() == Map::<Seq<char>, i64>::empty(),
    {
        let r = DirState { entries: Vec::new() };
        assert(pair_views(r.entries@) =~= Seq::<(Seq<char>, i64)>::empty());
        r
    }

    fn index_of(&self, path: &String) -> (r: Option<usize>)
        ensures
            match r {
                Some(k) => k < self.entries@.len() && self.entries@[k as int].0@ == path@,
                None => forall|i: int| 0 <= i < self.entries@.len() ==> self.entries@[i].0@ != path@,
            },
    {
        let mut i: usize = 0;
        while i < self.entries.len()
            invariant
                i <= self.entries.len(),
                forall|j: int| 0 <= j < i ==> self.entries@[j].0@ != path@,
            decreases self.entries.len() - i,
        {
            if self.entries[i].0 == *path {
                return Some(i);
            }
            i = i + 1;
        }
        None
    }

    /// Whether `path` was recorded with exactly the time `mtime`.
    pub fn up_to_date(&self, path: &String, mtime: i64) -> (r: bool)
        requires
            self.wf(),
        ensures
            r == (self.recorded().contains_key(path@) && self.recorded()[path@] == mtime),
    {
        let ghost s = pair_views(self.entries@);
        proof {
            lemma_map_of_keys(s);
        }
        match self.index_of(path) {
            Some(k) => {
                assert(s[k as int].0 == path@);
                self.entries[k].1 == mtime
            },
            None => {
                assert(!(exists|i: int| 0 <= i < s.len() && #[trigger] s[i].0 == path@)) by {
                    if exists|i: int| 0 <= i < s.len() && #[trigger] s[i].0 == path@ {
                        let i = choose|i: int| 0 <= i < s.len() && #[trigger] s[i].0 == path@;
                        assert(self.entries@[i].0@ == path@);
                    }
                }
                false
            },
        }
    }

    /// Records `mtime` for `path`, replacing an earlier time.
    pub fn update(&mut self, path: String, mtime: i64)
        requires
            old(self).wf(),
        ensures
            final(self).wf(),
            final(self).recorded() == old(self).recorded().insert(path@, mtime),
    {
        let ghost s = pair_views(self.entries@);
        match self.index_of(&path) {
            Some(k) => {
                proof {
                    lemma_map_of_set(s, k as int, mtime);
                }
                self.entries.set(k, (path, mtime));
                assert(pair_views(self.entries@) =~= s.update(k as int, (s[k as int].0, mtime)));
            },
            None => {
                let ghost key = path@;
                self.entries.push((path, mtime));
                assert(pair_views(self.entries@) =~= s.push((key, mtime)));
                assert(pair_views(self.entries@).drop_last() =~= s);
                assert forall|i: int, j: int|
                    0 <= i < j < s.len() + 1 implies #[trigger] pair_views(self.entries@)[i].0
                    != #[trigger] pair_views(self.entries@)[j].0 by {
                    if j == s.len() {
                        assert(old(self).entries@[i].0@ != key);
                    }
                }
            },
        }
    }

    /// Records the time of a file once it was patched; a file that failed
    /// keeps its earlier record, so that it is tried again next run.
    pub fn record_patched(&mut self, path: String, mtime: i64, patched: bool)
        requires
            old(self).wf(),
        ensures
            final(self).wf(),
            final(self).recorded() == (if patched {
                old(self).recorded().insert(path@, mtime)
            } else {
                old(self).recorded()
            }),
    {
        if patched {
            self.update(path, mtime);
        }
    }

    /// Reads a record: the version tag, then the pairs. A record that is too
    /// short, carries another version or does not decode gives an empty
    /// state; otherwise each pair is recorded in turn.
    pub fn deserialize(bytes: &[u8]) -> (r: Self)
        ensures
            r.wf(),
            r.recorded() == record_map(bytes@),
    {
        let mut state = DirState::new();
        if bytes.len() < 4 {
            return state;
        }
        let version: u32 = bytes[0] as u32 + 256 * (bytes[1] as u32) + 65536 * (bytes[2] as u32)
            + 16777216 * (bytes[3] as u32);
        if version != VERSION {
            return state;
        }
        let pairs = match decode_entries(bytes, 4, DECODE_LIMIT) {
            Some(p) => p,
            None => {
                return state;
            },
        };
        let ghost ps = pair_views(pairs@);
        let mut i: usize = 0;
        assert(ps.take(0) =~= Seq::<(Seq<char>, i64)>::empty());
        while i < pairs.len()
            invariant
                i <= pairs.len(),
                ps == pair_views(pairs@),
                state.wf(),
                state.recorded() == map_of(ps.take(i as int)),
            decreases pairs.len() - i,
        {
            assert(ps.take(i + 1).drop_last() =~= ps.take(i as int));
            assert(ps.take(i + 1).last() == ps[i as int]);
            let path = pairs[i].0.clone();
            state.update(path, pairs[i].1);
            i = i + 1;
        }
        assert(ps.take(i as int) =~= ps);
        state
    }

    /// Writes the record: the version tag, least significant byte first,
    /// then the pairs. Reading a record that fits the decoding limit gives
    /// back the recorded times.
    pub fn serialize(&self) -> (r: Vec<u8>)
        ensures
            r@ == le_bytes(VERSION) + encoded_entries(self.pairs()),
            r@.len() <= DECODE_LIMIT + 4 ==> record_map(r@) == self.recorded(),
    {
        let mut r: Vec<u8> = Vec::new();
        r.push(1u8);
        r.push(0u8);
        r.push(0u8);
        r.push(0u8);
        let body = encode_entries(&self.entries);
        let mut i: usize = 0;
        while i < body.len()
            invariant
                i <= body.len(),
                r@ == le_bytes(VERSION) + body@.take(i as int),
            decreases body.len() - i,
        {
            r.push(body[i]);
            assert(body@.take(i + 1) =~= body@.take(i as int).push(body@[i as int]));
            assert(r@ =~= le_bytes(VERSION) + body@.take(i + 1));
            i = i + 1;
        }
        assert(body@.take(i as int) =~= body@);
        assert(r@.subrange(4, r@.len() as int) =~= body@);
        assert(le_u32(r@[0], r@[1], r@[2], r@[3]) == VERSION);
        proof {
            if r@.len() <= DECODE_LIMIT + 4 {
                assert(decoded_entries(body@, DECODE_LIMIT) == Some(self.pairs()));
            }
        }
        r
    }
}

} // verus!
