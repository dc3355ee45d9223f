//! Where a video keeps its index: container detection from the first part,
//! the parts that hold the index (mp4 `moov`/`stss`, mkv `Cues`), and the
//! cached index window of a file.
use std::collections::HashMap;
use vstd::prelude::*;

verus! {

#[derive(Clone, Copy, Debug, PartialEq, Eq)]
pub enum ContainerHint {
    Mp4,
    Mkv,
}

/// The container of a video and the (1-based) parts that hold its index.
#[derive(Debug)]
pub struct IndexHint {
    pub container: Option<ContainerHint>,
    pub hinted_parts: Vec<u32>,
}

/// `marker` occurs in `bytes` at `i`.
pub open spec fn occurs_at(bytes: Seq<u8>, marker: Seq<u8>, i: int) -> bool {
    0 <= i && i + marker.len() <= bytes.len() && bytes.subrange(i, i + marker.len()) == marker
}

/// The first position of `marker` in `bytes`.
pub open spec fn first_occurrence(bytes: Seq<u8>, marker: Seq<u8>) -> Option<int> {
    if exists|i: int| occurs_at(bytes, marker, i) {
        Some(choose|i: int| occurs_at(bytes, marker, i) && forall|j: int| 0 <= j < i ==> !occurs_at(bytes, marker, j))
    } else {
        None
    }
}

fn matches_at(bytes: &[u8], marker: &[u8], i: usize) -> (r: bool)
    requires
        i + marker@.len() <= bytes@.len(),
    ensures
        r == occurs_at(bytes@, marker@, i as int),
{
    let m = marker.len();
    let n = bytes.len();
    let mut k: usize = 0;
    while k < m
        invariant
            0 <= k <= m == marker@.len(),
            n == bytes@.len(),
            i + m <= n,
            forall|j: int| 0 <= j < k ==> bytes@[i + j] == marker@[j],
        decreases m - k,
    {
        if bytes[i + k] != marker[k] {
            assert(bytes@.subrange(i as int, i + m)[k as int] != marker@[k as int]);
            return false;
        }
        k = k + 1;
    }
    assert(bytes@.subrange(i as int, i + m) =~= marker@);
    true
}

/// The position of the first window of `bytes` equal to `marker`.
pub fn find_ascii_marker(bytes: &[u8], marker: &[u8]) -> (r: Option<usize>)
    requires
        marker@.len() > 0,
    ensures
        r == match first_occurrence(bytes@, marker@) {
            Some(i) => Some(i as usize),
            None => None,
        },
{
    find_marker(bytes, marker)
}

/// The position of the first window of `bytes` equal to `marker`.
pub fn find_binary_marker(bytes: &[u8], marker: &[u8]) -> (r: Option<usize>)
    requires
        marker@.len() > 0,
    ensures
        r == match first_occurrence(bytes@, marker@) {
            Some(i) => Some(i as usize),
            None => None,
        },
{
    find_marker(bytes, marker)
}

fn find_marker(bytes: &[u8], marker: &[u8]) -> (r: Option<usize>)
    requires
        marker@.len() > 0,
    ensures
        r == match first_occurrence(bytes@, marker@) {
            Some(i) => Some(i as usize),
            None => None,
        },
{
    let n = bytes.len();
    let m = marker.len();
    if m > n {
        assert(!exists|i: int| occurs_at(bytes@, marker@, i));
        return None;
    }
    let mut i: usize = 0;
    while i <= n - m
        invariant
            m == marker@.len(),
            n == bytes@.len(),
            0 < m <= n,
            i <= n - m + 1,
            forall|j: int| 0 <= j < i ==> !occurs_at(bytes@, marker@, j),
        decreases n - i,
    {
        if matches_at(bytes, marker, i) {
            proof {
                let c = choose|c: int| occurs_at(bytes@, marker@, c) && forall|j: int| 0 <= j < c ==> !occurs_at(bytes@, marker@, j);
                assert(occurs_at(bytes@, marker@, c));
                if c < i {
                    assert(!occurs_at(bytes@, marker@, c));
                } else if c > i {
                    assert(!occurs_at(bytes@, marker@, i as int));
                }
            }
            return Some(i);
        }
        i = i + 1;
    }
    assert(!exists|j: int| occurs_at(bytes@, marker@, j)) by {
        assert forall|j: int| !occurs_at(bytes@, marker@, j) by {
            if 0 <= j < i {
            }
        }
    }
    None
}

pub open spec fn mp4_magic() -> Seq<u8> {
    seq![0x66u8, 0x74u8, 0x79u8, 0x70u8]
}

pub open spec fn moov_marker() -> Seq<u8> {
    seq![0x6du8, 0x6fu8, 0x6fu8, 0x76u8]
}

pub open spec fn stss_marker() -> Seq<u8> {
    seq![0x73u8, 0x74u8, 0x73u8, 0x73u8]
}

pub open spec fn mkv_magic() -> Seq<u8> {
    seq![0x1Au8, 0x45u8, 0xDFu8, 0xA3u8]
}

pub open spec fn mkv_cues() -> Seq<u8> {
    seq![0x1Cu8, 0x53u8, 0xBBu8, 0x6Bu8]
}

pub open spec fn contains_marker(bytes: Seq<u8>, marker: Seq<u8>) -> bool {
    exists|i: int| occurs_at(bytes, marker, i)
}

/// An mp4 file carries `ftyp` in its first part.
pub fn looks_like_mp4(head: &[u8]) -> (r: bool)
    ensures
        r == contains_marker(head@, mp4_magic()),
{
    let marker: [u8; 4] = [0x66, 0x74, 0x79, 0x70];
    assert(marker@ =~= mp4_magic());
    find_ascii_marker(head, &marker).is_some()
}

/// An mkv file carries the EBML magic in its first part.
pub fn looks_like_mkv(head: &[u8]) -> (r: bool)
    ensures
        r == contains_marker(head@, mkv_magic()),
{
    let marker: [u8; 4] = [0x1A, 0x45, 0xDF, 0xA3];
    assert(marker@ =~= mkv_magic());
    find_binary_marker(head, &marker).is_some()
}

/// The container a file's first part shows: mp4 before mkv, none when
/// neither signature is there.
pub fn container_from_head(head: &[u8]) -> (r: Option<ContainerHint>)
    ensures
        r == (if contains_marker(head@, mp4_magic()) {
            Some(ContainerHint::Mp4)
        } else if contains_marker(head@, mkv_magic()) {
            Some(ContainerHint::Mkv)
        } else {
            None
        }),
{
    if looks_like_mp4(head) {
        Some(ContainerHint::Mp4)
    } else if looks_like_mkv(head) {
        Some(ContainerHint::Mkv)
    } else {
        None
    }
}

fn contains(bytes: &[u8], m: [u8; 4], spec_m: Ghost<Seq<u8>>) -> (r: bool)
    requires
        m@ == spec_m@,
    ensures
        r == contains_marker(bytes@, spec_m@),
{
    find_marker(bytes, &m).is_some()
}

/// The sorted, duplicate-free parts among `1` (if `first`) and `last` (if
/// `at_end`).
pub open spec fn sorted_parts(first: bool, at_end: bool, last: u32) -> Seq<u32> {
    if first && at_end {
        if last < 1 {
            seq![last, 1u32]
        } else if last == 1 {
            seq![1u32]
        } else {
            seq![1u32, last]
        }
    } else if first {
        seq![1u32]
    } else if at_end {
        seq![last]
    } else {
        Seq::empty()
    }
}

/// The index hint that the first part (`head`) and, for files of more than
/// one part, the last part (`tail`) give: for mp4, the parts among the first
/// and last that carry `moov` or `stss`; for mkv, the last part (it carries
/// the Cues, or is assumed to when nothing is found); `None` for other files.
pub open spec fn index_hint_of(head: Seq<u8>, tail: Option<Seq<u8>>, chunk_size: u64, total_parts: u32) -> Option<(Option<ContainerHint>, Seq<u32>)> {
    if contains_marker(head, mp4_magic()) {
        let first = contains_marker(head, moov_marker()) || contains_marker(head, stss_marker());
        let at_end = match tail {
            Some(t) => contains_marker(t, moov_marker()) || contains_marker(t, stss_marker()),
            None => false,
        };
        Some((Some(ContainerHint::Mp4), sorted_parts(first, at_end, total_parts)))
    } else if contains_marker(head, mkv_magic()) {
        let cues = match tail {
            Some(t) => contains_marker(t, mkv_cues()),
            None => false,
        };
        Some((Some(ContainerHint::Mkv), if cues || (chunk_size > 0 && total_parts > 0) { seq![total_parts] } else { Seq::empty() }))
    } else {
        None
    }
}

pub fn build_index_hint_from_windows(head: &[u8], tail: Option<&[u8]>, chunk_size: u64, total_parts: u32) -> (r: Option<IndexHint>)
    ensures
        match index_hint_of(head@, match tail { Some(t) => Some(t@), None => None }, chunk_size, total_parts) {
            None => r is None,
            Some((c, parts)) => r matches Some(h) && h.container == c && h.hinted_parts@ == parts,
        },
{
    let moov: [u8; 4] = [0x6d, 0x6f, 0x6f, 0x76];
    let stss: [u8; 4] = [0x73, 0x74, 0x73, 0x73];
    let cues: [u8; 4] = [0x1C, 0x53, 0xBB, 0x6B];
    assert(moov@ =~= moov_marker());
    assert(stss@ =~= stss_marker());
    assert(cues@ =~= mkv_cues());
    if looks_like_mp4(head) {
        let first = contains(head, moov, Ghost(moov_marker())) || contains(head, stss, Ghost(stss_marker()));
        let at_end = match tail {
            Some(t) => contains(t, moov, Ghost(moov_marker())) || contains(t, stss, Ghost(stss_marker())),
            None => false,
        };
        let mut hinted_parts: Vec<u32> = Vec::new();
        if first && at_end {
            if total_parts < 1 {
                hinted_parts.push(total_parts);
                hinted_parts.push(1);
            } else if total_parts == 1 {
                hinted_parts.push(1);
            } else {
                hinted_parts.push(1);
                hinted_parts.push(total_parts);
            }
        } else if first {
            hinted_parts.push(1);
        } else if at_end {
            hinted_parts.push(total_parts);
        }
        assert(hinted_parts@ =~= sorted_parts(first, at_end, total_parts));
        return Some(IndexHint { container: Some(ContainerHint::Mp4), hinted_parts });
    }
    if looks_like_mkv(head) {
        let found = match tail {
            Some(t) => contains(t, cues, Ghost(mkv_cues())),
            None => false,
        };
        let mut hinted_parts: Vec<u32> = Vec::new();
        if found || (chunk_size > 0 && total_parts > 0) {
            hinted_parts.push(total_parts);
        }
        assert(hinted_parts@ =~= (if found || (chunk_size > 0 && total_parts > 0) { seq![total_parts] } else { Seq::<u32>::empty() }));
        return Some(IndexHint { container: Some(ContainerHint::Mkv), hinted_parts });
    }
    None
}

/// The part (1-based) that holds byte `offset` of the index, for parts of
/// `chunk_size` bytes; part 1 when the chunk size is unknown (zero).
pub fn index_hint_part(offset: u64, chunk_size: u32) -> (r: u32)
    requires
        chunk_size > 0 ==> ((offset / (chunk_size as u64)) as u32) < u32::MAX,
    ensures
        r == if chunk_size > 0 { (((offset / (chunk_size as u64)) as u32) + 1) as u32 } else { 1 },
{
    let chunk_size = chunk_size as u64;
    if chunk_size > 0 {
        (offset / chunk_size) as u32 + 1
    } else {
        1
    }
}

/// A cached window `[offset, offset + size)` of a file's index bytes.
#[derive(Debug)]
pub struct IdxEntry {
    pub offset: u64,
    pub size: u64,
    pub bytes: Vec<u8>,
}

pub open spec fn sat_add(a: u64, b: u64) -> int {
    if a + b <= u64::MAX { a + b } else { u64::MAX as int }
}

impl IdxEntry {
    /// `[req_start, req_start + req_len)` overlaps the window (ends saturating).
    pub open spec fn overlaps_spec(&self, req_start: u64, req_len: u64) -> bool {
        req_start < sat_add(self.offset, self.size) && sat_add(req_start, req_len) > self.offset
    }

    /// Checks if the byte range `[req_start, req_start + req_len)` overlaps the window.
    pub fn overlaps(&self, req_start: u64, req_len: u64) -> (r: bool)
        ensures
            r == self.overlaps_spec(req_start, req_len),
    {
        let req_end: u64 = if req_start <= u64::MAX - req_len { req_start + req_len } else { u64::MAX };
        let idx_end: u64 = if self.offset <= u64::MAX - self.size { self.offset + self.size } else { u64::MAX };
        req_start < idx_end && req_end > self.offset
    }

    /// The cached bytes of the overlap with `[req_start, req_start + req_len)`.
    pub fn slice_for(&self, req_start: u64, req_len: u64) -> (r: Option<Vec<u8>>)
        requires
            self.overlaps_spec(req_start, req_len) ==> {
                let lo = if req_start >= self.offset { req_start as int } else { self.offset as int };
                let hi = if sat_add(req_start, req_len) <= sat_add(self.offset, self.size) {
                    sat_add(req_start, req_len)
                } else {
                    sat_add(self.offset, self.size)
                };
                hi <= lo || hi - self.offset <= self.bytes@.len()
            },
        ensures
            !self.overlaps_spec(req_start, req_len) ==> r is None,
            self.overlaps_spec(req_start, req_len) ==> {
                let lo = if req_start >= self.offset { req_start as int } else { self.offset as int };
                let hi = if sat_add(req_start, req_len) <= sat_add(self.offset, self.size) {
                    sat_add(req_start, req_len)
                } else {
                    sat_add(self.offset, self.size)
                };
                if hi <= lo {
                    r is None
                } else {
                    r matches Some(v) && v@ == self.bytes@.subrange(lo - self.offset, hi - self.offset)
                }
            },
    {
        if !self.overlaps(req_start, req_len) {
            return None;
        }
        let req_end: u64 = if req_start <= u64::MAX - req_len { req_start + req_len } else { u64::MAX };
        let idx_end: u64 = if self.offset <= u64::MAX - self.size { self.offset + self.size } else { u64::MAX };
        let lo: u64 = if req_start >= self.offset { req_start } else { self.offset };
        let hi: u64 = if req_end <= idx_end { req_end } else { idx_end };
        if hi <= lo {
            return None;
        }
        let blen = self.bytes.len();
        assert(hi - self.offset <= self.bytes@.len());
        let from = (lo - self.offset) as usize;
        let to = (hi - self.offset) as usize;
        assert(to == hi - self.offset);
        let mut out: Vec<u8> = Vec::new();
        let mut i: usize = from;
        while i < to
            invariant
                from <= i <= to <= self.bytes@.len(),
                out@ == self.bytes@.subrange(from as int, i as int),
            decreases to - i,
        {
            out.push(self.bytes[i]);
            assert(self.bytes@.subrange(from as int, i + 1) =~= self.bytes@.subrange(from as int, i as int).push(self.bytes@[i as int]));
            i = i + 1;
        }
        Some(out)
    }
}

/// The big-endian number in `s`.
pub open spec fn be_value(s: Seq<u8>) -> int
    decreases s.len(),
{
    if s.len() == 0 {
        0
    } else {
        be_value(s.drop_last()) * 256 + s.last()
    }
}

pub open spec fn pow256(n: nat) -> int
    decreases n,
{
    if n == 0 {
        1
    } else {
        256 * pow256((n - 1) as nat)
    }
}

proof fn lemma_be_value_bound(s: Seq<u8>)
    ensures
        0 <= be_value(s) < pow256(s.len()),
    decreases s.len(),
{
    if s.len() > 0 {
        lemma_be_value_bound(s.drop_last());
        let k = (s.len() - 1) as nat;
        assert(be_value(s.drop_last()) * 256 + s.last() < pow256(k) * 256) by (nonlinear_arith)
            requires
                be_value(s.drop_last()) < pow256(k),
                s.last() < 256,
                0 <= be_value(s.drop_last()),
        {
        }
    }
}

proof fn lemma_pow256_small(n: nat)
    requires
        n <= 7,
    ensures
        pow256(n) <= 0x100000000000000,
{
    reveal_with_fuel(pow256, 8);
}

fn be_u64(data: &[u8], from: usize) -> (r: u64)
    requires
        from + 8 <= data@.len(),
    ensures
        r == be_value(data@.subrange(from as int, from + 8)),
{
    let dlen = data.len();
    let mut v: u64 = 0;
    let mut i: usize = from;
    while i < from + 8
        invariant
            from <= i <= from + 8 <= data@.len(),
            dlen == data@.len(),
            v == be_value(data@.subrange(from as int, i as int)),
        decreases from + 8 - i,
    {
        let ghost cur = data@.subrange(from as int, i + 1);
        assert(cur.drop_last() =~= data@.subrange(from as int, i as int));
        proof {
            lemma_be_value_bound(cur.drop_last());
            lemma_pow256_small(cur.drop_last().len());
            assert(be_value(cur) == v * 256 + data@[i as int]);
        }
        v = v * 256 + data[i] as u64;
        i = i + 1;
    }
    v
}

/// The characters `IDXC`, as bytes.
pub open spec fn idx_magic() -> Seq<u8> {
    seq![0x49u8, 0x44u8, 0x58u8, 0x43u8]
}

/// Reads an index file: the magic `IDXC`, the window's offset and size as
/// big-endian `u64`s, then the window's bytes.
pub fn parse_idx_file(data: &[u8]) -> (r: Option<IdxEntry>)
    ensures
        (data@.len() >= 20 && data@.subrange(0, 4) == idx_magic()) <==> r is Some,
        r matches Some(e) ==> e.offset == be_value(data@.subrange(4, 12)) && e.size == be_value(
            data@.subrange(12, 20),
        ) && e.bytes@ == data@.subrange(20, data@.len() as int),
{
    if data.len() < 20 {
        return None;
    }
    if !(data[0] == 0x49 && data[1] == 0x44 && data[2] == 0x58 && data[3] == 0x43) {
        proof {
            if data@.subrange(0, 4) == idx_magic() {
                assert(data@[0] == data@.subrange(0, 4)[0]);
                assert(data@[1] == data@.subrange(0, 4)[1]);
                assert(data@[2] == data@.subrange(0, 4)[2]);
                assert(data@[3] == data@.subrange(0, 4)[3]);
            }
        }
        return None;
    }
    assert(data@.subrange(0, 4) =~= idx_magic());
    let offset = be_u64(data, 4);
    let size = be_u64(data, 12);
    let mut bytes: Vec<u8> = Vec::new();
    let mut i: usize = 20;
    while i < data.len()
        invariant
            20 <= i <= data@.len(),
            bytes@ == data@.subrange(20, i as int),
        decreases data@.len() - i,
    {
        bytes.push(data[i]);
        assert(data@.subrange(20, i + 1) =~= data@.subrange(20, i as int).push(data@[i as int]));
        i = i + 1;
    }
    Some(IdxEntry { offset, size, bytes })
}

impl IdxEntry {
    /// A copy of the window.
    pub fn duplicate(&self) -> (r: IdxEntry)
        ensures
            r.offset == self.offset,
            r.size == self.size,
            r.bytes@ == self.bytes@,
    {
        let bytes = self.bytes.clone();
        assert(bytes@ =~= self.bytes@);
        IdxEntry { offset: self.offset, size: self.size, bytes }
    }
}

/// What a window is, as mathematics: its offset, size and bytes.
pub open spec fn window_of(e: IdxEntry) -> (u64, u64, Seq<u8>) {
    (e.offset, e.size, e.bytes@)
}

/// The window an index file's bytes hold, when they hold one.
pub open spec fn idx_window(data: Seq<u8>) -> Option<(u64, u64, Seq<u8>)> {
    if data.len() >= 20 && data.subrange(0, 4) == idx_magic() {
        Some((be_value(data.subrange(4, 12)) as u64, be_value(data.subrange(12, 20)) as u64, data.subrange(20, data.len() as int)))
    } else {
        None
    }
}

/// The index windows read so far, by file id: each file's index is read
/// from disk once and served from memory after that.
pub struct IdxCache {
    entries: HashMap<i64, IdxEntry>,
}

impl IdxCache {
    /// The windows held, by file id.
    pub closed spec fn windows(&self) -> Map<i64, (u64, u64, Seq<u8>)> {
        Map::new(|id: i64| self.entries@.contains_key(id), |id: i64| window_of(self.entries@[id]))
    }

    /// A cache that holds nothing yet.
    pub fn new() -> (r: IdxCache)
        ensures
            r.windows() == Map::<i64, (u64, u64, Seq<u8>)>::empty(),
    {
        let r = IdxCache { entries: HashMap::new() };
        assert(r.windows() =~= Map::<i64, (u64, u64, Seq<u8>)>::empty());
        r
    }

    /// The window held for `file_id`, if it has been read.
    pub fn cached(&self, file_id: i64) -> (r: Option<IdxEntry>)
        ensures
            match r {
                Some(e) => self.windows().contains_key(file_id) && window_of(e) == self.windows()[file_id],
                None => !self.windows().contains_key(file_id),
            },
    {
        broadcast use vstd::std_specs::hash::group_hash_axioms;

        match self.entries.get(&file_id) {
            Some(e) => Some(e.duplicate()),
            None => None,
        }
    }

    /// Takes in the bytes of `file_id`'s index file: when they hold a
    /// window it is kept for that file and handed back; otherwise nothing
    /// changes.
    pub fn take_in(&mut self, file_id: i64, data: &[u8]) -> (r: Option<IdxEntry>)
        ensures
            match r {
                Some(e) => idx_window(data@) == Some(window_of(e)),
                None => idx_window(data@) is None,
            },
            final(self).windows() == match idx_window(data@) {
                Some(w) => old(self).windows().insert(file_id, w),
                None => old(self).windows(),
            },
    {
        broadcast use vstd::std_specs::hash::group_hash_axioms;

        match parse_idx_file(data) {
            Some(e) => {
                let kept = e.duplicate();
                let ghost before = self.windows();
                self.entries.insert(file_id, e);
                assert(self.windows() =~= before.insert(file_id, window_of(kept)));
                Some(kept)
            },
            None => None,
        }
    }
}

/// Law: for an mp4 file (its first part carries `ftyp`) the hint names the
/// mp4 container; part 1 is hinted when the first part carries `moov` or
/// `stss`, the last part when the last part does; no other part is hinted,
/// and the hinted parts are in increasing order, each once.
pub proof fn lemma_mp4_hint_parts(head: Seq<u8>, tail: Option<Seq<u8>>, chunk_size: u64, total_parts: u32)
    requires
        contains_marker(head, mp4_magic()),
    ensures
        ({
            let in_head = contains_marker(head, moov_marker()) || contains_marker(head, stss_marker());
            let in_tail = match tail {
                Some(t) => contains_marker(t, moov_marker()) || contains_marker(t, stss_marker()),
                None => false,
            };
            &&& index_hint_of(head, tail, chunk_size, total_parts) is Some
            &&& index_hint_of(head, tail, chunk_size, total_parts).unwrap().0 == Some(ContainerHint::Mp4)
            &&& in_head ==> index_hint_of(head, tail, chunk_size, total_parts).unwrap().1.contains(1u32)
            &&& in_tail ==> index_hint_of(head, tail, chunk_size, total_parts).unwrap().1.contains(total_parts)
            &&& forall|i: int|
                0 <= i < index_hint_of(head, tail, chunk_size, total_parts).unwrap().1.len() ==> {
                    let p = #[trigger] index_hint_of(head, tail, chunk_size, total_parts).unwrap().1[i];
                    (p == 1 && in_head) || (p == total_parts && in_tail)
                }
            &&& forall|i: int, j: int|
                0 <= i < j < index_hint_of(head, tail, chunk_size, total_parts).unwrap().1.len() ==> #[trigger] index_hint_of(
                    head,
                    tail,
                    chunk_size,
                    total_parts,
                ).unwrap().1[i] < #[trigger] index_hint_of(head, tail, chunk_size, total_parts).unwrap().1[j]
        }),
{
    let in_head = contains_marker(head, moov_marker()) || contains_marker(head, stss_marker());
    let in_tail = match tail {
        Some(t) => contains_marker(t, moov_marker()) || contains_marker(t, stss_marker()),
        None => false,
    };
    let parts = index_hint_of(head, tail, chunk_size, total_parts).unwrap().1;
    if in_head && in_tail {
        if total_parts < 1 {
            assert(parts[1] == 1u32);
            assert(parts[0] == total_parts);
        } else if total_parts == 1 {
            assert(parts[0] == 1u32);
        } else {
            assert(parts[0] == 1u32);
            assert(parts[1] == total_parts);
        }
    } else if in_head {
        assert(parts[0] == 1u32);
    } else if in_tail {
        assert(parts[0] == total_parts);
    }
}

/// Law: for an mkv file (its first part carries the EBML magic and no
/// `ftyp`) the hint names the mkv container and hints the last part alone
/// when the last part carries the Cues id or the part layout is known;
/// otherwise nothing is hinted.
pub proof fn lemma_mkv_hint_parts(head: Seq<u8>, tail: Option<Seq<u8>>, chunk_size: u64, total_parts: u32)
    requires
        !contains_marker(head, mp4_magic()),
        contains_marker(head, mkv_magic()),
    ensures
        index_hint_of(head, tail, chunk_size, total_parts) is Some,
        index_hint_of(head, tail, chunk_size, total_parts).unwrap().0 == Some(ContainerHint::Mkv),
        index_hint_of(head, tail, chunk_size, total_parts).unwrap().1 == (if (tail matches Some(t) && contains_marker(
            t,
            mkv_cues(),
        )) || (chunk_size > 0 && total_parts > 0) {
            seq![total_parts]
        } else {
            Seq::<u32>::empty()
        }),
{
}

} // verus!
