//! The sparse byte cache that backs streaming playback: written byte runs of
//! each file are merged into sorted chunks, reads block until a range is
//! filled, and least recently written chunks are evicted above a watermark of
//! nine tenths of the byte budget, except those inside a file's pin window.
use vstd::prelude::*;
use crate::chunks::{
    agrees, bytes_map, chunk_total, chunks_wf, covered, extend_range, lemma_agrees_at, lemma_byte_at,
    lemma_chunk_total_concat, lemma_chunk_total_split, merge_chunks, merge_start, merged_chunks, overlay, Chunk,
};

verus! {

struct FileChunks {
    file_id: i64,
    chunks: Vec<Chunk>,
}

/// Appending the bytes `[cur, stop)` of chunk `k` to a buffer that agrees
/// with the file's bytes from `offset` keeps it in agreement.
proof fn lemma_assemble_step(s: Seq<Chunk>, k: int, offset: int, cur: int, stop: int, prev: Seq<u8>, next: Seq<u8>)
    requires
        chunks_wf(s),
        0 <= k < s.len(),
        s[k].start() <= cur < stop <= s[k].end(),
        prev.len() == cur - offset,
        agrees(bytes_map(s), offset, prev),
        next == prev + s[k].data@.subrange(cur - s[k].offset, stop - s[k].offset),
    ensures
        agrees(bytes_map(s), offset, next),
{
    assert forall|p: int| offset <= p < offset + next.len() implies #[trigger] bytes_map(s).contains_key(p) && bytes_map(
        s,
    )[p] == next[p - offset] by {
        if p >= cur {
            lemma_byte_at(s, k, p);
        } else {
            assert(next[p - offset] == prev[p - offset]);
            lemma_agrees_at(bytes_map(s), offset, prev, p);
        }
    }
}

/// What the cache holds, as mathematics.
pub struct CacheModel {
    /// The chunks of each file that has an entry.
    pub files: Map<i64, Seq<Chunk>>,
    /// Chunk keys `(file, offset)`, most recently written first; keys of chunks
    /// that were merged away may linger and are skipped.
    pub lru: Seq<(i64, u64)>,
    /// Pin windows `(file, start, end)`.
    pub pins: Seq<(i64, u64, u64)>,
    pub max_bytes: int,
    pub current_bytes: int,
}

/// `s` without any occurrence of `k`, order kept.
pub open spec fn remove_key<K>(s: Seq<K>, k: K) -> Seq<K>
    decreases s.len(),
{
    if s.len() == 0 {
        s
    } else {
        let r = remove_key(s.drop_last(), k);
        if s.last() == k {
            r
        } else {
            r.push(s.last())
        }
    }
}

/// The pin windows without those of file `f`.
pub open spec fn remove_pins_of(s: Seq<(i64, u64, u64)>, f: i64) -> Seq<(i64, u64, u64)>
    decreases s.len(),
{
    if s.len() == 0 {
        s
    } else {
        let r = remove_pins_of(s.drop_last(), f);
        if s.last().0 == f {
            r
        } else {
            r.push(s.last())
        }
    }
}

/// `offset + len`, saturating at `u64::MAX`.
pub open spec fn saturating_end(offset: u64, len: u64) -> int {
    if offset + len <= u64::MAX {
        offset + len
    } else {
        u64::MAX as int
    }
}

/// `v` holds the bytes of `s` from `offset` onwards, for as long as they are
/// cached without a gap and at most `len` of them.
pub open spec fn assembled(s: Seq<Chunk>, offset: int, len: int, v: Seq<u8>) -> bool {
    &&& v.len() <= len
    &&& agrees(bytes_map(s), offset, v)
    &&& (v.len() < len ==> !bytes_map(s).contains_key(offset + v.len()))
}

impl CacheModel {
    pub open spec fn chunks_of(self, f: i64) -> Seq<Chunk> {
        if self.files.contains_key(f) {
            self.files[f]
        } else {
            Seq::empty()
        }
    }

    /// The cached bytes of file `f`, by position.
    pub open spec fn bytes_of(self, f: i64) -> Map<int, u8> {
        bytes_map(self.chunks_of(f))
    }

    /// Every file's chunks are sorted, disjoint and non-empty.
    pub open spec fn inv(self) -> bool {
        &&& forall|f: i64| #[trigger] self.files.contains_key(f) ==> chunks_wf(self.files[f])
    }

    pub open spec fn is_pinned(self, f: i64, off: u64) -> bool {
        exists|i: int|
            0 <= i < self.pins.len() && #[trigger] self.pins[i].0 == f && self.pins[i].1 <= off
                < self.pins[i].2
    }

    /// Every stored chunk's key is in the recency list.
    pub open spec fn keys_cover(self) -> bool {
        forall|f: i64, k: int|
            #![trigger self.files[f][k]]
            self.files.contains_key(f) && 0 <= k < self.files[f].len() ==> self.lru.contains((f, self.files[f][k].offset))
    }

    pub open spec fn has_chunk(self, f: i64, off: u64) -> bool {
        &&& self.files.contains_key(f)
        &&& exists|k: int| 0 <= k < self.files[f].len() && #[trigger] self.files[f][k].offset == off
    }

    /// More than nine tenths of the byte budget are in use.
    pub open spec fn over_watermark(self) -> bool {
        self.current_bytes * 10 > self.max_bytes * 9
    }

    pub open spec fn evictable(self, e: (i64, u64)) -> bool {
        self.has_chunk(e.0, e.1) && !self.is_pinned(e.0, e.1)
    }

    /// The least recently written key of `s` whose chunk is cached and not pinned.
    pub open spec fn candidate_in(self, s: Seq<(i64, u64)>) -> Option<(i64, u64)>
        decreases s.len(),
    {
        if s.len() == 0 {
            None
        } else if self.evictable(s.last()) {
            Some(s.last())
        } else {
            self.candidate_in(s.drop_last())
        }
    }

    pub open spec fn candidate(self) -> Option<(i64, u64)> {
        self.candidate_in(self.lru)
    }

    pub open spec fn chunk_index(self, f: i64, off: u64) -> int {
        choose|k: int| 0 <= k < self.files[f].len() && #[trigger] self.files[f][k].offset == off
    }

    /// The cache after the chunk of `f` at `off` is dropped.
    pub open spec fn without_chunk(self, f: i64, off: u64) -> CacheModel {
        let s = self.files[f];
        let k = self.chunk_index(f, off);
        CacheModel {
            files: self.files.insert(f, s.remove(k)),
            lru: remove_key(self.lru, (f, off)),
            pins: self.pins,
            max_bytes: self.max_bytes,
            current_bytes: self.current_bytes - s[k].data@.len(),
        }
    }

    /// The cache after eviction: while over the watermark, the least recently
    /// written unpinned chunk is dropped.
    pub open spec fn evicted(self) -> CacheModel
        decreases self.lru.len(),
    {
        if !self.over_watermark() {
            self
        } else {
            match self.candidate() {
                None => self,
                Some(e) => {
                    proof {
                        lemma_candidate_in_seq(self, self.lru);
                        lemma_remove_key_shorter(self.lru, e);
                    }
                    self.without_chunk(e.0, e.1).evicted()
                },
            }
        }
    }

    /// The chunks that eviction drops, each with its file, in the order in
    /// which it drops them.
    pub open spec fn dropped(self) -> Seq<(i64, Chunk)>
        decreases self.lru.len(),
    {
        if !self.over_watermark() {
            seq![]
        } else {
            match self.candidate() {
                None => seq![],
                Some(e) => {
                    proof {
                        lemma_candidate_in_seq(self, self.lru);
                        lemma_remove_key_shorter(self.lru, e);
                    }
                    seq![(e.0, self.files[e.0][self.chunk_index(e.0, e.1)])] + self.without_chunk(e.0, e.1).dropped()
                },
            }
        }
    }

    /// `post` is this cache after `data` is merged in at `offset` of file `f`,
    /// before eviction.
    pub open spec fn written(self, f: i64, offset: u64, data: Seq<u8>, post: CacheModel) -> bool {
        let old_chunks = self.chunks_of(f);
        let key = (f, merge_start(old_chunks, offset as int) as u64);
        &&& post.files.dom() == self.files.dom().insert(f)
        &&& forall|g: i64| #[trigger] self.files.contains_key(g) && g != f ==> post.files[g] == self.files[g]
        &&& merged_chunks(old_chunks, offset as int, data, post.files[f])
        &&& chunks_wf(post.files[f])
        &&& bytes_map(post.files[f]) == overlay(old_chunks, offset as int, data)
        &&& post.lru == seq![key] + remove_key(self.lru, key)
        &&& post.pins == self.pins
        &&& post.max_bytes == self.max_bytes
        &&& post.current_bytes == self.current_bytes - chunk_total(old_chunks) + chunk_total(post.files[f])
    }

    /// Every byte of `[offset, offset + len)` (the end saturating) is cached;
    /// an empty range always is.
    pub open spec fn range_filled(self, f: i64, offset: u64, len: u64) -> bool {
        len == 0 || (self.files.contains_key(f) && forall|p: int|
            offset <= p < saturating_end(offset, len) ==> #[trigger] bytes_map(self.files[f]).contains_key(p))
    }
}

pub proof fn lemma_candidate_in_seq(m: CacheModel, s: Seq<(i64, u64)>)
    ensures
        m.candidate_in(s) matches Some(e) ==> s.contains(e) && m.evictable(e),
    decreases s.len(),
{
    if s.len() > 0 {
        lemma_candidate_in_seq(m, s.drop_last());
        if !m.evictable(s.last()) {
            if let Some(e) = m.candidate_in(s.drop_last()) {
                let i = choose|i: int| 0 <= i < s.drop_last().len() && s.drop_last()[i] == e;
                assert(s[i] == e);
            }
        } else {
            assert(s[s.len() - 1] == s.last());
        }
    }
}

pub proof fn lemma_remove_key_shorter<K>(s: Seq<K>, k: K)
    ensures
        remove_key(s, k).len() <= s.len(),
        s.contains(k) ==> remove_key(s, k).len() < s.len(),
        forall|i: int| 0 <= i < remove_key(s, k).len() ==> remove_key(s, k)[i] != k,
    decreases s.len(),
{
    if s.len() > 0 {
        lemma_remove_key_shorter(s.drop_last(), k);
        if s.contains(k) && s.last() != k {
            let i = choose|i: int| 0 <= i < s.len() && s[i] == k;
            assert(i != s.len() - 1);
            assert(s.drop_last()[i] == k);
        }
        let r = remove_key(s.drop_last(), k);
        if s.last() != k {
            assert forall|i: int| 0 <= i < r.push(s.last()).len() implies r.push(s.last())[i] != k by {
                if i < r.len() {
                    assert(r.push(s.last())[i] == r[i]);
                }
            }
        }
    }
}

spec fn ids_unique(s: Seq<FileChunks>) -> bool {
    forall|i: int, j: int| 0 <= i < j < s.len() ==> #[trigger] s[i].file_id != #[trigger] s[j].file_id
}

spec fn files_map(s: Seq<FileChunks>) -> Map<i64, Seq<Chunk>>
    decreases s.len(),
{
    if s.len() == 0 {
        Map::empty()
    } else {
        files_map(s.drop_last()).insert(s.last().file_id, s.last().chunks@)
    }
}

spec fn files_total(s: Seq<FileChunks>) -> nat
    decreases s.len(),
{
    if s.len() == 0 {
        0
    } else {
        files_total(s.drop_last()) + chunk_total(s.last().chunks@)
    }
}

proof fn lemma_files_map_index(s: Seq<FileChunks>, i: int)
    requires
        ids_unique(s),
        0 <= i < s.len(),
    ensures
        files_map(s).contains_key(s[i].file_id),
        files_map(s)[s[i].file_id] == s[i].chunks@,
        chunk_total(s[i].chunks@) <= files_total(s),
    decreases s.len(),
{
    if i < s.len() - 1 {
        lemma_files_map_index(s.drop_last(), i);
        assert(s.drop_last()[i] == s[i]);
        assert(s[i].file_id != s[s.len() - 1].file_id);
    }
}

proof fn lemma_files_map_absent(s: Seq<FileChunks>, f: i64)
    requires
        forall|i: int| 0 <= i < s.len() ==> #[trigger] s[i].file_id != f,
    ensures
        !files_map(s).contains_key(f),
    decreases s.len(),
{
    if s.len() > 0 {
        lemma_files_map_absent(s.drop_last(), f);
        assert(s[s.len() - 1].file_id != f);
    }
}

proof fn lemma_files_map_dom(s: Seq<FileChunks>, f: i64)
    requires
        files_map(s).contains_key(f),
    ensures
        exists|i: int| 0 <= i < s.len() && #[trigger] s[i].file_id == f,
    decreases s.len(),
{
    if s.last().file_id != f {
        lemma_files_map_dom(s.drop_last(), f);
        let i = choose|i: int| 0 <= i < s.drop_last().len() && #[trigger] s.drop_last()[i].file_id == f;
        assert(s[i].file_id == f);
    } else {
        assert(s[s.len() - 1].file_id == f);
    }
}

proof fn lemma_files_update(s: Seq<FileChunks>, i: int, x: FileChunks)
    requires
        ids_unique(s),
        0 <= i < s.len(),
        x.file_id == s[i].file_id,
    ensures
        ids_unique(s.update(i, x)),
        files_map(s.update(i, x)) == files_map(s).insert(x.file_id, x.chunks@),
        files_total(s.update(i, x)) + chunk_total(s[i].chunks@) == files_total(s) + chunk_total(x.chunks@),
    decreases s.len(),
{
    let t = s.update(i, x);
    assert forall|a: int, b: int| 0 <= a < b < t.len() implies #[trigger] t[a].file_id != #[trigger] t[b].file_id by {
        assert(s[a].file_id != s[b].file_id);
    }
    if i == s.len() - 1 {
        assert(t.drop_last() =~= s.drop_last());
        assert(files_map(t) =~= files_map(s).insert(x.file_id, x.chunks@));
    } else {
        assert(t.drop_last() =~= s.drop_last().update(i, x));
        lemma_files_update(s.drop_last(), i, x);
        assert(s.last().file_id != x.file_id);
        assert(files_map(t) =~= files_map(s).insert(x.file_id, x.chunks@));
    }
}

proof fn lemma_chunk_offsets_unique(s: Seq<Chunk>, k: int, k0: int)
    requires
        chunks_wf(s),
        0 <= k < s.len(),
        0 <= k0 < s.len(),
        s[k].offset == s[k0].offset,
    ensures
        k == k0,
{
    if k < k0 {
        assert(s[k].end() <= s[k0].start());
    } else if k0 < k {
        assert(s[k0].end() <= s[k].start());
    }
}


/// Dropping one chunk of sorted, disjoint chunks keeps them sorted and disjoint,
/// and keeps every other byte.
pub proof fn lemma_remove_chunk(s: Seq<Chunk>, k: int)
    requires
        chunks_wf(s),
        0 <= k < s.len(),
    ensures
        chunks_wf(s.remove(k)),
        bytes_map(s.remove(k)).submap_of(bytes_map(s)),
        forall|j: int| 0 <= j < s.len() && j != k ==> s.remove(k).contains(#[trigger] s[j]),
{
    let t = s.remove(k);
    assert forall|x: int, y: int| 0 <= x < y < t.len() implies #[trigger] t[x].end() <= #[trigger] t[y].start() by {
        let xo = if x < k { x } else { x + 1 };
        let yo = if y < k { y } else { y + 1 };
        assert(s[xo].end() <= s[yo].start());
    }
    assert forall|x: int| 0 <= x < t.len() implies #[trigger] t[x].data@.len() > 0 && t[x].end() <= u64::MAX by {
        let xo = if x < k { x } else { x + 1 };
        assert(t[x] == s[xo]);
    }
    assert(chunks_wf(t));
    assert forall|p: int| #[trigger] bytes_map(t).contains_key(p) implies bytes_map(s).contains_key(p)
        && bytes_map(t)[p] == bytes_map(s)[p] by {
        let j = choose|j: int| 0 <= j < t.len() && #[trigger] t[j].covers(p);
        let jo = if j < k { j } else { j + 1 };
        assert(t[j] == s[jo]);
        lemma_byte_at(t, j, p);
        lemma_byte_at(s, jo, p);
    }
    assert forall|j: int| 0 <= j < s.len() && j != k implies t.contains(#[trigger] s[j]) by {
        if j < k {
            assert(t[j] == s[j]);
        } else {
            assert(t[j - 1] == s[j]);
        }
    }
}

/// Law: a write is read back. Right after `data` is merged in at `offset`,
/// the whole written range is cached and holds `data`.
pub proof fn lemma_write_then_read(pre: CacheModel, f: i64, offset: u64, data: Seq<u8>, post: CacheModel)
    requires
        pre.written(f, offset, data, post),
        0 < data.len(),
        offset + data.len() <= u64::MAX,
    ensures
        post.range_filled(f, offset, data.len() as u64),
        agrees(post.bytes_of(f), offset as int, data),
{
    assert(post.files.contains_key(f));
    assert forall|p: int| offset <= p < offset + data.len() implies #[trigger] post.bytes_of(f).contains_key(p)
        && post.bytes_of(f)[p] == data[p - offset] by {
        crate::chunks::lemma_overlay_new(pre.chunks_of(f), offset as int, data, p);
    }
}

/// Law: when a write leaves the cache under its eviction watermark, nothing
/// is evicted and the written range reads back as written.
pub proof fn lemma_write_read_back(pre: CacheModel, f: i64, offset: u64, data: Seq<u8>, post: CacheModel)
    requires
        pre.written(f, offset, data, post),
        0 < data.len(),
        offset + data.len() <= u64::MAX,
        !post.over_watermark(),
    ensures
        post.evicted() == post,
        post.evicted().range_filled(f, offset, data.len() as u64),
        agrees(post.evicted().bytes_of(f), offset as int, data),
{
    lemma_write_then_read(pre, f, offset, data, post);
}

/// Law: a write leaves the other files' chunks as they were.
pub proof fn lemma_write_other_files(pre: CacheModel, f: i64, offset: u64, data: Seq<u8>, post: CacheModel, g: i64)
    requires
        pre.written(f, offset, data, post),
        g != f,
    ensures
        post.chunks_of(g) == pre.chunks_of(g),
        post.bytes_of(g) == pre.bytes_of(g),
{
    if pre.files.contains_key(g) {
        assert(post.files.contains_key(g));
    } else {
        assert(!post.files.dom().contains(g));
    }
}

/// Law: eviction drops whole chunks only: it never invents or alters a byte,
/// never drops a chunk inside its file's pin window, and stops under the
/// watermark or when every cached chunk left is pinned.
pub proof fn lemma_eviction(m: CacheModel)
    requires
        m.inv(),
    ensures
        m.evicted().inv(),
        m.evicted().pins == m.pins,
        m.evicted().max_bytes == m.max_bytes,
        m.evicted().over_watermark() ==> m.evicted().candidate() is None,
        forall|f: i64| #[trigger] m.evicted().bytes_of(f).submap_of(m.bytes_of(f)),
        forall|f: i64, k: int|
            m.files.contains_key(f) && 0 <= k < m.files[f].len() && m.is_pinned(f, #[trigger] m.files[f][k].offset)
                ==> m.evicted().chunks_of(f).contains(m.files[f][k]),
    decreases m.lru.len(),
{
    if m.over_watermark() {
        if let Some(e) = m.candidate() {
            lemma_candidate_in_seq(m, m.lru);
            lemma_remove_key_shorter(m.lru, e);
            let (f0, off0) = e;
            let k0 = m.chunk_index(f0, off0);
            let n = m.without_chunk(f0, off0);
            lemma_remove_chunk(m.files[f0], k0);
            assert(n.inv()) by {
                assert forall|f: i64| #[trigger] n.files.contains_key(f) implies chunks_wf(n.files[f]) by {
                    if f != f0 {
                        assert(n.files[f] == m.files[f]);
                    }
                }
            }
            lemma_eviction(n);
            assert(m.evicted() == n.evicted());
            assert forall|f: i64| #[trigger] m.evicted().bytes_of(f).submap_of(m.bytes_of(f)) by {
                let a = m.evicted().bytes_of(f);
                let b = n.bytes_of(f);
                let c = m.bytes_of(f);
                assert(a.submap_of(b));
                if f != f0 {
                    assert(n.chunks_of(f) == m.chunks_of(f));
                } else {
                    assert(n.chunks_of(f) == m.files[f0].remove(k0));
                }
                assert(b.submap_of(c));
                assert forall|p: int| #[trigger] a.contains_key(p) implies c.contains_key(p) && a[p] == c[p] by {
                    assert(b.contains_key(p));
                }
            }
            assert forall|f: i64, k: int|
                m.files.contains_key(f) && 0 <= k < m.files[f].len() && m.is_pinned(f, #[trigger] m.files[f][k].offset)
                    implies m.evicted().chunks_of(f).contains(m.files[f][k]) by {
                if f != f0 {
                    assert(n.files[f] == m.files[f]);
                    assert(n.is_pinned(f, n.files[f][k].offset));
                } else {
                    assert(k != k0);
                    let c = m.files[f][k];
                    assert(n.files[f].contains(c));
                    let k1 = choose|k1: int| 0 <= k1 < n.files[f].len() && n.files[f][k1] == c;
                    assert(n.is_pinned(f, n.files[f][k1].offset));
                }
            }
        }
    }
}

pub proof fn lemma_remove_key_contains<K>(s: Seq<K>, k: K, x: K)
    ensures
        remove_key(s, k).contains(x) <==> (s.contains(x) && x != k),
    decreases s.len(),
{
    if s.len() > 0 {
        let p = s.drop_last();
        lemma_remove_key_contains(p, k, x);
        let r = remove_key(p, k);
        if s.contains(x) && x != k {
            let i = choose|i: int| 0 <= i < s.len() && s[i] == x;
            if i < s.len() - 1 {
                assert(p[i] == x);
                if s.last() != k {
                    let j = choose|j: int| 0 <= j < r.len() && r[j] == x;
                    assert(r.push(s.last())[j] == x);
                }
            } else {
                assert(r.push(s.last())[r.len() as int] == x);
            }
        }
        if remove_key(s, k).contains(x) {
            lemma_remove_key_shorter(s, k);
            let j = choose|j: int| 0 <= j < remove_key(s, k).len() && remove_key(s, k)[j] == x;
            if s.last() != k && j == r.len() {
                assert(s[s.len() - 1] == x);
            } else {
                assert(r[j] == x);
                let i = choose|i: int| 0 <= i < p.len() && p[i] == x;
                assert(s[i] == x);
            }
        }
    }
}

proof fn lemma_candidate_none(m: CacheModel, s: Seq<(i64, u64)>)
    requires
        m.candidate_in(s) is None,
    ensures
        forall|x: (i64, u64)| s.contains(x) ==> !m.evictable(x),
    decreases s.len(),
{
    if s.len() > 0 {
        lemma_candidate_none(m, s.drop_last());
        assert forall|x: (i64, u64)| s.contains(x) implies !m.evictable(x) by {
            let i = choose|i: int| 0 <= i < s.len() && s[i] == x;
            if i < s.len() - 1 {
                assert(s.drop_last()[i] == x);
            }
        }
    }
}

/// Offsets of a file's chunks differ.
proof fn lemma_offsets_distinct(s: Seq<Chunk>, i: int, j: int)
    requires
        chunks_wf(s),
        0 <= i < s.len(),
        0 <= j < s.len(),
        i != j,
    ensures
        s[i].offset != s[j].offset,
{
    if i < j {
        assert(s[i].end() <= s[j].start());
    } else {
        assert(s[j].end() <= s[i].start());
    }
}

/// Law: when eviction stops above the watermark, every chunk left lies in a
/// pin window (given that every stored chunk's key is in the recency list).
pub proof fn lemma_stopped_only_when_all_pinned(m: CacheModel)
    requires
        m.keys_cover(),
        m.candidate() is None,
    ensures
        forall|f: i64, k: int|
            #![trigger m.files[f][k]]
            m.files.contains_key(f) && 0 <= k < m.files[f].len() ==> m.is_pinned(f, m.files[f][k].offset),
{
    lemma_candidate_none(m, m.lru);
    assert forall|f: i64, k: int|
        #![trigger m.files[f][k]]
        m.files.contains_key(f) && 0 <= k < m.files[f].len() implies m.is_pinned(f, m.files[f][k].offset) by {
        let x = (f, m.files[f][k].offset);
        assert(m.lru.contains(x));
        assert(m.has_chunk(f, m.files[f][k].offset));
    }
}

/// Eviction keeps every remaining chunk's key in the recency list.
pub proof fn lemma_eviction_keys(m: CacheModel)
    requires
        m.inv(),
        m.keys_cover(),
    ensures
        m.evicted().keys_cover(),
    decreases m.lru.len(),
{
    if m.over_watermark() {
        if let Some(e) = m.candidate() {
            lemma_candidate_in_seq(m, m.lru);
            lemma_remove_key_shorter(m.lru, e);
            let n = m.without_chunk(e.0, e.1);
            lemma_without_candidate(m, e);
            lemma_eviction_keys(n);
            assert(m.evicted() == n.evicted());
        }
    }
}

/// Dropping the eviction candidate keeps the model well formed and every
/// remaining chunk's key in the recency list.
proof fn lemma_without_candidate(m: CacheModel, e: (i64, u64))
    requires
        m.inv(),
        m.keys_cover(),
        m.candidate() == Some(e),
    ensures
        m.without_chunk(e.0, e.1).inv(),
        m.without_chunk(e.0, e.1).keys_cover(),
        forall|x: (i64, u64)| #[trigger] m.without_chunk(e.0, e.1).has_chunk(x.0, x.1) <==> m.has_chunk(x.0, x.1) && x != e,
{
    lemma_candidate_in_seq(m, m.lru);
    let (f0, off0) = e;
    let k0 = m.chunk_index(f0, off0);
    let n = m.without_chunk(f0, off0);
    lemma_remove_chunk(m.files[f0], k0);
    assert(n.inv()) by {
        assert forall|f: i64| #[trigger] n.files.contains_key(f) implies chunks_wf(n.files[f]) by {
            if f != f0 {
                assert(n.files[f] == m.files[f]);
            }
        }
    }
    assert forall|f: i64, k: int|
        #![trigger n.files[f][k]]
        n.files.contains_key(f) && 0 <= k < n.files[f].len() implies n.lru.contains((f, n.files[f][k].offset)) by {
        if f != f0 {
            assert(n.files[f] == m.files[f]);
            assert(m.lru.contains((f, m.files[f][k].offset)));
            lemma_remove_key_contains(m.lru, e, (f, n.files[f][k].offset));
        } else {
            let ko = if k < k0 { k } else { k + 1 };
            assert(n.files[f][k] == m.files[f][ko]);
            assert(m.lru.contains((f, m.files[f][ko].offset)));
            lemma_offsets_distinct(m.files[f], ko, k0);
            lemma_remove_key_contains(m.lru, e, (f, n.files[f][k].offset));
        }
    }
    assert forall|x: (i64, u64)| #[trigger] n.has_chunk(x.0, x.1) <==> m.has_chunk(x.0, x.1) && x != e by {
        if x.0 != f0 {
            if m.files.contains_key(x.0) {
                assert(n.files[x.0] == m.files[x.0]);
            }
        } else {
            let s0 = m.files[f0];
            if n.has_chunk(x.0, x.1) {
                let k = choose|k: int| 0 <= k < n.files[f0].len() && #[trigger] n.files[f0][k].offset == x.1;
                let ko = if k < k0 { k } else { k + 1 };
                assert(n.files[f0][k] == s0[ko]);
                lemma_offsets_distinct(s0, ko, k0);
                assert(s0[ko].offset == x.1);
            }
            if m.has_chunk(x.0, x.1) && x != e {
                let k = choose|k: int| 0 <= k < s0.len() && #[trigger] s0[k].offset == x.1;
                assert(k != k0);
                let kn = if k < k0 { k } else { k - 1 };
                assert(n.files[f0][kn] == s0[k]);
                assert(n.files[f0][kn].offset == x.1);
            }
        }
    }
}

/// Eviction only drops chunks: a chunk cached after it was cached before.
proof fn lemma_evicted_only_drops(m: CacheModel, x: (i64, u64))
    requires
        m.inv(),
        m.keys_cover(),
    ensures
        m.evicted().has_chunk(x.0, x.1) ==> m.has_chunk(x.0, x.1),
    decreases m.lru.len(),
{
    if m.over_watermark() {
        if let Some(e) = m.candidate() {
            lemma_candidate_in_seq(m, m.lru);
            lemma_remove_key_shorter(m.lru, e);
            let n = m.without_chunk(e.0, e.1);
            lemma_without_candidate(m, e);
            lemma_evicted_only_drops(n, x);
            assert(m.evicted() == n.evicted());
        }
    }
}

/// The candidate is the last evictable key of the list.
proof fn lemma_candidate_last(m: CacheModel, s: Seq<(i64, u64)>, i: int)
    requires
        0 <= i < s.len(),
        m.evictable(s[i]),
    ensures
        m.candidate_in(s) matches Some(c) && exists|j: int| i <= j < s.len() && s[j] == c,
    decreases s.len(),
{
    if i < s.len() - 1 && !m.evictable(s.last()) {
        lemma_candidate_last(m, s.drop_last(), i);
        let c = m.candidate_in(s).unwrap();
        let j = choose|j: int| i <= j < s.drop_last().len() && s.drop_last()[j] == c;
        assert(s[j] == c);
    } else if i == s.len() - 1 {
        assert(s[s.len() - 1] == s.last());
    } else {
        assert(s[s.len() - 1] == s.last());
    }
}

/// `a` comes before `b` in the recency list `s`: it was written more
/// recently.
pub open spec fn newer_in(s: Seq<(i64, u64)>, a: (i64, u64), b: (i64, u64)) -> bool {
    exists|i: int, j: int| 0 <= i < j < s.len() && s[i] == a && s[j] == b
}

proof fn lemma_remove_key_order<K>(s: Seq<K>, k: K, i: int, j: int)
    requires
        0 <= i < j < remove_key(s, k).len(),
    ensures
        exists|a: int, b: int| 0 <= a < b < s.len() && s[a] == remove_key(s, k)[i] && s[b] == remove_key(s, k)[j],
    decreases s.len(),
{
    let p = s.drop_last();
    let r = remove_key(p, k);
    lemma_remove_key_shorter(p, k);
    if j < r.len() {
        lemma_remove_key_order(p, k, i, j);
        let (a, b) = choose|a: int, b: int| 0 <= a < b < p.len() && p[a] == r[i] && p[b] == r[j];
        assert(s[a] == p[a] && s[b] == p[b]);
        if s.last() != k {
            assert(remove_key(s, k)[i] == r[i] && remove_key(s, k)[j] == r[j]);
        }
    } else {
        assert(s.last() != k);
        assert(remove_key(s, k)[j] == s.last());
        assert(remove_key(s, k)[i] == r[i]);
        assert(r.contains(r[i]));
        lemma_remove_key_contains(p, k, r[i]);
        let a = choose|a: int| 0 <= a < p.len() && p[a] == r[i];
        assert(s[a] == p[a]);
        assert(s[s.len() - 1] == s.last());
    }
}

/// Law: eviction drops the least recently written chunks first. A chunk
/// that eviction dropped was written before every unpinned chunk that it
/// kept (given that every stored chunk's key is in the recency list).
pub proof fn lemma_eviction_oldest_first(m: CacheModel, dropped: (i64, u64), kept: (i64, u64))
    requires
        m.inv(),
        m.keys_cover(),
        m.has_chunk(dropped.0, dropped.1),
        !m.evicted().has_chunk(dropped.0, dropped.1),
        m.evicted().has_chunk(kept.0, kept.1),
        !m.is_pinned(kept.0, kept.1),
    ensures
        newer_in(m.lru, kept, dropped),
    decreases m.lru.len(),
{
    if m.over_watermark() {
        if let Some(c) = m.candidate() {
            lemma_candidate_in_seq(m, m.lru);
            lemma_remove_key_shorter(m.lru, c);
            let n = m.without_chunk(c.0, c.1);
            lemma_without_candidate(m, c);
            assert(m.evicted() == n.evicted());
            lemma_evicted_only_drops(n, kept);
            assert(n.has_chunk(kept.0, kept.1));
            assert(m.has_chunk(kept.0, kept.1) && kept != c);
            if dropped == c {
                let ks = m.files[kept.0];
                let k = choose|k: int| 0 <= k < ks.len() && #[trigger] ks[k].offset == kept.1;
                assert(m.lru.contains((kept.0, m.files[kept.0][k].offset)));
                let i = choose|i: int| 0 <= i < m.lru.len() && m.lru[i] == kept;
                assert(m.evictable(m.lru[i]));
                lemma_candidate_last(m, m.lru, i);
                let j = choose|j: int| i <= j < m.lru.len() && m.lru[j] == c;
                assert(i != j);
                assert(newer_in(m.lru, kept, dropped));
            } else {
                assert(n.has_chunk(dropped.0, dropped.1));
                lemma_eviction_oldest_first(n, dropped, kept);
                let (i, j) = choose|i: int, j: int| 0 <= i < j < n.lru.len() && n.lru[i] == kept && n.lru[j] == dropped;
                lemma_remove_key_order(m.lru, c, i, j);
            }
        }
    }
}

/// The total length of the chunks in `s`.
pub open spec fn dropped_total(s: Seq<(i64, Chunk)>) -> int
    decreases s.len(),
{
    if s.len() == 0 {
        0
    } else {
        s[0].1.data@.len() + dropped_total(s.drop_first())
    }
}

/// Law: eviction lowers the byte count by exactly the lengths of the chunks
/// it drops, and each chunk it drops was stored in its file and not pinned.
pub proof fn lemma_eviction_count(m: CacheModel)
    requires
        m.inv(),
    ensures
        m.evicted().current_bytes == m.current_bytes - dropped_total(m.dropped()),
        forall|i: int|
            0 <= i < m.dropped().len() ==> m.chunks_of((#[trigger] m.dropped()[i]).0).contains(m.dropped()[i].1)
                && !m.is_pinned(m.dropped()[i].0, m.dropped()[i].1.offset),
    decreases m.lru.len(),
{
    if m.over_watermark() {
        if let Some(e) = m.candidate() {
            lemma_candidate_in_seq(m, m.lru);
            lemma_remove_key_shorter(m.lru, e);
            let (f0, off0) = e;
            let k0 = m.chunk_index(f0, off0);
            let n = m.without_chunk(f0, off0);
            lemma_remove_chunk(m.files[f0], k0);
            assert(n.inv()) by {
                assert forall|f: i64| #[trigger] n.files.contains_key(f) implies chunks_wf(n.files[f]) by {
                    if f != f0 {
                        assert(n.files[f] == m.files[f]);
                    }
                }
            }
            lemma_eviction_count(n);
            let x = (f0, m.files[f0][k0]);
            assert(m.dropped() == seq![x] + n.dropped());
            assert((seq![x] + n.dropped()).drop_first() =~= n.dropped());
            assert(m.evicted() == n.evicted());
            assert forall|i: int|
                0 <= i < m.dropped().len() implies m.chunks_of((#[trigger] m.dropped()[i]).0).contains(m.dropped()[i].1)
                    && !m.is_pinned(m.dropped()[i].0, m.dropped()[i].1.offset) by {
                if i == 0 {
                    assert(m.dropped()[0] == x);
                    assert(m.files[f0][k0].offset == off0);
                    assert(m.chunks_of(f0)[k0] == x.1);
                } else {
                    let y = n.dropped()[i - 1];
                    assert(m.dropped()[i] == y);
                    assert(n.chunks_of(y.0).contains(y.1));
                    assert(n.pins == m.pins);
                    assert(!n.is_pinned(y.0, y.1.offset));
                    if y.0 != f0 {
                        if n.files.contains_key(y.0) {
                            assert(n.files[y.0] == m.files[y.0]);
                        }
                        assert(n.chunks_of(y.0) == m.chunks_of(y.0));
                    } else {
                        let s0 = m.files[f0];
                        let k = choose|k: int| 0 <= k < n.chunks_of(f0).len() && n.chunks_of(f0)[k] == y.1;
                        let ko = if k < k0 { k } else { k + 1 };
                        assert(n.chunks_of(f0)[k] == s0[ko]);
                        assert(m.chunks_of(f0)[ko] == y.1);
                    }
                }
            }
        }
    }
}

/// A write keeps every stored chunk's key in the recency list.
pub proof fn lemma_written_keys(pre: CacheModel, f: i64, offset: u64, data: Seq<u8>, post: CacheModel)
    requires
        pre.inv(),
        pre.keys_cover(),
        pre.written(f, offset, data, post),
    ensures
        post.keys_cover(),
        post.inv(),
{
    let oc = pre.chunks_of(f);
    let key = (f, merge_start(oc, offset as int) as u64);
    let ns = post.files[f];
    let (a, b) = choose|a: int, b: int|
        #![trigger oc.subrange(0, a), oc.subrange(b, oc.len() as int)]
        0 <= a <= b <= oc.len() && {
            let m = ns[a];
            &&& ns == oc.subrange(0, a) + seq![m] + oc.subrange(b, oc.len() as int)
            &&& m.start() == merge_start(oc, offset as int)
            &&& forall|k: int| 0 <= k < a ==> #[trigger] oc[k].end() <= m.start()
            &&& forall|k: int| b <= k < oc.len() ==> #[trigger] oc[k].start() > m.end()
            &&& forall|k: int| a <= k < b ==> m.start() <= #[trigger] oc[k].start() && oc[k].end() <= m.end()
        };
    let m = ns[a];
    if pre.files.contains_key(f) {
        assert(chunks_wf(oc));
    } else {
        assert(oc =~= Seq::<Chunk>::empty());
    }
    assert forall|g: i64, k: int|
        #![trigger post.files[g][k]]
        post.files.contains_key(g) && 0 <= k < post.files[g].len() implies post.lru.contains(
            (g, post.files[g][k].offset),
        ) by {
        let x = (g, post.files[g][k].offset);
        if g != f {
            assert(pre.files.contains_key(g));
            assert(post.files[g] == pre.files[g]);
            assert(pre.lru.contains(x));
            lemma_remove_key_contains(pre.lru, key, x);
            let j = choose|j: int| 0 <= j < remove_key(pre.lru, key).len() && remove_key(pre.lru, key)[j] == x;
            assert(post.lru[j + 1] == x);
        } else if k == a {
            assert(post.lru[0] == key);
            assert(ns[a].offset as int == merge_start(oc, offset as int));
        } else {
            let ko = if k < a { k } else { k - a - 1 + b };
            assert(ns[k] == oc[ko]);
            assert(pre.files.contains_key(f));
            assert(pre.files[f][ko] == oc[ko]);
            assert(pre.lru.contains(x));
            assert(oc[ko].data@.len() > 0);
            if k < a {
                assert(oc[ko].end() <= m.start());
            } else {
                assert(ko >= b);
                assert(oc[ko].start() > m.end());
                assert(m.end() >= m.start());
            }
            assert(oc[ko].offset as int != m.start());
            lemma_remove_key_contains(pre.lru, key, x);
            let j = choose|j: int| 0 <= j < remove_key(pre.lru, key).len() && remove_key(pre.lru, key)[j] == x;
            assert(post.lru[j + 1] == x);
        }
    }
    assert forall|g: i64| #[trigger] post.files.contains_key(g) implies chunks_wf(post.files[g]) by {
        if g != f {
            assert(pre.files.contains_key(g));
        }
    }
}

/// Law of a write: starting from a cache whose chunks are well formed and
/// whose chunk keys are all in the recency list, the cache after the write
/// and its eviction is again so; every byte still cached in the written
/// file is the written data where the write put it and the old byte
/// elsewhere; the other files only lose bytes; and if the cache is still
/// above the watermark, every chunk left lies in a pin window.
pub proof fn lemma_write_law(pre: CacheModel, f: i64, offset: u64, data: Seq<u8>, post: CacheModel)
    requires
        pre.inv(),
        pre.keys_cover(),
        pre.written(f, offset, data, post),
    ensures
        post.evicted().inv(),
        post.evicted().keys_cover(),
        forall|p: int|
            #[trigger] post.evicted().bytes_of(f).contains_key(p) ==> post.evicted().bytes_of(f)[p] == overlay(
                pre.chunks_of(f),
                offset as int,
                data,
            )[p] && overlay(pre.chunks_of(f), offset as int, data).contains_key(p),
        forall|g: i64| g != f ==> (#[trigger] post.evicted().bytes_of(g)).submap_of(pre.bytes_of(g)),
        post.evicted().over_watermark() ==> forall|g: i64, k: int|
            #![trigger post.evicted().files[g][k]]
            post.evicted().files.contains_key(g) && 0 <= k < post.evicted().files[g].len() ==> post.evicted().is_pinned(
                g,
                post.evicted().files[g][k].offset,
            ),
{
    lemma_written_keys(pre, f, offset, data, post);
    lemma_eviction(post);
    lemma_eviction_keys(post);
    let e = post.evicted();
    assert(post.bytes_of(f) == overlay(pre.chunks_of(f), offset as int, data));
    assert forall|p: int| #[trigger] e.bytes_of(f).contains_key(p) implies e.bytes_of(f)[p] == overlay(
        pre.chunks_of(f),
        offset as int,
        data,
    )[p] && overlay(pre.chunks_of(f), offset as int, data).contains_key(p) by {
        assert(e.bytes_of(f).submap_of(post.bytes_of(f)));
    }
    assert forall|g: i64| g != f implies (#[trigger] e.bytes_of(g)).submap_of(pre.bytes_of(g)) by {
        assert(e.bytes_of(g).submap_of(post.bytes_of(g)));
        if pre.files.contains_key(g) {
            assert(post.files[g] == pre.files[g]);
        } else {
            assert(!post.files.contains_key(g));
        }
        assert(post.bytes_of(g) == pre.bytes_of(g));
    }
    if e.over_watermark() {
        lemma_stopped_only_when_all_pinned(e);
    }
}

/// The byte at `p` of file `f` after the writes `ws` (file, offset, data),
/// made in order on a cache that held `init`: the last write that covers
/// `p` decides, else the byte `init` held.
pub open spec fn last_written(ws: Seq<(i64, u64, Seq<u8>)>, f: i64, p: int, init: CacheModel) -> Option<u8>
    decreases ws.len(),
{
    if ws.len() == 0 {
        if init.bytes_of(f).contains_key(p) {
            Some(init.bytes_of(f)[p])
        } else {
            None
        }
    } else {
        let w = ws.last();
        if w.0 == f && w.1 <= p < w.1 + w.2.len() {
            Some(w.2[p - w.1])
        } else {
            last_written(ws.drop_last(), f, p, init)
        }
    }
}

/// One write step of a run: `next` is `prev` after the write `w` and the
/// eviction that follows it.
pub open spec fn write_step(prev: CacheModel, w: (i64, u64, Seq<u8>), next: CacheModel) -> bool {
    exists|post: CacheModel| #[trigger] prev.written(w.0, w.1, w.2, post) && next == post.evicted()
}

/// Law: over any sequence of writes, the newest write wins and every other
/// byte keeps its value. Each byte still cached after the writes `ws`
/// (`states[i + 1]` is `states[i]` after write `i` and its eviction) is the
/// byte the last write covering it put there, or, where none did, the byte
/// the cache held before; eviction only takes bytes away.
pub proof fn lemma_writes_read_back(states: Seq<CacheModel>, ws: Seq<(i64, u64, Seq<u8>)>)
    requires
        states.len() == ws.len() + 1,
        states[0].inv(),
        states[0].keys_cover(),
        forall|i: int| 0 <= i < ws.len() ==> #[trigger] write_step(states[i], ws[i], states[i + 1]),
    ensures
        states.last().inv(),
        states.last().keys_cover(),
        forall|f: i64, p: int|
            #[trigger] states.last().bytes_of(f).contains_key(p) ==> last_written(ws, f, p, states[0]) == Some(
                states.last().bytes_of(f)[p],
            ),
    decreases ws.len(),
{
    if ws.len() > 0 {
        let n = ws.len() as int;
        let s0 = states.drop_last();
        let w0 = ws.drop_last();
        assert forall|i: int| 0 <= i < w0.len() implies #[trigger] write_step(s0[i], w0[i], s0[i + 1]) by {
            assert(write_step(states[i], ws[i], states[i + 1]));
        }
        lemma_writes_read_back(s0, w0);
        let pre = states[n - 1];
        assert(s0.last() == pre);
        let w = ws[n - 1];
        assert(write_step(states[n - 1], ws[n - 1], states[n]));
        let post = choose|post: CacheModel| #[trigger] pre.written(w.0, w.1, w.2, post) && states[n] == post.evicted();
        lemma_written_keys(pre, w.0, w.1, w.2, post);
        lemma_eviction(post);
        lemma_eviction_keys(post);
        assert(states.last() == post.evicted());
        assert forall|f: i64, p: int| #[trigger] states.last().bytes_of(f).contains_key(p) implies last_written(
            ws,
            f,
            p,
            states[0],
        ) == Some(states.last().bytes_of(f)[p]) by {
            let e = post.evicted();
            assert(e.bytes_of(f).submap_of(post.bytes_of(f)));
            assert(e == states.last());
            assert(e.bytes_of(f).dom().contains(p));
            assert(post.bytes_of(f).dom().contains(p));
            assert(post.bytes_of(f)[p] == e.bytes_of(f)[p]);
            assert(ws.drop_last() == w0);
            assert(s0[0] == states[0]);
            if f == w.0 {
                let ov = overlay(pre.chunks_of(f), w.1 as int, w.2);
                assert(post.bytes_of(f) == ov);
                if w.1 <= p < w.1 + w.2.len() {
                    assert(crate::chunks::span_map(w.1 as int, w.2).contains_key(p));
                } else {
                    assert(!crate::chunks::span_map(w.1 as int, w.2).contains_key(p));
                    assert(pre.bytes_of(f).contains_key(p));
                }
            } else {
                if pre.files.contains_key(f) {
                    assert(post.files[f] == pre.files[f]);
                } else {
                    assert(!post.files.contains_key(f));
                }
                assert(post.bytes_of(f) == pre.bytes_of(f));
            }
        }
    }
}

/// The sparse cache of file bytes.
pub struct SparseCache {
    files: Vec<FileChunks>,
    lru: Vec<(i64, u64)>,
    pinned: Vec<(i64, u64, u64)>,
    max_bytes: usize,
    current_bytes: usize,
    write_version: u64,
}

impl View for SparseCache {
    type V = CacheModel;

    closed spec fn view(&self) -> CacheModel {
        CacheModel {
            files: files_map(self.files@),
            lru: self.lru@,
            pins: self.pinned@,
            max_bytes: self.max_bytes as int,
            current_bytes: self.current_bytes as int,
        }
    }
}

impl SparseCache {
    /// The cache's internal consistency: one entry per file, sorted disjoint
    /// chunks, and `current_bytes` equal to the bytes held.
    pub closed spec fn wf(&self) -> bool {
        &&& ids_unique(self.files@)
        &&& forall|i: int| 0 <= i < self.files@.len() ==> chunks_wf(#[trigger] self.files@[i].chunks@)
        &&& self.current_bytes == files_total(self.files@)
    }

    /// Bumped by every non-empty write.
    pub closed spec fn version(&self) -> u64 {
        self.write_version
    }

    pub proof fn lemma_wf_inv(&self)
        requires
            self.wf(),
        ensures
            self@.inv(),
    {
        assert forall|f: i64| #[trigger] self@.files.contains_key(f) implies chunks_wf(self@.files[f]) by {
            lemma_files_map_dom(self.files@, f);
            let i = choose|i: int| 0 <= i < self.files@.len() && #[trigger] self.files@[i].file_id == f;
            lemma_files_map_index(self.files@, i);
        }
    }

    /// An empty cache with a budget of `max_bytes`.
    pub fn new(max_bytes: usize) -> (r: Self)
        ensures
            r.wf(),
            r@ == (CacheModel {
                files: Map::empty(),
                lru: Seq::empty(),
                pins: Seq::empty(),
                max_bytes: max_bytes as int,
                current_bytes: 0,
            }),
            r.version() == 0,
    {
        let r = SparseCache {
            files: Vec::new(),
            lru: Vec::new(),
            pinned: Vec::new(),
            max_bytes,
            current_bytes: 0,
            write_version: 0,
        };
        assert(r@.files =~= Map::<i64, Seq<Chunk>>::empty());
        r
    }

    /// The number of bytes held.
    pub fn current_bytes(&self) -> (r: usize)
        ensures
            r == self@.current_bytes,
    {
        self.current_bytes
    }

    fn find_file(&self, f: i64) -> (r: Option<usize>)
        requires
            self.wf(),
        ensures
            match r {
                Some(i) => i < self.files@.len() && self.files@[i as int].file_id == f
                    && self@.files.contains_key(f) && self@.files[f] == self.files@[i as int].chunks@,
                None => !self@.files.contains_key(f),
            },
    {
        let mut i: usize = 0;
        while i < self.files.len()
            invariant
                self.wf(),
                0 <= i <= self.files@.len(),
                forall|k: int| 0 <= k < i ==> #[trigger] self.files@[k].file_id != f,
            decreases self.files@.len() - i,
        {
            if self.files[i].file_id == f {
                proof {
                    lemma_files_map_index(self.files@, i as int);
                }
                return Some(i);
            }
            i = i + 1;
        }
        proof {
            lemma_files_map_absent(self.files@, f);
        }
        None
    }

    /// Writes `data` at `offset` of file `file_id`, merging it with the chunks
    /// it overlaps or runs into, then evicts down to the watermark. Returns the
    /// new write version, or `None` for empty data, which changes nothing.
    /// The index of the entry of `f`, which is created empty if missing.
    fn ensure_file(&mut self, f: i64) -> (idx: usize)
        requires
            old(self).wf(),
        ensures
            final(self).wf(),
            idx < final(self).files@.len(),
            final(self).files@[idx as int].file_id == f,
            final(self)@ == (CacheModel {
                files: if old(self)@.files.contains_key(f) {
                    old(self)@.files
                } else {
                    old(self)@.files.insert(f, Seq::empty())
                },
                ..old(self)@
            }),
            final(self).version() == old(self).version(),
    {
        let ghost pre_files = self.files@;
        match self.find_file(f) {
            Some(i) => i,
            None => {
                proof {
                    assert forall|i: int| 0 <= i < pre_files.len() implies #[trigger] pre_files[i].file_id != f by {
                        if pre_files[i].file_id == f {
                            lemma_files_map_index(pre_files, i);
                        }
                    }
                }
                self.files.push(FileChunks { file_id: f, chunks: Vec::new() });
                proof {
                    assert forall|a: int, b: int| 0 <= a < b < self.files@.len() implies #[trigger] self.files@[a].file_id
                        != #[trigger] self.files@[b].file_id by {
                        if b == self.files@.len() - 1 {
                            assert(pre_files[a].file_id != f);
                        } else {
                            assert(pre_files[a].file_id != pre_files[b].file_id);
                        }
                    }
                    assert(self.files@.drop_last() =~= pre_files);
                    assert(chunks_wf(Seq::<Chunk>::empty()));
                    assert forall|i: int| 0 <= i < self.files@.len() implies chunks_wf(#[trigger] self.files@[i].chunks@) by {
                        if i < pre_files.len() {
                            assert(self.files@[i] == pre_files[i]);
                        }
                    }
                    assert(self.files@.last().chunks@ =~= Seq::<Chunk>::empty());
                }
                self.files.len() - 1
            },
        }
    }

    /// Merges `data` into the chunks of the file at `idx`; returns the start
    /// of the merged chunk.
    #[verifier::rlimit(30)]
    #[verifier::spinoff_prover]
    fn merge_at(&mut self, idx: usize, offset: u64, data: &Vec<u8>) -> (ms: u64)
        requires
            old(self).wf(),
            idx < old(self).files@.len(),
            data@.len() > 0,
            offset + data@.len() <= u64::MAX,
            old(self)@.current_bytes + data@.len() <= usize::MAX,
        ensures
            final(self).wf(),
            final(self).version() == old(self).version(),
            ({
                let f = old(self).files@[idx as int].file_id;
                let old_chunks = old(self)@.files[f];
                &&& old(self)@.files.contains_key(f)
                &&& ms == merge_start(old_chunks, offset as int)
                &&& final(self)@.files.dom() == old(self)@.files.dom()
                &&& forall|g: i64| #[trigger] old(self)@.files.contains_key(g) && g != f ==> final(self)@.files[g]
                    == old(self)@.files[g]
                &&& merged_chunks(old_chunks, offset as int, data@, final(self)@.files[f])
                &&& bytes_map(final(self)@.files[f]) == overlay(old_chunks, offset as int, data@)
                &&& final(self)@.lru == old(self)@.lru
                &&& final(self)@.pins == old(self)@.pins
                &&& final(self)@.max_bytes == old(self)@.max_bytes
                &&& final(self)@.current_bytes == old(self)@.current_bytes - chunk_total(old_chunks) + chunk_total(
                    final(self)@.files[f],
                )
            }),
    {
        let ghost pre = self@;
        let ghost mid_files = self.files@;
        proof {
            lemma_files_map_index(mid_files, idx as int);
            assert(chunks_wf(mid_files[idx as int].chunks@));
        }
        let fc = self.files.remove(idx);
        let FileChunks { file_id: fid, chunks: old_chunks } = fc;
        let (new_chunks, removed, merged_len, ms) = merge_chunks(old_chunks, offset, data);
        let ghost new_seq = new_chunks@;
        self.files.insert(idx, FileChunks { file_id: fid, chunks: new_chunks });
        proof {
            assert(self.files@ =~= mid_files.update(idx as int, self.files@[idx as int]));
            lemma_files_update(mid_files, idx as int, self.files@[idx as int]);
            assert(self.files@[idx as int].chunks@ == new_seq);
            assert(chunks_wf(new_seq));
            assert forall|i: int| 0 <= i < self.files@.len() implies chunks_wf(#[trigger] self.files@[i].chunks@) by {
                if i != idx {
                    assert(self.files@[i] == mid_files[i]);
                    assert(chunks_wf(mid_files[i].chunks@));
                } else {
                    assert(self.files@[i].chunks@ == new_seq);
                }
            }
        }
        self.current_bytes = self.current_bytes - removed + merged_len;
        proof {
            assert(self@.files == pre.files.insert(fid, new_seq));
            assert(self@.files.dom() =~= pre.files.dom());
        }
        ms
    }

    /// Writes `data` at `offset` of file `file_id`, merging it with the chunks
    /// it overlaps or runs into, then evicts down to the watermark. Returns the
    /// new write version, or `None` for empty data, which changes nothing.
    #[verifier::spinoff_prover]
    pub fn write(&mut self, file_id: i64, offset: u64, data: Vec<u8>) -> (r: Option<u64>)
        requires
            old(self).wf(),
            offset + data@.len() <= u64::MAX,
            old(self)@.current_bytes + data@.len() <= usize::MAX,
        ensures
            final(self).wf(),
            data@.len() == 0 ==> r is None && final(self)@ == old(self)@ && final(self).version()
                == old(self).version(),
            data@.len() > 0 ==> {
                &&& final(self).version() == (if old(self).version() == u64::MAX {
                    0
                } else {
                    (old(self).version() + 1) as u64
                })
                &&& r == Some(final(self).version())
                &&& exists|post: CacheModel|
                    old(self)@.written(file_id, offset, data@, post) && final(self)@ == post.evicted()
            },
            old(self)@.keys_cover() ==> final(self)@.keys_cover(),
            data@.len() > 0 && old(self)@.keys_cover() && final(self)@.over_watermark() ==> forall|g: i64, k: int|
                #![trigger final(self)@.files[g][k]]
                final(self)@.files.contains_key(g) && 0 <= k < final(self)@.files[g].len() ==> final(self)@.is_pinned(
                    g,
                    final(self)@.files[g][k].offset,
                ),
    {
        if data.len() == 0 {
            return None;
        }
        proof {
            self.lemma_wf_inv();
        }
        let ghost pre = self@;
        let idx = self.ensure_file(file_id);
        let ghost mid = self@;
        let ms = self.merge_at(idx, offset, &data);
        let key = (file_id, ms);
        self.lru = move_to_front(&self.lru, key);
        self.write_version = if self.write_version == u64::MAX {
            0
        } else {
            self.write_version + 1
        };
        let ghost post = self@;
        proof {
            let oc = pre.chunks_of(file_id);
            assert(oc == mid.files[file_id]);
            assert(post.files.dom() =~= pre.files.dom().insert(file_id));
            assert forall|g: i64| #[trigger] pre.files.contains_key(g) && g != file_id implies post.files[g] == pre.files[g] by {
                assert(mid.files.contains_key(g));
                assert(mid.files[g] == pre.files[g]);
            }
            assert(merged_chunks(oc, offset as int, data@, post.files[file_id]));
            self.lemma_wf_inv();
            assert(post.files.contains_key(file_id));
            assert(chunks_wf(post.files[file_id]));
            assert(bytes_map(post.files[file_id]) == overlay(oc, offset as int, data@));
            assert(key == (file_id, merge_start(oc, offset as int) as u64));
            assert(post.lru == seq![key] + remove_key(pre.lru, key));
            assert(post.current_bytes == pre.current_bytes - chunk_total(oc) + chunk_total(post.files[file_id]));
            assert(pre.written(file_id, offset, data@, post));
        }
        self.evict_watermark();
        proof {
            if pre.keys_cover() {
                lemma_write_law(pre, file_id, offset, data@, post);
            }
        }
        Some(self.write_version)
    }

    fn has_chunk_exec(&self, f: i64, off: u64) -> (r: bool)
        requires
            self.wf(),
        ensures
            r == self@.has_chunk(f, off),
    {
        match self.find_file(f) {
            None => false,
            Some(i) => {
                let chunks = &self.files[i].chunks;
                let mut k: usize = 0;
                while k < chunks.len()
                    invariant
                        0 <= k <= chunks@.len(),
                        self@.files.contains_key(f),
                        chunks@ == self@.files[f],
                        forall|j: int| 0 <= j < k ==> #[trigger] chunks@[j].offset != off,
                    decreases chunks@.len() - k,
                {
                    if chunks[k].offset == off {
                        assert(self@.files[f][k as int].offset == off);
                        return true;
                    }
                    k = k + 1;
                }
                false
            },
        }
    }

    fn is_pinned_exec(&self, f: i64, off: u64) -> (r: bool)
        ensures
            r == self@.is_pinned(f, off),
    {
        let mut i: usize = 0;
        while i < self.pinned.len()
            invariant
                0 <= i <= self.pinned@.len(),
                forall|j: int|
                    0 <= j < i ==> !(#[trigger] self.pinned@[j].0 == f && self.pinned@[j].1 <= off < self.pinned@[j].2),
            decreases self.pinned@.len() - i,
        {
            let (pf, ps, pe) = self.pinned[i];
            if pf == f && ps <= off && off < pe {
                assert(self@.pins[i as int].0 == f && self@.pins[i as int].1 <= off < self@.pins[i as int].2);
                return true;
            }
            i = i + 1;
        }
        false
    }

    fn find_candidate(&self) -> (r: Option<(i64, u64)>)
        requires
            self.wf(),
        ensures
            r == self@.candidate(),
    {
        let mut k: usize = self.lru.len();
        assert(self.lru@.subrange(0, k as int) =~= self.lru@);
        while k > 0
            invariant
                0 <= k <= self.lru@.len(),
                self.wf(),
                self@.candidate() == self@.candidate_in(self.lru@.subrange(0, k as int)),
            decreases k,
        {
            let e = self.lru[k - 1];
            let ghost s = self.lru@.subrange(0, k as int);
            assert(s.last() == e);
            assert(s.drop_last() =~= self.lru@.subrange(0, k - 1));
            if self.has_chunk_exec(e.0, e.1) && !self.is_pinned_exec(e.0, e.1) {
                return Some(e);
            }
            k = k - 1;
        }
        None
    }

    #[verifier::spinoff_prover]
    fn evict_chunk(&mut self, f: i64, off: u64)
        requires
            old(self).wf(),
            old(self)@.has_chunk(f, off),
        ensures
            final(self).wf(),
            final(self)@ == old(self)@.without_chunk(f, off),
            final(self).version() == old(self).version(),
    {
        let ghost pre = self@;
        let ghost pre_files = self.files@;
        let idx = match self.find_file(f) {
            Some(i) => i,
            None => {
                return ;
            },
        };
        proof {
            lemma_files_map_index(pre_files, idx as int);
        }
        let fc = self.files.remove(idx);
        let FileChunks { file_id: fid, chunks: mut chunks } = fc;
        let ghost s = chunks@;
        let mut k: usize = 0;
        while k < chunks.len() && chunks[k].offset != off
            invariant
                0 <= k <= chunks@.len(),
                chunks@ == s,
                forall|j: int| 0 <= j < k ==> #[trigger] chunks@[j].offset != off,
            decreases chunks@.len() - k,
        {
            k = k + 1;
        }
        if k == chunks.len() {
            assert(false);
            return ;
        }
        proof {
            let k0 = pre.chunk_index(f, off);
            lemma_chunk_offsets_unique(s, k as int, k0);
        }
        let dropped = chunks.remove(k);
        let dlen = dropped.data.len();
        self.files.insert(idx, FileChunks { file_id: fid, chunks });
        proof {
            assert(self.files@ =~= pre_files.update(idx as int, self.files@[idx as int]));
            lemma_files_update(pre_files, idx as int, self.files@[idx as int]);
            lemma_chunk_total_split(s, k as int, k + 1);
            assert(s.subrange(k as int, k + 1) =~= seq![s[k as int]]);
            assert(chunk_total(seq![s[k as int]]) == s[k as int].data@.len()) by {
                assert(seq![s[k as int]].drop_last() =~= Seq::<Chunk>::empty());
                reveal_with_fuel(chunk_total, 2);
            }
            assert(s.remove(k as int) =~= s.subrange(0, k as int) + s.subrange(k + 1, s.len() as int));
            lemma_chunk_total_concat(s.subrange(0, k as int), s.subrange(k + 1, s.len() as int));
            assert forall|x: int, y: int| 0 <= x < y < s.remove(k as int).len() implies #[trigger] s.remove(
                k as int,
            )[x].end() <= #[trigger] s.remove(k as int)[y].start() by {
                let xo = if x < k { x } else { x + 1 };
                let yo = if y < k { y } else { y + 1 };
                assert(s[xo].end() <= s[yo].start());
            }
            assert forall|x: int| 0 <= x < s.remove(k as int).len() implies #[trigger] s.remove(
                k as int,
            )[x].data@.len() > 0 && s.remove(k as int)[x].end() <= u64::MAX by {
                let xo = if x < k { x } else { x + 1 };
                assert(s.remove(k as int)[x] == s[xo]);
            }
            assert(chunks_wf(s.remove(k as int)));
            assert(self.files@[idx as int].chunks@ == s.remove(k as int));
            assert forall|i: int| 0 <= i < self.files@.len() implies chunks_wf(#[trigger] self.files@[i].chunks@) by {
                if i != idx {
                    assert(self.files@[i] == pre_files[i]);
                    assert(chunks_wf(pre_files[i].chunks@));
                } else {
                    assert(self.files@[i].chunks@ == s.remove(k as int));
                }
            }
        }
        self.current_bytes = self.current_bytes - dlen;
        self.lru = remove_key_vec(&self.lru, (f, off));
        proof {
            assert(self@.files =~= pre.without_chunk(f, off).files);
        }
    }

    fn evict_watermark(&mut self)
        requires
            old(self).wf(),
        ensures
            final(self).wf(),
            final(self)@ == old(self)@.evicted(),
            final(self).version() == old(self).version(),
    {
        loop
            invariant
                self.wf(),
                self@.evicted() == old(self)@.evicted(),
                self.version() == old(self).version(),
            ensures
                self@.evicted() == self@,
            decreases self.lru@.len(),
        {
            if !(self.current_bytes as u128 * 10 > self.max_bytes as u128 * 9) {
                break;
            }
            match self.find_candidate() {
                None => {
                    break;
                },
                Some(e) => {
                    let ghost before = self@;
                    proof {
                        lemma_candidate_in_seq(before, before.lru);
                        lemma_remove_key_shorter(before.lru, e);
                    }
                    self.evict_chunk(e.0, e.1);
                },
            }
        }
    }

    /// Is every byte of `[offset, offset + len)` cached (the end saturating)?
    pub fn is_range_filled(&self, file_id: i64, offset: u64, len: u64) -> (r: bool)
        requires
            self.wf(),
        ensures
            r == self@.range_filled(file_id, offset, len),
    {
        if len == 0 {
            return true;
        }
        let i = match self.find_file(file_id) {
            None => {
                return false;
            },
            Some(i) => i,
        };
        proof {
            self.lemma_wf_inv();
        }
        let chunks = &self.files[i].chunks;
        let ghost s = chunks@;
        let end: u64 = if offset <= u64::MAX - len { offset + len } else { u64::MAX };
        let mut cur: u64 = offset;
        let mut k: usize = 0;
        while k < chunks.len()
            invariant
                0 <= k <= chunks@.len(),
                chunks@ == s,
                self@.files.contains_key(file_id),
                s == self@.files[file_id],
                chunks_wf(s),
                offset <= cur,
                end == saturating_end(offset, len),
                forall|p: int| offset <= p < cur ==> #[trigger] bytes_map(s).contains_key(p),
                cur < end ==> forall|j: int| 0 <= j < k ==> #[trigger] s[j].end() <= cur,
            decreases chunks@.len() - k,
        {
            if cur >= end {
                assert forall|p: int| offset <= p < saturating_end(offset, len) implies #[trigger] bytes_map(
                    self@.files[file_id],
                ).contains_key(p) by {}
                return true;
            }
            let c = &chunks[k];
            assert(s[k as int].end() <= u64::MAX);
            let cend: u64 = c.offset + c.data.len() as u64;
            if cend > cur {
                if c.offset > cur {
                    proof {
                        assert(!covered(s, cur as int)) by {
                            if covered(s, cur as int) {
                                let j = choose|j: int| 0 <= j < s.len() && #[trigger] s[j].covers(cur as int);
                                if j > k {
                                    assert(s[k as int].end() <= s[j].start());
                                }
                            }
                        }
                    }
                    assert(!bytes_map(self@.files[file_id]).contains_key(cur as int));
                    return false;
                }
                proof {
                    assert forall|p: int| offset <= p < cend implies #[trigger] bytes_map(s).contains_key(p) by {
                        if p >= cur {
                            lemma_byte_at(s, k as int, p);
                        }
                    }
                }
                cur = cend;
                proof {
                    assert forall|j: int| 0 <= j < k + 1 implies #[trigger] s[j].end() <= cur by {
                        if j < k {
                            assert(s[j].end() <= s[k as int].start());
                        }
                    }
                }
            }
            k = k + 1;
        }
        if cur >= end {
            assert forall|p: int| offset <= p < saturating_end(offset, len) implies #[trigger] bytes_map(
                self@.files[file_id],
            ).contains_key(p) by {}
            return true;
        }
        proof {
            assert(!covered(s, cur as int));
            assert(!bytes_map(self@.files[file_id]).contains_key(cur as int));
        }
        false
    }

    /// The cached bytes of `file_id` from `offset` onwards: at most `len`
    /// bytes, up to the first gap. `None` when the file has no entry.
    pub fn assemble_range(&self, file_id: i64, offset: u64, len: u64) -> (r: Option<Vec<u8>>)
        requires
            self.wf(),
            offset + len <= u64::MAX,
        ensures
            r is None <==> !self@.files.contains_key(file_id),
            r matches Some(v) ==> assembled(self@.files[file_id], offset as int, len as int, v@),
    {
        let i = match self.find_file(file_id) {
            None => {
                return None;
            },
            Some(i) => i,
        };
        let chunks = &self.files[i].chunks;
        let ghost s = chunks@;
        proof {
            self.lemma_wf_inv();
        }
        let end: u64 = offset + len;
        let mut cur: u64 = offset;
        let mut buf: Vec<u8> = Vec::new();
        let mut k: usize = 0;
        while k < chunks.len() && cur < end
            invariant
                0 <= k <= chunks@.len(),
                chunks@ == s,
                self@.files.contains_key(file_id),
                s == self@.files[file_id],
                chunks_wf(s),
                offset <= cur <= end,
                end == offset + len,
                buf@.len() == cur - offset,
                agrees(bytes_map(s), offset as int, buf@),
                cur < end ==> forall|j: int| 0 <= j < k ==> #[trigger] s[j].end() <= cur,
            decreases chunks@.len() - k,
        {
            let c = &chunks[k];
            assert(s[k as int].end() <= u64::MAX);
            let cend: u64 = c.offset + c.data.len() as u64;
            if cend > cur {
                if c.offset > cur {
                    proof {
                        assert(!covered(s, cur as int)) by {
                            if covered(s, cur as int) {
                                let j = choose|j: int| 0 <= j < s.len() && #[trigger] s[j].covers(cur as int);
                                if j > k {
                                    assert(s[k as int].end() <= s[j].start());
                                }
                            }
                        }
                    }
                    return Some(buf);
                }
                let stop: u64 = if cend < end { cend } else { end };
                let ghost prev = buf@;
                extend_range(&mut buf, &c.data, (cur - c.offset) as usize, (stop - c.offset) as usize);
                proof {
                    lemma_assemble_step(s, k as int, offset as int, cur as int, stop as int, prev, buf@);
                }
                cur = stop;
                proof {
                    if cur < end {
                        assert forall|j: int| 0 <= j < k + 1 implies #[trigger] s[j].end() <= cur by {
                            if j < k {
                                assert(s[j].end() <= s[k as int].start());
                            }
                        }
                    }
                }
            }
            k = k + 1;
        }
        proof {
            if cur < end {
                assert(!covered(s, cur as int));
            }
        }
        Some(buf)
    }

    /// Pins `[center - before, center + after)` (both ends saturating) of
    /// `file_id`, replacing the file's previous pin window.
    pub fn set_pin_window(&mut self, file_id: i64, center_file_offset: u64, before_bytes: u64, after_bytes: u64)
        ensures
            final(self).wf() == old(self).wf(),
            final(self).version() == old(self).version(),
            final(self)@ == (CacheModel {
                pins: remove_pins_of(old(self)@.pins, file_id).push(
                    (
                        file_id,
                        (if center_file_offset >= before_bytes {
                            center_file_offset - before_bytes
                        } else {
                            0
                        }) as u64,
                        saturating_end(center_file_offset, after_bytes) as u64,
                    ),
                ),
                ..old(self)@
            }),
    {
        let start: u64 = if center_file_offset >= before_bytes {
            center_file_offset - before_bytes
        } else {
            0
        };
        let end: u64 = if center_file_offset <= u64::MAX - after_bytes {
            center_file_offset + after_bytes
        } else {
            u64::MAX
        };
        let mut pins = remove_pins_vec(&self.pinned, file_id);
        pins.push((file_id, start, end));
        self.pinned = pins;
    }

    /// Drops the pin window of `file_id`.
    pub fn unpin_file(&mut self, file_id: i64)
        ensures
            final(self).wf() == old(self).wf(),
            final(self).version() == old(self).version(),
            final(self)@ == (CacheModel { pins: remove_pins_of(old(self)@.pins, file_id), ..old(self)@ }),
    {
        self.pinned = remove_pins_vec(&self.pinned, file_id);
    }

    /// Drops every chunk, pin window and recency record.
    pub fn clear(&mut self)
        ensures
            final(self).wf(),
            final(self).version() == old(self).version(),
            final(self)@ == (CacheModel {
                files: Map::empty(),
                lru: Seq::empty(),
                pins: Seq::empty(),
                max_bytes: old(self)@.max_bytes,
                current_bytes: 0,
            }),
    {
        self.files = Vec::new();
        self.lru = Vec::new();
        self.pinned = Vec::new();
        self.current_bytes = 0;
        assert(self@.files =~= Map::<i64, Seq<Chunk>>::empty());
    }
}

/// `s` with `key` moved to the front: every other copy of it dropped.
fn move_to_front(s: &Vec<(i64, u64)>, key: (i64, u64)) -> (r: Vec<(i64, u64)>)
    ensures
        r@ == seq![key] + remove_key(s@, key),
{
    let mut r: Vec<(i64, u64)> = Vec::new();
    r.push(key);
    let mut i: usize = 0;
    while i < s.len()
        invariant
            0 <= i <= s@.len(),
            r@ == seq![key] + remove_key(s@.subrange(0, i as int), key),
        decreases s@.len() - i,
    {
        let e = s[i];
        proof {
            assert(s@.subrange(0, i + 1).drop_last() =~= s@.subrange(0, i as int));
            assert(s@.subrange(0, i + 1).last() == e);
        }
        if !(e.0 == key.0 && e.1 == key.1) {
            r.push(e);
            assert(r@ =~= seq![key] + remove_key(s@.subrange(0, i + 1), key));
        }
        i = i + 1;
    }
    assert(s@.subrange(0, s@.len() as int) =~= s@);
    r
}

fn remove_key_vec(s: &Vec<(i64, u64)>, key: (i64, u64)) -> (r: Vec<(i64, u64)>)
    ensures
        r@ == remove_key(s@, key),
{
    let mut r: Vec<(i64, u64)> = Vec::new();
    let mut i: usize = 0;
    while i < s.len()
        invariant
            0 <= i <= s@.len(),
            r@ == remove_key(s@.subrange(0, i as int), key),
        decreases s@.len() - i,
    {
        let e = s[i];
        proof {
            assert(s@.subrange(0, i + 1).drop_last() =~= s@.subrange(0, i as int));
            assert(s@.subrange(0, i + 1).last() == e);
        }
        if !(e.0 == key.0 && e.1 == key.1) {
            r.push(e);
        }
        i = i + 1;
    }
    assert(s@.subrange(0, s@.len() as int) =~= s@);
    r
}

fn remove_pins_vec(s: &Vec<(i64, u64, u64)>, f: i64) -> (r: Vec<(i64, u64, u64)>)
    ensures
        r@ == remove_pins_of(s@, f),
{
    let mut r: Vec<(i64, u64, u64)> = Vec::new();
    let mut i: usize = 0;
    while i < s.len()
        invariant
            0 <= i <= s@.len(),
            r@ == remove_pins_of(s@.subrange(0, i as int), f),
        decreases s@.len() - i,
    {
        let e = s[i];
        proof {
            assert(s@.subrange(0, i + 1).drop_last() =~= s@.subrange(0, i as int));
            assert(s@.subrange(0, i + 1).last() == e);
        }
        if e.0 != f {
            r.push(e);
        }
        i = i + 1;
    }
    assert(s@.subrange(0, s@.len() as int) =~= s@);
    r
}

} // verus!
