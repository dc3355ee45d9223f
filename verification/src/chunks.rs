//! Sorted, disjoint byte chunks of one file and the merge that a write performs.
use vstd::prelude::*;

verus! {

/// A run of bytes cached at `offset` of a file.
pub struct Chunk {
    pub offset: u64,
    pub data: Vec<u8>,
}

impl Chunk {
    pub open spec fn start(self) -> int {
        self.offset as int
    }

    pub open spec fn end(self) -> int {
        self.offset + self.data@.len()
    }

    pub open spec fn covers(self, p: int) -> bool {
        self.start() <= p < self.end()
    }
}

/// The chunks of a file are ordered by offset, do not overlap (they may touch),
/// are never empty and end within the `u64` range.
pub open spec fn chunks_wf(s: Seq<Chunk>) -> bool {
    &&& forall|k: int| 0 <= k < s.len() ==> #[trigger] s[k].data@.len() > 0
    &&& forall|k: int| 0 <= k < s.len() ==> #[trigger] s[k].end() <= u64::MAX
    &&& forall|i: int, j: int| 0 <= i < j < s.len() ==> #[trigger] s[i].end() <= #[trigger] s[j].start()
}

/// Some chunk holds the byte at position `p`.
pub open spec fn covered(s: Seq<Chunk>, p: int) -> bool {
    exists|k: int| 0 <= k < s.len() && #[trigger] s[k].covers(p)
}

/// The byte at `p` in the chunk that covers it.
pub open spec fn byte_at(s: Seq<Chunk>, p: int) -> u8 {
    let k = choose|k: int| 0 <= k < s.len() && #[trigger] s[k].covers(p);
    s[k].data@[p - s[k].offset]
}

/// The bytes the chunks hold, by file position.
pub open spec fn bytes_map(s: Seq<Chunk>) -> Map<int, u8> {
    Map::new(|p: int| covered(s, p), |p: int| byte_at(s, p))
}

/// The bytes `data` placed at file position `pos`.
pub open spec fn span_map(pos: int, data: Seq<u8>) -> Map<int, u8> {
    Map::new(|p: int| pos <= p < pos + data.len(), |p: int| data[p - pos])
}

/// The file's bytes after `data` is written at `offset`: new bytes win.
pub open spec fn overlay(s: Seq<Chunk>, offset: int, data: Seq<u8>) -> Map<int, u8> {
    bytes_map(s).union_prefer_right(span_map(offset, data))
}

/// Total number of bytes held by the chunks.
pub open spec fn chunk_total(s: Seq<Chunk>) -> nat
    decreases s.len(),
{
    if s.len() == 0 {
        0
    } else {
        chunk_total(s.drop_last()) + s.last().data@.len()
    }
}

/// Where the chunk produced by a write at `offset` starts: at the start of the
/// chunk that begins before `offset` and touches or overlaps it, if one does,
/// else at `offset`.
pub open spec fn merge_start(s: Seq<Chunk>, offset: int) -> int {
    if exists|k: int| 0 <= k < s.len() && s[k].start() < offset <= #[trigger] s[k].end() {
        let k = choose|k: int| 0 <= k < s.len() && s[k].start() < offset <= #[trigger] s[k].end();
        s[k].start()
    } else {
        offset
    }
}

/// `new` is what a write of `data` at `offset` turns `old` into: the chunks
/// `old[a..b]` that touch or straddle the write's start, overlap it, or follow on from it
/// without a gap are replaced by one chunk starting at `merge_start`, which holds
/// the merged bytes; all other chunks are kept as they are.
pub open spec fn merged_chunks(old: Seq<Chunk>, offset: int, data: Seq<u8>, new: Seq<Chunk>) -> bool {
    exists|a: int, b: int|
        #![trigger old.subrange(0, a), old.subrange(b, old.len() as int)]
        0 <= a <= b <= old.len() && {
            let m = new[a];
            &&& new == old.subrange(0, a) + seq![m] + old.subrange(b, old.len() as int)
            &&& m.start() == merge_start(old, offset)
            &&& forall|k: int| 0 <= k < a ==> #[trigger] old[k].end() <= m.start()
            &&& forall|k: int| b <= k < old.len() ==> #[trigger] old[k].start() > m.end()
            &&& forall|k: int| a <= k < b ==> m.start() <= #[trigger] old[k].start() && old[k].end() <= m.end()
        }
}

pub proof fn lemma_byte_at(s: Seq<Chunk>, k: int, p: int)
    requires
        chunks_wf(s),
        0 <= k < s.len(),
        s[k].covers(p),
    ensures
        bytes_map(s).contains_key(p),
        bytes_map(s)[p] == s[k].data@[p - s[k].offset],
{
    let k0 = choose|k: int| 0 <= k < s.len() && #[trigger] s[k].covers(p);
    assert(s[k].covers(p));
    if k0 != k {
        if k0 < k {
            assert(s[k0].end() <= s[k].start());
        } else {
            assert(s[k].end() <= s[k0].start());
        }
    }
}

/// Outside the written span, a write keeps the old bytes.
pub proof fn lemma_overlay_old(s: Seq<Chunk>, offset: int, data: Seq<u8>, k: int, p: int)
    requires
        chunks_wf(s),
        0 <= k < s.len(),
        s[k].covers(p),
        !(offset <= p < offset + data.len()),
    ensures
        overlay(s, offset, data).contains_key(p),
        overlay(s, offset, data)[p] == s[k].data@[p - s[k].offset],
{
    lemma_byte_at(s, k, p);
    assert(!span_map(offset, data).contains_key(p));
}

/// Inside the written span, a write gives the new bytes.
pub proof fn lemma_overlay_new(s: Seq<Chunk>, offset: int, data: Seq<u8>, p: int)
    requires
        offset <= p < offset + data.len(),
    ensures
        overlay(s, offset, data).contains_key(p),
        overlay(s, offset, data)[p] == data[p - offset],
{
    assert(span_map(offset, data).contains_key(p));
}

pub proof fn lemma_chunk_total_concat(a: Seq<Chunk>, b: Seq<Chunk>)
    ensures
        chunk_total(a + b) == chunk_total(a) + chunk_total(b),
    decreases b.len(),
{
    if b.len() == 0 {
        assert(a + b =~= a);
    } else {
        lemma_chunk_total_concat(a, b.drop_last());
        assert((a + b).drop_last() =~= a + b.drop_last());
    }
}

pub proof fn lemma_chunk_total_split(s: Seq<Chunk>, a: int, b: int)
    requires
        0 <= a <= b <= s.len(),
    ensures
        chunk_total(s) == chunk_total(s.subrange(0, a)) + chunk_total(s.subrange(a, b)) + chunk_total(
            s.subrange(b, s.len() as int),
        ),
{
    lemma_chunk_total_concat(s.subrange(0, a), s.subrange(a, b));
    lemma_chunk_total_concat(s.subrange(0, a) + s.subrange(a, b), s.subrange(b, s.len() as int));
    assert(s =~= s.subrange(0, a) + s.subrange(a, b) + s.subrange(b, s.len() as int));
}

/// Appends `src[from..to]` to `buf`.
pub(crate) fn extend_range(buf: &mut Vec<u8>, src: &Vec<u8>, from: usize, to: usize)
    requires
        from <= to <= src@.len(),
    ensures
        final(buf)@ == old(buf)@ + src@.subrange(from as int, to as int),
{
    let mut i = from;
    while i < to
        invariant
            from <= i <= to <= src@.len(),
            buf@ == old(buf)@ + src@.subrange(from as int, i as int),
        decreases to - i,
    {
        buf.push(src[i]);
        assert(src@.subrange(from as int, i + 1) =~= src@.subrange(from as int, i as int).push(src@[i as int]));
        i = i + 1;
    }
}

/// The bytes `buf`, read as starting at `ms`, agree with the map `ov`.
pub open spec fn agrees(ov: Map<int, u8>, ms: int, buf: Seq<u8>) -> bool {
    forall|p: int| ms <= p < ms + buf.len() ==> #[trigger] ov.contains_key(p) && ov[p] == buf[p - ms]
}

pub proof fn lemma_agrees_at(ov: Map<int, u8>, ms: int, buf: Seq<u8>, p: int)
    requires
        agrees(ov, ms, buf),
        ms <= p < ms + buf.len(),
    ensures
        ov.contains_key(p),
        ov[p] == buf[p - ms],
{
    assert(ov.contains_key(p));
}

proof fn lemma_extend_from_chunk(
    s: Seq<Chunk>,
    offset: int,
    data: Seq<u8>,
    ms: int,
    prev: Seq<u8>,
    k: int,
    from: int,
    to: int,
)
    requires
        chunks_wf(s),
        0 <= k < s.len(),
        0 <= from <= to <= s[k].data@.len(),
        agrees(overlay(s, offset, data), ms, prev),
        ms + prev.len() == s[k].start() + from,
        s[k].start() + to <= offset || s[k].start() + from >= offset + data.len(),
    ensures
        agrees(overlay(s, offset, data), ms, prev + s[k].data@.subrange(from, to)),
{
    let ov = overlay(s, offset, data);
    let nb = prev + s[k].data@.subrange(from, to);
    assert forall|p: int| ms <= p < ms + nb.len() implies #[trigger] ov.contains_key(p) && ov[p] == nb[p - ms] by {
        if p >= ms + prev.len() {
            lemma_overlay_old(s, offset, data, k, p);
            assert(nb[p - ms] == s[k].data@[p - s[k].offset]);
        } else {
            assert(nb[p - ms] == prev[p - ms]);
            lemma_agrees_at(ov, ms, prev, p);
        }
    }
}

proof fn lemma_extend_with_data(s: Seq<Chunk>, offset: int, data: Seq<u8>, ms: int, prev: Seq<u8>)
    requires
        agrees(overlay(s, offset, data), ms, prev),
        ms + prev.len() == offset,
    ensures
        agrees(overlay(s, offset, data), ms, prev + data),
{
    let ov = overlay(s, offset, data);
    let nb = prev + data;
    assert forall|p: int| ms <= p < ms + nb.len() implies #[trigger] ov.contains_key(p) && ov[p] == nb[p - ms] by {
        if p >= offset {
            lemma_overlay_new(s, offset, data, p);
            assert(nb[p - ms] == data[p - offset]);
        } else {
            assert(nb[p - ms] == prev[p - ms]);
            lemma_agrees_at(ov, ms, prev, p);
        }
    }
}

/// Index of the first chunk that starts at or after `offset`.
fn first_at_or_after(old: &Vec<Chunk>, offset: u64) -> (i: usize)
    requires
        chunks_wf(old@),
    ensures
        i <= old@.len(),
        forall|k: int| 0 <= k < i ==> #[trigger] old@[k].start() < offset,
        forall|k: int| i <= k < old@.len() ==> #[trigger] old@[k].start() >= offset,
{
    let n = old.len();
    let mut i: usize = 0;
    while i < n && old[i].offset < offset
        invariant
            0 <= i <= n == old@.len(),
            forall|k: int| 0 <= k < i ==> #[trigger] old@[k].offset < offset,
        decreases n - i,
    {
        i = i + 1;
    }
    assert forall|k: int| i <= k < old@.len() implies #[trigger] old@[k].start() >= offset by {
        if k > i {
            assert(old@[i as int].end() <= old@[k].start());
        }
    }
    i
}

proof fn lemma_merge_start(s: Seq<Chunk>, offset: int, i: int, left_merged: bool, ms: int)
    requires
        chunks_wf(s),
        0 <= i <= s.len(),
        forall|k: int| 0 <= k < i ==> #[trigger] s[k].start() < offset,
        forall|k: int| i <= k < s.len() ==> #[trigger] s[k].start() >= offset,
        left_merged <==> (i > 0 && s[i - 1].end() >= offset),
        ms == if left_merged { s[i - 1].start() } else { offset },
    ensures
        merge_start(s, offset) == ms,
{
    if left_merged {
        let k = i - 1;
        assert(s[k].start() < offset <= s[k].end());
        let k0 = choose|k: int| 0 <= k < s.len() && s[k].start() < offset <= #[trigger] s[k].end();
        if k0 != k {
            if k0 < k {
                assert(s[k0].end() <= s[k].start());
            } else {
                assert(s[k].end() <= s[k0].start());
            }
        }
    } else {
        assert forall|k: int| 0 <= k < s.len() implies !(s[k].start() < offset <= #[trigger] s[k].end()) by {
            if k < i - 1 {
                assert(s[k].end() <= s[i - 1].start());
            }
        }
    }
}

/// The chunk sequence that results from replacing `old[a..b]` by `m`.
proof fn lemma_merge_result(
    old: Seq<Chunk>,
    new: Seq<Chunk>,
    offset: int,
    data: Seq<u8>,
    a: int,
    b: int,
    m: Chunk,
)
    requires
        chunks_wf(old),
        0 <= a <= b <= old.len(),
        new == old.subrange(0, a) + seq![m] + old.subrange(b, old.len() as int),
        m.data@.len() > 0,
        m.end() <= u64::MAX,
        m.start() == merge_start(old, offset),
        m.start() <= offset,
        offset + data.len() <= m.end(),
        agrees(overlay(old, offset, data), m.start(), m.data@),
        forall|k: int| 0 <= k < a ==> #[trigger] old[k].end() <= m.start(),
        forall|k: int| b <= k < old.len() ==> #[trigger] old[k].start() > m.end(),
        forall|k: int| a <= k < b ==> m.start() <= #[trigger] old[k].start() && old[k].end() <= m.end(),
    ensures
        chunks_wf(new),
        bytes_map(new) == overlay(old, offset, data),
        merged_chunks(old, offset, data, new),
        chunk_total(new) + chunk_total(old.subrange(a, b)) == chunk_total(old) + m.data@.len(),
{
    let n = old.len() as int;
    let ov = overlay(old, offset, data);
    assert(new[a] == m);
    assert(old.subrange(0, a) == old.subrange(0, a));
    assert(old.subrange(b, n) == old.subrange(b, n));
    assert(merged_chunks(old, offset, data, new));
    assert forall|k: int| 0 <= k < new.len() implies #[trigger] new[k].data@.len() > 0 by {
        if k > a {
            assert(new[k] == old[k - a - 1 + b]);
        }
    }
    assert forall|k: int| 0 <= k < new.len() implies #[trigger] new[k].end() <= u64::MAX by {
        if k > a {
            assert(new[k] == old[k - a - 1 + b]);
        }
    }
    assert forall|x: int, y: int| 0 <= x < y < new.len() implies #[trigger] new[x].end() <= #[trigger] new[y].start() by {
        if y < a {
        } else if y == a {
        } else if x < a {
            assert(new[y] == old[y - a - 1 + b]);
        } else if x == a {
            assert(new[y] == old[y - a - 1 + b]);
        } else {
            assert(new[y] == old[y - a - 1 + b]);
            assert(new[x] == old[x - a - 1 + b]);
        }
    }
    assert(chunks_wf(new));
    assert forall|p: int| #[trigger] bytes_map(new).contains_key(p) == ov.contains_key(p) && (ov.contains_key(p)
        ==> bytes_map(new)[p] == ov[p]) by {
        if m.start() <= p < m.end() {
            lemma_byte_at(new, a, p);
        } else {
            assert(!(offset <= p < offset + data.len()));
            if covered(old, p) {
                let k = choose|k: int| 0 <= k < old.len() && #[trigger] old[k].covers(p);
                lemma_overlay_old(old, offset, data, k, p);
                if k < a {
                    assert(new[k] == old[k]);
                    lemma_byte_at(new, k, p);
                } else if k >= b {
                    assert(new[k - b + a + 1] == old[k]);
                    lemma_byte_at(new, k - b + a + 1, p);
                } else {
                    assert(false);
                }
            } else {
                assert(!span_map(offset, data).contains_key(p));
                if covered(new, p) {
                    let k = choose|k: int| 0 <= k < new.len() && #[trigger] new[k].covers(p);
                    if k < a {
                        assert(old[k].covers(p));
                    } else if k > a {
                        assert(old[k - a - 1 + b].covers(p));
                    }
                    assert(false);
                }
            }
        }
    }
    assert(bytes_map(new) =~= ov);
    lemma_chunk_total_split(old, a, b);
    lemma_chunk_total_concat(old.subrange(0, a), seq![m]);
    lemma_chunk_total_concat(old.subrange(0, a) + seq![m], old.subrange(b, n));
    assert(chunk_total(seq![m]) == m.data@.len()) by {
        assert(seq![m].drop_last() =~= Seq::<Chunk>::empty());
        reveal_with_fuel(chunk_total, 2);
    }
}

/// Merges `data`, written at `offset`, into the sorted chunks `old`. Returns the
/// new chunks, the number of bytes of the chunks that were replaced and the
/// length and start of the merged chunk.
pub fn merge_chunks(old: Vec<Chunk>, offset: u64, data: &Vec<u8>) -> (res: (Vec<Chunk>, usize, usize, u64))
    requires
        chunks_wf(old@),
        data@.len() > 0,
        offset + data@.len() <= u64::MAX,
        chunk_total(old@) + data@.len() <= usize::MAX,
    ensures
        chunks_wf(res.0@),
        bytes_map(res.0@) == overlay(old@, offset as int, data@),
        merged_chunks(old@, offset as int, data@, res.0@),
        res.1 <= chunk_total(old@),
        chunk_total(res.0@) + res.1 == chunk_total(old@) + res.2,
        chunk_total(res.0@) <= chunk_total(old@) + data@.len(),
        res.3 == merge_start(old@, offset as int),
{
    let ghost ov = overlay(old@, offset as int, data@);
    let n = old.len();
    let data_end: u64 = offset + data.len() as u64;
    let i = first_at_or_after(&old, offset);
    let mut left_merged: bool = false;
    if i > 0 {
        assert(old@[i - 1].end() <= u64::MAX);
        left_merged = old[i - 1].offset + old[i - 1].data.len() as u64 >= offset;
    }
    let a: usize = if left_merged { i - 1 } else { i };
    let ms: u64 = if left_merged { old[i - 1].offset } else { offset };
    proof {
        lemma_merge_start(old@, offset as int, i as int, left_merged, ms as int);
    }
    let mut buf: Vec<u8> = Vec::new();
    let mut removed: usize = 0;
    if left_merged {
        let lc = &old[i - 1];
        extend_range(&mut buf, &lc.data, 0, (offset - ms) as usize);
        removed = lc.data.len();
        proof {
            assert(Seq::<u8>::empty() + old@[i - 1].data@.subrange(0, offset - ms) == buf@);
            lemma_extend_from_chunk(old@, offset as int, data@, ms as int, Seq::empty(), i - 1, 0, offset - ms);
            assert(old@.subrange(a as int, i as int) =~= seq![old@[a as int]]);
            assert(seq![old@[a as int]].drop_last() =~= Seq::<Chunk>::empty());
            reveal_with_fuel(chunk_total, 2);
        }
    } else {
        assert(old@.subrange(a as int, i as int) =~= Seq::<Chunk>::empty());
        assert(agrees(ov, ms as int, buf@));
    }
    let ghost before_data = buf@;
    extend_range(&mut buf, data, 0, data.len());
    proof {
        assert(data@.subrange(0, data@.len() as int) =~= data@);
        lemma_extend_with_data(old@, offset as int, data@, ms as int, before_data);
    }
    let mut cur: u64 = data_end;
    if left_merged {
        let lc = &old[i - 1];
        assert(old@[i - 1].end() <= u64::MAX);
        let lend: u64 = lc.offset + lc.data.len() as u64;
        if lend > cur {
            let ghost prev = buf@;
            extend_range(&mut buf, &lc.data, (cur - ms) as usize, lc.data.len());
            proof {
                lemma_extend_from_chunk(
                    old@,
                    offset as int,
                    data@,
                    ms as int,
                    prev,
                    i - 1,
                    cur - ms,
                    old@[i - 1].data@.len() as int,
                );
            }
            cur = lend;
        }
    }
    let mut j: usize = i;
    proof {
        lemma_chunk_total_split(old@, a as int, i as int);
    }
    while j < n && old[j].offset <= cur
        invariant
            0 <= a <= i <= j <= n == old@.len(),
            chunks_wf(old@),
            ms <= offset,
            cur >= data_end,
            cur <= u64::MAX,
            data_end == offset + data@.len(),
            buf@.len() == cur - ms,
            buf@.len() <= data@.len() + removed,
            removed == chunk_total(old@.subrange(a as int, j as int)),
            chunk_total(old@) + data@.len() <= usize::MAX,
            chunk_total(old@) == chunk_total(old@.subrange(0, a as int)) + chunk_total(
                old@.subrange(a as int, j as int),
            ) + chunk_total(old@.subrange(j as int, n as int)),
            agrees(ov, ms as int, buf@),
            forall|k: int| a <= k < j ==> ms <= #[trigger] old@[k].start() && old@[k].end() <= cur,
            forall|k: int| i <= k < n ==> #[trigger] old@[k].start() >= offset,
            ov == overlay(old@, offset as int, data@),
        decreases n - j,
    {
        let c = &old[j];
        assert(old@[j as int].end() <= u64::MAX);
        let cend: u64 = c.offset + c.data.len() as u64;
        proof {
            lemma_chunk_total_split(old@, a as int, j + 1);
            assert(old@.subrange(a as int, j + 1).drop_last() =~= old@.subrange(a as int, j as int));
        }
        if cend > cur {
            let ghost prev = buf@;
            extend_range(&mut buf, &c.data, (cur - c.offset) as usize, c.data.len());
            proof {
                lemma_extend_from_chunk(
                    old@,
                    offset as int,
                    data@,
                    ms as int,
                    prev,
                    j as int,
                    cur - c.offset,
                    old@[j as int].data@.len() as int,
                );
            }
            cur = cend;
        }
        removed = removed + c.data.len();
        j = j + 1;
    }
    let merged_len = buf.len();
    let merged = Chunk { offset: ms, data: buf };
    let ghost old_seq = old@;
    let ghost m = merged;
    assert(m.end() == cur);
    proof {
        assert forall|k: int| 0 <= k < a implies #[trigger] old_seq[k].end() <= m.start() by {
            if left_merged {
                assert(old_seq[k].end() <= old_seq[a as int].start());
            } else if k < i - 1 {
                assert(old_seq[k].end() <= old_seq[i - 1].start());
            }
        }
        assert forall|k: int| j <= k < n implies #[trigger] old_seq[k].start() > m.end() by {
            if k > j {
                assert(old_seq[j as int].end() <= old_seq[k].start());
            }
        }
        assert forall|k: int| a <= k < j implies m.start() <= #[trigger] old_seq[k].start() && old_seq[k].end()
            <= m.end() by {
            assert(ms <= old_seq[k].start() && old_seq[k].end() <= cur);
        }
    }
    let mut old = old;
    let mut suffix = old.split_off(j);
    old.truncate(a);
    old.push(merged);
    old.append(&mut suffix);
    proof {
        assert(old@ =~= old_seq.subrange(0, a as int) + seq![m] + old_seq.subrange(j as int, n as int));
        lemma_merge_result(old_seq, old@, offset as int, data@, a as int, j as int, m);
    }
    (old, removed, merged_len, ms)
}

} // verus!
