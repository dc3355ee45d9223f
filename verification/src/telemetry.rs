//! Telemetry of segment fetches, and the parallelism it recommends per
//! storage provider.
use vstd::prelude::*;
use crate::text::str_eq;

verus! {

/// One fetched segment.
#[derive(Clone, Debug, Eq, PartialEq)]
pub struct SegmentFetchSample {
    pub provider: String,
    pub bytes: u64,
    pub ttfb_ms: u64,
    pub total_ms: u64,
    pub retries: u32,
    pub ok: bool,
}

/// The most recent samples, newest first, at most `limit` of them.
pub struct SegmentTelemetry {
    limit: usize,
    samples: Vec<SegmentFetchSample>,
}

/// The samples of `s` from `provider`, in order.
pub open spec fn by_provider(s: Seq<SegmentFetchSample>, provider: Seq<char>) -> Seq<SegmentFetchSample>
    decreases s.len(),
{
    if s.len() == 0 {
        s
    } else {
        let r = by_provider(s.drop_last(), provider);
        if s.last().provider@ == provider {
            r.push(s.last())
        } else {
            r
        }
    }
}

/// The (at most eight) newest samples of `provider`.
pub open spec fn recent_of(s: Seq<SegmentFetchSample>, provider: Seq<char>) -> Seq<SegmentFetchSample> {
    let all = by_provider(s, provider);
    if all.len() > 8 {
        all.take(8)
    } else {
        all
    }
}

pub open spec fn failures(s: Seq<SegmentFetchSample>) -> int
    decreases s.len(),
{
    if s.len() == 0 {
        0
    } else {
        failures(s.drop_last()) + if s.last().ok { 0int } else { 1int }
    }
}

pub open spec fn retries_sum(s: Seq<SegmentFetchSample>) -> int
    decreases s.len(),
{
    if s.len() == 0 {
        0
    } else {
        retries_sum(s.drop_last()) + s.last().retries
    }
}

pub open spec fn ttfb_sum(s: Seq<SegmentFetchSample>) -> int
    decreases s.len(),
{
    if s.len() == 0 {
        0
    } else {
        ttfb_sum(s.drop_last()) + s.last().ttfb_ms
    }
}

/// The parallelism to use for `provider` given the newest samples: as
/// requested (at least one) without four samples; one when two fetches
/// failed, retries reached one per sample, or the average time to first byte
/// exceeds 1.5 s; at most two after any failure or retry, or above 800 ms.
pub open spec fn recommended(samples: Seq<SegmentFetchSample>, provider: Seq<char>, requested: int) -> int {
    let req = if requested >= 1 { requested } else { 1 };
    let recent = recent_of(samples, provider);
    if recent.len() < 4 {
        req
    } else {
        let f = failures(recent);
        let r = retries_sum(recent);
        let avg = ttfb_sum(recent) / (recent.len() as int);
        if f >= 2 || r >= recent.len() || avg > 1500 {
            1
        } else if f >= 1 || r > 0 || avg > 800 {
            if req <= 2 { req } else { 2 }
        } else {
            req
        }
    }
}

proof fn lemma_by_provider_prefix(s: Seq<SegmentFetchSample>, p: Seq<char>, i: int, j: int)
    requires
        0 <= i <= j <= s.len(),
    ensures
        by_provider(s.take(i), p).len() <= by_provider(s.take(j), p).len(),
        by_provider(s.take(i), p) == by_provider(s.take(j), p).take(by_provider(s.take(i), p).len() as int),
    decreases j - i,
{
    if i < j {
        lemma_by_provider_prefix(s, p, i, j - 1);
        assert(s.take(j).drop_last() =~= s.take(j - 1));
        let a = by_provider(s.take(j - 1), p);
        let b = by_provider(s.take(j), p);
        let c = by_provider(s.take(i), p);
        if s.take(j).last().provider@ == p {
            assert(b == a.push(s.take(j).last()));
            assert(a.push(s.take(j).last()).take(c.len() as int) =~= a.take(c.len() as int));
        }
    } else {
        assert(by_provider(s.take(i), p).take(by_provider(s.take(i), p).len() as int) =~= by_provider(s.take(i), p));
    }
}

impl SegmentTelemetry {
    pub closed spec fn limit(&self) -> int {
        self.limit as int
    }

    /// The samples held, newest first.
    pub closed spec fn samples(&self) -> Seq<SegmentFetchSample> {
        self.samples@
    }

    /// Keeps the newest `limit` samples (at least one).
    pub fn new(limit: usize) -> (r: Self)
        ensures
            r.limit() == if limit >= 1 { limit as int } else { 1 },
            r.samples() == Seq::<SegmentFetchSample>::empty(),
    {
        SegmentTelemetry { limit: if limit >= 1 { limit } else { 1 }, samples: Vec::new() }
    }

    /// Records `sample` as the newest, dropping the oldest beyond the limit.
    pub fn record(&mut self, sample: SegmentFetchSample)
        ensures
            final(self).limit() == old(self).limit(),
            final(self).samples() == (seq![sample] + old(self).samples()).take(
                if old(self).samples().len() + 1 <= old(self).limit() {
                    old(self).samples().len() + 1int
                } else {
                    old(self).limit()
                },
            ),
    {
        let ghost pre = self.samples@;
        self.samples.insert(0, sample);
        assert(self.samples@ =~= seq![sample] + pre);
        if self.samples.len() > self.limit {
            self.samples.truncate(self.limit);
        }
        assert(self.samples@ =~= (seq![sample] + pre).take(
            if pre.len() + 1 <= self.limit { pre.len() + 1int } else { self.limit as int },
        ));
    }

    /// The number of fetches to run at once for `provider`, from its newest
    /// samples; see [`recommended`].
    pub fn recommended_parallelism(&self, provider: &str, requested: usize) -> (r: usize)
        requires
            recent_of(self.samples(), provider@).len() >= 4 ==> retries_sum(recent_of(self.samples(), provider@))
                <= u32::MAX,
            recent_of(self.samples(), provider@).len() >= 4 ==> ttfb_sum(recent_of(self.samples(), provider@))
                <= u64::MAX,
        ensures
            r == recommended(self.samples(), provider@, requested as int),
    {
        let req: usize = if requested >= 1 { requested } else { 1 };
        let ghost s = self.samples@;
        let ghost p = provider@;
        let n = self.samples.len();
        let mut count: usize = 0;
        let mut fails: usize = 0;
        let mut retries: u64 = 0;
        let mut ttfb: u128 = 0;
        let mut i: usize = 0;
        while i < n && count < 8
            invariant
                0 <= i <= n == s.len(),
                s == self.samples@,
                p == provider@,
                count == by_provider(s.take(i as int), p).len(),
                count <= 8,
                fails == failures(by_provider(s.take(i as int), p)),
                retries == retries_sum(by_provider(s.take(i as int), p)),
                ttfb == ttfb_sum(by_provider(s.take(i as int), p)),
                fails <= count,
                retries <= count * 4294967295,
                ttfb <= count * 18446744073709551615,
            decreases n - i,
        {
            let smp = &self.samples[i];
            proof {
                assert(s.take(i + 1).drop_last() =~= s.take(i as int));
                assert(s.take(i + 1).last() == s[i as int]);
            }
            if str_eq(smp.provider.as_str(), provider) {
                proof {
                    let a = by_provider(s.take(i as int), p);
                    let b = by_provider(s.take(i + 1), p);
                    assert(b == a.push(s[i as int]));
                    assert(b.drop_last() =~= a);
                    assert(b.last() == s[i as int]);
                }
                count = count + 1;
                if !smp.ok {
                    fails = fails + 1;
                }
                retries = retries + smp.retries as u64;
                ttfb = ttfb + smp.ttfb_ms as u128;
            }
            i = i + 1;
        }
        let ghost recent = by_provider(s.take(i as int), p);
        proof {
            lemma_by_provider_prefix(s, p, i as int, n as int);
            assert(s.take(n as int) =~= s);
            if i < n {
                assert(recent.len() == 8);
            }
            assert(recent == recent_of(s, p));
        }
        if count < 4 {
            return req;
        }
        let avg: u128 = ttfb / (count as u128);
        if fails >= 2 || retries >= count as u64 || avg > 1500 {
            1
        } else if fails >= 1 || retries > 0 || avg > 800 {
            if req <= 2 {
                req
            } else {
                2
            }
        } else {
            req
        }
    }
}

impl Default for SegmentTelemetry {
    fn default() -> (r: Self)
        ensures
            r.limit() == 256,
            r.samples() == Seq::<SegmentFetchSample>::empty(),
    {
        Self::new(256)
    }
}

/// The recommended parallelism is at least one and never more than what
/// was requested (counting a request of zero as one).
pub proof fn lemma_recommended_bounds(samples: Seq<SegmentFetchSample>, provider: Seq<char>, requested: int)
    ensures
        1 <= recommended(samples, provider, requested),
        recommended(samples, provider, requested) <= (if requested >= 1 {
            requested
        } else {
            1
        }),
{
}

/// Recording never holds more samples than the limit, and the sample just
/// recorded comes first, followed by the earlier ones in order.
pub proof fn lemma_record_bounded(held: Seq<SegmentFetchSample>, limit: int, sample: SegmentFetchSample)
    requires
        limit >= 1,
        held.len() <= limit,
    ensures
        ({
            let after = (seq![sample] + held).take(
                if held.len() + 1 <= limit {
                    held.len() + 1int
                } else {
                    limit
                },
            );
            &&& after.len() <= limit
            &&& after[0] == sample
            &&& forall|i: int| 1 <= i < after.len() ==> after[i] == held[i - 1]
        }),
{
}

/// The samples of a history (oldest first), newest first.
pub open spec fn newest_first(h: Seq<SegmentFetchSample>) -> Seq<SegmentFetchSample>
    decreases h.len(),
{
    if h.len() == 0 {
        seq![]
    } else {
        seq![h.last()] + newest_first(h.drop_last())
    }
}

/// What the telemetry holds after the samples of `h` were recorded in order
/// from empty: the newest `limit` of them, newest first.
pub open spec fn kept_history(h: Seq<SegmentFetchSample>, limit: int) -> Seq<SegmentFetchSample> {
    newest_first(h).take(if h.len() <= limit { h.len() as int } else { limit })
}

proof fn lemma_newest_first_len(h: Seq<SegmentFetchSample>)
    ensures
        newest_first(h).len() == h.len(),
    decreases h.len(),
{
    if h.len() > 0 {
        lemma_newest_first_len(h.drop_last());
    }
}

/// Recording keeps the newest samples of the whole history: if the
/// telemetry held `kept_history(h, limit)`, then after recording `sample` it
/// holds `kept_history(h.push(sample), limit)`. From `new`, which holds the
/// kept history of no samples, every sequence of records thus leaves the
/// newest `limit` samples, newest first.
pub proof fn lemma_record_history(h: Seq<SegmentFetchSample>, limit: int, sample: SegmentFetchSample)
    requires
        limit >= 1,
    ensures
        ({
            let prev = kept_history(h, limit);
            (seq![sample] + prev).take(
                if prev.len() + 1 <= limit {
                    prev.len() + 1int
                } else {
                    limit
                },
            ) == kept_history(h.push(sample), limit)
        }),
        kept_history(Seq::<SegmentFetchSample>::empty(), limit) == Seq::<SegmentFetchSample>::empty(),
{
    let h2 = h.push(sample);
    assert(h2.drop_last() =~= h);
    assert(newest_first(h2) == seq![sample] + newest_first(h));
    lemma_newest_first_len(h);
    let prev = kept_history(h, limit);
    let lhs = (seq![sample] + prev).take(if prev.len() + 1 <= limit { prev.len() + 1int } else { limit });
    let rhs = kept_history(h2, limit);
    assert(lhs =~= rhs);
    assert(kept_history(Seq::<SegmentFetchSample>::empty(), limit) =~= Seq::<SegmentFetchSample>::empty());
}

} // verus!
