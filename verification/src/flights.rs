//! Coalesced part fetches: while a part is being fetched, a second request
//! for it waits on the first fetch instead of starting another.
use vstd::prelude::*;

verus! {

/// A part request: file id, part number, byte offset and length.
pub type PartKey = (i64, u32, u64, u64);

/// The flights under way: for each requested part, what the callers who
/// join it wait on.
pub struct FlightTable<W> {
    flights: Vec<(PartKey, W)>,
}

/// The flights of `s` as a map from part to waiter.
pub open spec fn flight_map<W>(s: Seq<(PartKey, W)>) -> Map<PartKey, W> {
    Map::new(
        |k: PartKey| exists|i: int| 0 <= i < s.len() && #[trigger] s[i].0 == k,
        |k: PartKey| s[choose|i: int| 0 <= i < s.len() && #[trigger] s[i].0 == k].1,
    )
}

/// No part has two flights.
pub open spec fn distinct_parts<W>(s: Seq<(PartKey, W)>) -> bool {
    forall|i: int, j: int| 0 <= i < j < s.len() ==> s[i].0 != s[j].0
}

proof fn lemma_flight_at<W>(s: Seq<(PartKey, W)>, i: int)
    requires
        distinct_parts(s),
        0 <= i < s.len(),
    ensures
        flight_map(s).contains_key(s[i].0),
        flight_map(s)[s[i].0] == s[i].1,
{
    let k = s[i].0;
    assert(s[i].0 == k);
    let j = choose|j: int| 0 <= j < s.len() && #[trigger] s[j].0 == k;
    if j != i {
        if j < i {
            assert(s[j].0 != s[i].0);
        } else {
            assert(s[i].0 != s[j].0);
        }
    }
}

proof fn lemma_flight_push<W>(s: Seq<(PartKey, W)>, k: PartKey, w: W)
    requires
        distinct_parts(s),
        !flight_map(s).contains_key(k),
    ensures
        distinct_parts(s.push((k, w))),
        flight_map(s.push((k, w))) == flight_map(s).insert(k, w),
{
    let t = s.push((k, w));
    assert forall|i: int| 0 <= i < s.len() implies s[i].0 != k by {
        if s[i].0 == k {
            assert(flight_map(s).contains_key(k));
        }
    }
    assert(distinct_parts(t)) by {
        assert forall|i: int, j: int| 0 <= i < j < t.len() implies t[i].0 != t[j].0 by {
            if j == s.len() {
                assert(t[i] == s[i]);
            } else {
                assert(t[i] == s[i] && t[j] == s[j]);
            }
        }
    }
    let a = flight_map(t);
    let b = flight_map(s).insert(k, w);
    assert forall|q: PartKey| a.contains_key(q) <==> b.contains_key(q) by {
        if a.contains_key(q) {
            let i = choose|i: int| 0 <= i < t.len() && #[trigger] t[i].0 == q;
            if i < s.len() {
                assert(s[i].0 == q);
            }
        }
        if b.contains_key(q) && q != k {
            let i = choose|i: int| 0 <= i < s.len() && #[trigger] s[i].0 == q;
            assert(t[i].0 == q);
        }
        if q == k {
            assert(t[s.len() as int].0 == q);
        }
    }
    assert forall|q: PartKey| a.contains_key(q) implies a[q] == b[q] by {
        let i = choose|i: int| 0 <= i < t.len() && #[trigger] t[i].0 == q;
        lemma_flight_at(t, i);
        if i < s.len() {
            assert(t[i] == s[i]);
            lemma_flight_at(s, i);
        }
    }
    assert(a =~= b);
}

proof fn lemma_flight_remove<W>(s: Seq<(PartKey, W)>, i: int)
    requires
        distinct_parts(s),
        0 <= i < s.len(),
    ensures
        distinct_parts(s.remove(i)),
        flight_map(s.remove(i)) == flight_map(s).remove(s[i].0),
{
    let k = s[i].0;
    let t = s.remove(i);
    assert(distinct_parts(t)) by {
        assert forall|a: int, b: int| 0 <= a < b < t.len() implies t[a].0 != t[b].0 by {
            let sa = if a < i { a } else { a + 1 };
            let sb = if b < i { b } else { b + 1 };
            assert(t[a] == s[sa] && t[b] == s[sb]);
        }
    }
    let m = flight_map(t);
    let n = flight_map(s).remove(k);
    assert forall|q: PartKey| m.contains_key(q) <==> n.contains_key(q) by {
        if m.contains_key(q) {
            let a = choose|a: int| 0 <= a < t.len() && #[trigger] t[a].0 == q;
            let sa = if a < i { a } else { a + 1 };
            assert(t[a] == s[sa]);
            assert(s[sa].0 == q);
            if sa < i {
                assert(s[sa].0 != s[i].0);
            } else {
                assert(s[i].0 != s[sa].0);
            }
        }
        if n.contains_key(q) {
            let b = choose|b: int| 0 <= b < s.len() && #[trigger] s[b].0 == q;
            assert(b != i);
            let tb = if b < i { b } else { b - 1 };
            assert(t[tb] == s[b]);
            assert(t[tb].0 == q);
        }
    }
    assert forall|q: PartKey| m.contains_key(q) implies m[q] == n[q] by {
        let a = choose|a: int| 0 <= a < t.len() && #[trigger] t[a].0 == q;
        let sa = if a < i { a } else { a + 1 };
        assert(t[a] == s[sa]);
        lemma_flight_at(t, a);
        lemma_flight_at(s, sa);
    }
    assert(m =~= n);
}

fn same_part(a: PartKey, b: PartKey) -> (r: bool)
    ensures
        r <==> a == b,
{
    a.0 == b.0 && a.1 == b.1 && a.2 == b.2 && a.3 == b.3
}

impl<W> FlightTable<W> {
    #[verifier::type_invariant]
    spec fn one_flight_per_part(self) -> bool {
        distinct_parts(self.flights@)
    }

    /// The flights under way, by part.
    pub closed spec fn in_flight(self) -> Map<PartKey, W> {
        flight_map(self.flights@)
    }

    /// A table with no flight under way.
    pub fn new() -> (r: FlightTable<W>)
        ensures
            r.in_flight() == Map::<PartKey, W>::empty(),
    {
        let r = FlightTable { flights: Vec::new() };
        assert(r.in_flight() =~= Map::<PartKey, W>::empty());
        r
    }

    fn position(&self, key: PartKey) -> (r: Option<usize>)
        ensures
            match r {
                Some(i) => i < self.flights@.len() && self.flights@[i as int].0 == key,
                None => !self.in_flight().contains_key(key),
            },
    {
        let mut i: usize = 0;
        while i < self.flights.len()
            invariant
                0 <= i <= self.flights@.len(),
                forall|j: int| 0 <= j < i ==> self.flights@[j].0 != key,
            decreases self.flights@.len() - i,
        {
            if same_part(self.flights[i].0, key) {
                return Some(i);
            }
            i = i + 1;
        }
        None
    }

    /// What to wait on to join the flight under way for `key`, if there is one.
    pub fn joined(&self, key: PartKey) -> (r: Option<&W>)
        ensures
            match r {
                Some(w) => self.in_flight().contains_key(key) && *w == self.in_flight()[key],
                None => !self.in_flight().contains_key(key),
            },
    {
        proof {
            use_type_invariant(self);
        }
        match self.position(key) {
            Some(i) => {
                proof {
                    lemma_flight_at(self.flights@, i as int);
                }
                Some(&self.flights[i].1)
            },
            None => None,
        }
    }

    /// Starts a flight for `key` that joiners wait on through `waiter`,
    /// when none is under way; returns whether it started one. A flight
    /// already under way is left as it is.
    pub fn lead(&mut self, key: PartKey, waiter: W) -> (r: bool)
        ensures
            r <==> !old(self).in_flight().contains_key(key),
            final(self).in_flight() == if r {
                old(self).in_flight().insert(key, waiter)
            } else {
                old(self).in_flight()
            },
    {
        proof {
            use_type_invariant(&*self);
        }
        match self.position(key) {
            Some(i) => {
                proof {
                    lemma_flight_at(self.flights@, i as int);
                }
                false
            },
            None => {
                let mut v: Vec<(PartKey, W)> = Vec::new();
                std::mem::swap(&mut v, &mut self.flights);
                proof {
                    lemma_flight_push(v@, key, waiter);
                }
                v.push((key, waiter));
                self.flights = v;
                true
            },
        }
    }

    /// Ends the flight for `key`: a later request for it starts a new one.
    pub fn land(&mut self, key: PartKey)
        ensures
            final(self).in_flight() == old(self).in_flight().remove(key),
    {
        proof {
            use_type_invariant(&*self);
        }
        match self.position(key) {
            Some(i) => {
                let mut v: Vec<(PartKey, W)> = Vec::new();
                std::mem::swap(&mut v, &mut self.flights);
                proof {
                    lemma_flight_remove(v@, i as int);
                }
                let _ = v.remove(i);
                self.flights = v;
            },
            None => {
                assert(old(self).in_flight().remove(key) =~= old(self).in_flight());
            },
        }
    }
}

/// One fetch per part at a time: when `lead` starts a flight for `key` in
/// the table `t`, a second `lead` for `key` finds it under way and joins it
/// (it starts none), and when that flight lands the table is `t` again.
pub proof fn lemma_lead_then_land<W>(t: Map<PartKey, W>, key: PartKey, w: W)
    requires
        !t.contains_key(key),
    ensures
        t.insert(key, w).contains_key(key),
        t.insert(key, w).remove(key) == t,
{
    assert(t.insert(key, w).remove(key) =~= t);
}

} // verus!
