//! The cache of destinations (Discord servers, Telegram groups) that the
//! current credentials reach. Onboarding reads it at once; a fetch in the
//! background refreshes it, at most one at a time and at most every 30 s
//! unless forced, and a fetch whose credentials changed meanwhile is dropped.
use vstd::prelude::*;
use crate::text::opt_view;

verus! {

/// How long fetched destinations stay fresh, in milliseconds.
pub const DESTINATION_FETCH_MIN_INTERVAL_MS: u64 = 30000;

/// What the cache holds.
pub struct DestinationCache<D> {
    pub discord_token: String,
    pub telegram_cache_key: String,
    pub discord_guilds: Vec<D>,
    pub telegram_groups: Vec<D>,
    pub discord_error: Option<String>,
    pub telegram_error: Option<String>,
    pub telegram_authorized: bool,
    /// When the last fetch finished (monotonic milliseconds).
    pub fetched_at_ms: Option<u64>,
    pub is_fetching: bool,
}

/// What one background fetch found.
pub struct FetchOutcome<D> {
    pub discord_guilds: Vec<D>,
    pub discord_error: Option<String>,
    pub telegram_groups: Vec<D>,
    pub telegram_error: Option<String>,
    pub telegram_authorized: bool,
}


impl<D> DestinationCache<D> {
    /// Was the cache filled for these credentials?
    pub open spec fn keyed_by(&self, token: Seq<char>, key: Seq<char>) -> bool {
        self.discord_token@ == token && self.telegram_cache_key@ == key
    }

    /// Nothing fetched is held: no destinations, no errors, never fetched.
    pub open spec fn is_cleared(&self) -> bool {
        &&& self.discord_guilds@.len() == 0
        &&& self.telegram_groups@.len() == 0
        &&& self.discord_error is None
        &&& self.telegram_error is None
        &&& !self.telegram_authorized
        &&& self.fetched_at_ms is None
    }

    /// The fetched contents of `a` and `b` are the same.
    pub open spec fn same_contents(a: &Self, b: &Self) -> bool {
        &&& a.discord_guilds@ == b.discord_guilds@
        &&& a.telegram_groups@ == b.telegram_groups@
        &&& opt_view(a.discord_error) == opt_view(b.discord_error)
        &&& opt_view(a.telegram_error) == opt_view(b.telegram_error)
        &&& a.telegram_authorized == b.telegram_authorized
        &&& a.fetched_at_ms == b.fetched_at_ms
    }

    /// Is a fetch due at `now_ms`: never fetched, forced, or stale?
    pub open spec fn is_stale(fetched_at_ms: Option<u64>, now_ms: u64, force: bool) -> bool {
        match fetched_at_ms {
            None => true,
            Some(t) => force || now_ms - t > DESTINATION_FETCH_MIN_INTERVAL_MS,
        }
    }

    /// What `begin_fetch(token, key, now, force)` did, turning `old` into
    /// `new` and returning `r`.
    pub open spec fn begin_effect(old: Self, new: Self, token: Seq<char>, key: Seq<char>, now: u64, force: bool, r: bool) -> bool {
        &&& new.keyed_by(token, key)
        &&& old.keyed_by(token, key) ==> Self::same_contents(&new, &old)
        &&& !old.keyed_by(token, key) ==> new.is_cleared()
        &&& r == (!old.is_fetching && Self::is_stale(new.fetched_at_ms, now, force))
        &&& new.is_fetching == (old.is_fetching || r)
    }

    /// An empty cache.
    pub fn new() -> (r: Self)
        ensures
            r.is_cleared(),
            !r.is_fetching,
            r.discord_token@ == Seq::<char>::empty(),
            r.telegram_cache_key@ == Seq::<char>::empty(),
    {
        DestinationCache {
            discord_token: String::new(),
            telegram_cache_key: String::new(),
            discord_guilds: Vec::new(),
            telegram_groups: Vec::new(),
            discord_error: None,
            telegram_error: None,
            telegram_authorized: false,
            fetched_at_ms: None,
            is_fetching: false,
        }
    }

    fn clear_contents(&mut self)
        ensures
            final(self).is_cleared(),
            final(self).is_fetching == old(self).is_fetching,
            final(self).discord_token@ == old(self).discord_token@,
            final(self).telegram_cache_key@ == old(self).telegram_cache_key@,
    {
        self.discord_guilds = Vec::new();
        self.telegram_groups = Vec::new();
        self.discord_error = None;
        self.telegram_error = None;
        self.telegram_authorized = false;
        self.fetched_at_ms = None;
    }

    /// Called before reading the cache with the current credentials. When
    /// they differ from those the cache was filled for, the cache is cleared
    /// and keyed by them. Returns whether a background fetch must start now:
    /// none is running and the contents are missing, forced or older than
    /// 30 s; it is then marked as running.
    pub fn begin_fetch(&mut self, discord_token: String, telegram_key: String, now_ms: u64, force_refresh: bool) -> (r:
        bool)
        ensures
            final(self).keyed_by(discord_token@, telegram_key@),
            old(self).keyed_by(discord_token@, telegram_key@) ==> Self::same_contents(&*final(self), &*old(self)),
            !old(self).keyed_by(discord_token@, telegram_key@) ==> final(self).is_cleared(),
            r == (!old(self).is_fetching && Self::is_stale(final(self).fetched_at_ms, now_ms, force_refresh)),
            final(self).is_fetching == (old(self).is_fetching || r),
            Self::begin_effect(*old(self), *final(self), discord_token@, telegram_key@, now_ms, force_refresh, r),
    {
        if self.discord_token != discord_token || self.telegram_cache_key != telegram_key {
            self.clear_contents();
            self.discord_token = discord_token;
            self.telegram_cache_key = telegram_key;
        }
        if self.is_fetching {
            return false;
        }
        let stale = match self.fetched_at_ms {
            None => true,
            Some(t) => force_refresh || (now_ms >= t && now_ms - t > DESTINATION_FETCH_MIN_INTERVAL_MS),
        };
        if !stale {
            return false;
        }
        self.is_fetching = true;
        true
    }

    /// Called when a background fetch for `discord_token` and `telegram_key`
    /// ends at `now_ms`: its outcome is stored only if the cache is still
    /// keyed by those credentials; the fetch is over either way.
    pub fn finish_fetch(&mut self, discord_token: &String, telegram_key: &String, outcome: FetchOutcome<D>, now_ms: u64)
        ensures
            !final(self).is_fetching,
            final(self).discord_token@ == old(self).discord_token@,
            final(self).telegram_cache_key@ == old(self).telegram_cache_key@,
            old(self).keyed_by(discord_token@, telegram_key@) ==> {
                &&& final(self).discord_guilds@ == outcome.discord_guilds@
                &&& final(self).telegram_groups@ == outcome.telegram_groups@
                &&& opt_view(final(self).discord_error) == opt_view(outcome.discord_error)
                &&& opt_view(final(self).telegram_error) == opt_view(outcome.telegram_error)
                &&& final(self).telegram_authorized == outcome.telegram_authorized
                &&& final(self).fetched_at_ms == Some(now_ms)
            },
            !old(self).keyed_by(discord_token@, telegram_key@) ==> Self::same_contents(&*final(self), &*old(self)),
    {
        if self.discord_token == *discord_token && self.telegram_cache_key == *telegram_key {
            self.discord_guilds = outcome.discord_guilds;
            self.telegram_groups = outcome.telegram_groups;
            self.discord_error = outcome.discord_error;
            self.telegram_error = outcome.telegram_error;
            self.telegram_authorized = outcome.telegram_authorized;
            self.fetched_at_ms = Some(now_ms);
        }
        self.is_fetching = false;
    }

    /// Forgets the Telegram groups (after a login or new credentials), so
    /// that the next read fetches again.
    pub fn invalidate_telegram(&mut self)
        ensures
            final(self).telegram_groups@.len() == 0,
            final(self).telegram_error is None,
            !final(self).telegram_authorized,
            final(self).telegram_cache_key@ == Seq::<char>::empty(),
            final(self).fetched_at_ms is None,
            final(self).discord_guilds@ == old(self).discord_guilds@,
            opt_view(final(self).discord_error) == opt_view(old(self).discord_error),
            final(self).discord_token@ == old(self).discord_token@,
            final(self).is_fetching == old(self).is_fetching,
    {
        self.telegram_groups = Vec::new();
        self.telegram_error = None;
        self.telegram_authorized = false;
        self.telegram_cache_key = String::new();
        self.fetched_at_ms = None;
    }

    /// Were destinations fetched since the credentials last changed?
    pub fn destinations_loaded(&self) -> (r: bool)
        ensures
            r == self.fetched_at_ms is Some,
    {
        self.fetched_at_ms.is_some()
    }
}

/// Collects what the two lookups returned: a lookup that was not made
/// (no Discord token, no Telegram credentials) leaves its part empty; a
/// failed one leaves its error; Telegram counts as authorized when listing
/// its groups worked.
pub fn fetch_outcome<D>(discord: Option<Result<Vec<D>, String>>, telegram: Option<Result<Vec<D>, String>>) -> (r:
    FetchOutcome<D>)
    ensures
        r.discord_guilds@ == (match discord {
            Some(Ok(v)) => v@,
            _ => Seq::<D>::empty(),
        }),
        opt_view(r.discord_error) == (match discord {
            Some(Err(e)) => Some(e@),
            _ => None,
        }),
        r.telegram_groups@ == (match telegram {
            Some(Ok(v)) => v@,
            _ => Seq::<D>::empty(),
        }),
        opt_view(r.telegram_error) == (match telegram {
            Some(Err(e)) => Some(e@),
            _ => None,
        }),
        r.telegram_authorized == telegram matches Some(Ok(_)),
{
    let (discord_guilds, discord_error) = match discord {
        Some(Ok(v)) => (v, None),
        Some(Err(e)) => (Vec::new(), Some(e)),
        None => (Vec::new(), None),
    };
    let (telegram_groups, telegram_error, telegram_authorized) = match telegram {
        Some(Ok(v)) => (v, None, true),
        Some(Err(e)) => (Vec::new(), Some(e), false),
        None => (Vec::new(), None, false),
    };
    FetchOutcome { discord_guilds, discord_error, telegram_groups, telegram_error, telegram_authorized }
}

/// One fetch at a time: over any run of `begin_fetch` calls with no
/// `finish_fetch` between them (`states[i]` to `states[i + 1]` by call `i`,
/// which returned `calls[i].4`), once one call has started a fetch, every
/// later call starts none and the fetch stays marked as running, whatever
/// credentials, time or forcing the later calls bring.
pub proof fn lemma_one_fetch_at_a_time<D>(
    states: Seq<DestinationCache<D>>,
    calls: Seq<(Seq<char>, Seq<char>, u64, bool, bool)>,
    first: int,
)
    requires
        states.len() == calls.len() + 1,
        0 <= first < calls.len(),
        calls[first].4,
        forall|i: int|
            0 <= i < calls.len() ==> #[trigger] DestinationCache::<D>::begin_effect(
                states[i],
                states[i + 1],
                calls[i].0,
                calls[i].1,
                calls[i].2,
                calls[i].3,
                calls[i].4,
            ),
    ensures
        forall|i: int| first < i < calls.len() ==> !(#[trigger] calls[i]).4,
        forall|i: int| first < i <= calls.len() ==> (#[trigger] states[i]).is_fetching,
    decreases calls.len() - first,
{
    assert forall|i: int| first < i <= calls.len() implies (#[trigger] states[i]).is_fetching by {
        lemma_fetching_stays(states, calls, first, i);
    }
    assert forall|i: int| first < i < calls.len() implies !(#[trigger] calls[i]).4 by {
        lemma_fetching_stays(states, calls, first, i);
        assert(DestinationCache::<D>::begin_effect(states[i], states[i + 1], calls[i].0, calls[i].1, calls[i].2, calls[i].3, calls[i].4));
    }
}

proof fn lemma_fetching_stays<D>(
    states: Seq<DestinationCache<D>>,
    calls: Seq<(Seq<char>, Seq<char>, u64, bool, bool)>,
    first: int,
    i: int,
)
    requires
        states.len() == calls.len() + 1,
        0 <= first < calls.len(),
        calls[first].4,
        first < i <= calls.len(),
        forall|j: int|
            0 <= j < calls.len() ==> #[trigger] DestinationCache::<D>::begin_effect(
                states[j],
                states[j + 1],
                calls[j].0,
                calls[j].1,
                calls[j].2,
                calls[j].3,
                calls[j].4,
            ),
    ensures
        states[i].is_fetching,
    decreases i,
{
    let j = i - 1;
    assert(DestinationCache::<D>::begin_effect(states[j], states[j + 1], calls[j].0, calls[j].1, calls[j].2, calls[j].3, calls[j].4));
    if j > first {
        lemma_fetching_stays(states, calls, first, j);
    }
}

} // verus!
