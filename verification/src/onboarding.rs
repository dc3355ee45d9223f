//! Onboarding: which tenants of each scope can be used with the destinations
//! the current credentials reach, which one is active, and whether the user
//! still has steps to take.
use vstd::prelude::*;
use crate::text::{
    decimal, decimal_string, eq_ignore_ascii_case, lemma_parse_signed_bounds, opt_view, parse_i32, parse_signed, str_eq,
    str_eq_ignore_ascii_case, string_views, trim, trim_string,
};

verus! {

/// The scope of the user's own tenants.
pub open spec fn scope_my() -> Seq<char> {
    "my"@
}

/// The scope of tenants shared with others.
pub open spec fn scope_shared() -> Seq<char> {
    "shared"@
}

/// A tenant: a scope and the Discord server and Telegram group it stores to,
/// with the name of its database file.
#[derive(Debug)]
pub struct TenantDescriptor {
    pub scope: String,
    pub discord_guild_id: Option<String>,
    pub telegram_group_id: Option<String>,
    pub db_file_name: String,
}

/// A tenant as the tenant picker shows it: its descriptor with the display
/// name the user gave it.
#[derive(Debug)]
pub struct TenantSummary {
    pub scope: String,
    pub discord_guild_id: Option<String>,
    pub telegram_group_id: Option<String>,
    pub display_name: Option<String>,
    pub db_file_name: String,
}

impl TenantSummary {
    /// The summary of `tenant` under `display_name`.
    pub fn from_descriptor(tenant: TenantDescriptor, display_name: Option<String>) -> (r: Self)
        ensures
            r.scope == tenant.scope,
            r.discord_guild_id == tenant.discord_guild_id,
            r.telegram_group_id == tenant.telegram_group_id,
            r.display_name == display_name,
            r.db_file_name == tenant.db_file_name,
    {
        TenantSummary {
            db_file_name: tenant.db_file_name,
            scope: tenant.scope,
            discord_guild_id: tenant.discord_guild_id,
            telegram_group_id: tenant.telegram_group_id,
            display_name,
        }
    }
}

/// The active tenant of each scope, where there is one, and the tenant in use.
#[derive(Debug)]
pub struct ActiveTenantsState {
    pub my: Option<TenantSummary>,
    pub shared: Option<TenantSummary>,
    pub current: TenantSummary,
}


/// What identifies a tenant: its scope and its two destinations.
pub open spec fn tenant_key(t: TenantDescriptor) -> (Seq<char>, Option<Seq<char>>, Option<Seq<char>>) {
    (t.scope@, opt_view(t.discord_guild_id), opt_view(t.telegram_group_id))
}

fn clone_opt(o: &Option<String>) -> (r: Option<String>)
    ensures
        r == *o,
{
    match o {
        Some(s) => Some(s.clone()),
        None => None,
    }
}

impl Clone for TenantDescriptor {
    fn clone(&self) -> (r: Self)
        ensures
            r == *self,
    {
        TenantDescriptor {
            scope: self.scope.clone(),
            discord_guild_id: clone_opt(&self.discord_guild_id),
            telegram_group_id: clone_opt(&self.telegram_group_id),
            db_file_name: self.db_file_name.clone(),
        }
    }
}

fn opt_eq(a: &Option<String>, b: &Option<String>) -> (r: bool)
    ensures
        r == (opt_view(*a) == opt_view(*b)),
{
    match a {
        Some(x) => match b {
            Some(y) => {
                let e = *x == *y;
                assert(e ==> opt_view(*a) == opt_view(*b));
                assert(!e ==> opt_view(*a)->0 != opt_view(*b)->0);
                e
            },
            None => false,
        },
        None => b.is_none(),
    }
}

/// Do `a` and `b` name the same tenant?
pub fn same_tenant(a: &TenantDescriptor, b: &TenantDescriptor) -> (r: bool)
    ensures
        r == (tenant_key(*a) == tenant_key(*b)),
{
    a.scope == b.scope && opt_eq(&a.discord_guild_id, &b.discord_guild_id) && opt_eq(
        &a.telegram_group_id,
        &b.telegram_group_id,
    )
}

/// The scope a request names: `shared` in any ASCII case, otherwise `my`.
pub open spec fn scope_label_spec(scope: Seq<char>) -> Seq<char> {
    if eq_ignore_ascii_case(scope, scope_shared()) {
        scope_shared()
    } else {
        scope_my()
    }
}

/// The scope `scope` stands for: `shared` (ignoring ASCII case) or `my`.
pub fn scope_label(scope: &str) -> (r: &'static str)
    ensures
        r@ == scope_label_spec(scope@),
{
    if str_eq_ignore_ascii_case(scope, "shared") {
        "shared"
    } else {
        "my"
    }
}

/// Why an onboarding request is refused.
#[derive(Debug, Clone, Copy, PartialEq, Eq, Structural)]
pub enum OnboardingError {
    InvalidScope,
    MissingDestinations,
    DiscordGuildUnreachable,
    TelegramGroupUnreachable,
    MissingTelegramCredentials,
    EmptyLoginCode,
    EmptyPassword,
}

/// The scope named by `scope`, checked. Every text names a scope (`my` when
/// it is not `shared`), so this never fails.
pub fn validate_scope(scope: &str) -> (r: Result<String, OnboardingError>)
    ensures
        r matches Ok(s) && s@ == scope_label_spec(scope@),
{
    let normalized = String::from_str(scope_label(scope));
    proof {
        reveal_strlit("my");
        reveal_strlit("shared");
    }
    if normalized.as_str().unicode_len() > 0 {
        Ok(normalized)
    } else {
        Err(OnboardingError::InvalidScope)
    }
}


/// A destination passes the check: unchecked, or present and (once the
/// reachable destinations are loaded) among them.
pub open spec fn destination_ok(id: Option<Seq<char>>, ids: Seq<Seq<char>>, check: bool, loaded: bool) -> bool {
    if !check {
        true
    } else {
        match id {
            None => false,
            Some(i) => !loaded || ids.contains(i),
        }
    }
}

/// A tenant is usable when both of its destinations pass.
pub open spec fn tenant_valid(
    t: TenantDescriptor,
    discord_ids: Seq<Seq<char>>,
    telegram_ids: Seq<Seq<char>>,
    check_discord: bool,
    check_telegram: bool,
    loaded: bool,
) -> bool {
    destination_ok(opt_view(t.discord_guild_id), discord_ids, check_discord, loaded) && destination_ok(
        opt_view(t.telegram_group_id),
        telegram_ids,
        check_telegram,
        loaded,
    )
}

/// Is `id` among `ids`?
pub fn contains_id(ids: &[String], id: &String) -> (r: bool)
    ensures
        r == string_views(ids@).contains(id@),
{
    let ghost v = string_views(ids@);
    let mut i: usize = 0;
    while i < ids.len()
        invariant
            0 <= i <= ids@.len(),
            v == string_views(ids@),
            forall|j: int| 0 <= j < i ==> v[j] != id@,
        decreases ids@.len() - i,
    {
        if ids[i] == *id {
            assert(v[i as int] == id@);
            return true;
        }
        i = i + 1;
    }
    assert forall|j: int| 0 <= j < v.len() implies v[j] != id@ by {}
    false
}

fn destination_passes(id: &Option<String>, ids: &[String], check: bool, loaded: bool) -> (r: bool)
    ensures
        r == destination_ok(opt_view(*id), string_views(ids@), check, loaded),
{
    if !check {
        return true;
    }
    match id {
        None => false,
        Some(i) => !loaded || contains_id(ids, i),
    }
}

/// Does `tenant` pass the destination checks that the current credentials
/// allow?
pub fn tenant_is_valid(
    tenant: &TenantDescriptor,
    discord_ids: &[String],
    telegram_ids: &[String],
    check_discord: bool,
    check_telegram: bool,
    destinations_loaded: bool,
) -> (r: bool)
    ensures
        r == tenant_valid(
            *tenant,
            string_views(discord_ids@),
            string_views(telegram_ids@),
            check_discord,
            check_telegram,
            destinations_loaded,
        ),
{
    destination_passes(&tenant.discord_guild_id, discord_ids, check_discord, destinations_loaded)
        && destination_passes(&tenant.telegram_group_id, telegram_ids, check_telegram, destinations_loaded)
}

/// The tenant remembered for a scope if it is still usable, else the first
/// usable one.
pub open spec fn active_choice(remembered: Option<TenantDescriptor>, valid: Seq<TenantDescriptor>) -> Option<
    TenantDescriptor,
> {
    if remembered is Some && exists|i: int|
        0 <= i < valid.len() && tenant_key(#[trigger] valid[i]) == tenant_key(remembered->0) {
        remembered
    } else if valid.len() > 0 {
        Some(valid[0])
    } else {
        None
    }
}

/// Chooses the active tenant of a scope: the one remembered for it (read
/// from the tenant registry) while it stays usable, else the first usable.
pub fn choose_scope_active(remembered: Option<TenantDescriptor>, valid_tenants: &[TenantDescriptor]) -> (r: Option<
    TenantDescriptor,
>)
    ensures
        r == active_choice(remembered, valid_tenants@),
{
    if let Some(rem) = remembered {
        let mut i: usize = 0;
        while i < valid_tenants.len()
            invariant
                0 <= i <= valid_tenants@.len(),
                remembered == Some(rem),
                forall|j: int| 0 <= j < i ==> tenant_key(#[trigger] valid_tenants@[j]) != tenant_key(rem),
            decreases valid_tenants@.len() - i,
        {
            if same_tenant(&valid_tenants[i], &rem) {
                assert(tenant_key(valid_tenants@[i as int]) == tenant_key(rem));
                return Some(rem);
            }
            i = i + 1;
        }
    }
    if valid_tenants.len() > 0 {
        Some(valid_tenants[0].clone())
    } else {
        None
    }
}

/// The destinations that the current credentials reach, as the tenant checks
/// read them.
pub struct ReachableSummary {
    pub discord_token_present: bool,
    pub telegram_authorized: bool,
    pub destinations_loaded: bool,
    pub discord_error: bool,
    pub telegram_error: bool,
    pub discord_ids: Vec<String>,
    pub telegram_ids: Vec<String>,
}

/// Discord servers are checked when a token is set and listing them worked.
pub open spec fn checks_discord(r: ReachableSummary) -> bool {
    r.discord_token_present && !r.discord_error
}

/// Is `t` usable with what `r` reaches?
pub open spec fn usable(t: TenantDescriptor, r: ReachableSummary) -> bool {
    tenant_valid(
        t,
        string_views(r.discord_ids@),
        string_views(r.telegram_ids@),
        checks_discord(r),
        r.telegram_authorized,
        r.destinations_loaded,
    )
}

/// Tenants of the `shared` scope (compared exactly); all others count as `my`.
pub open spec fn in_shared_scope(t: TenantDescriptor) -> bool {
    t.scope@ == scope_shared()
}

/// The tenants of one group: a scope (`shared` or not) and usability.
pub open spec fn group_of(s: Seq<TenantDescriptor>, r: ReachableSummary, shared: bool, valid: bool) -> Seq<
    TenantDescriptor,
> {
    s.filter(group_pred(r, shared, valid))
}

pub open spec fn group_pred(r: ReachableSummary, shared: bool, valid: bool) -> spec_fn(TenantDescriptor) -> bool {
    |t: TenantDescriptor| in_shared_scope(t) == shared && usable(t, r) == valid
}

/// The tenants of one scope, split by usability, with the active one.
pub struct OnboardingScopeState {
    pub active: Option<TenantDescriptor>,
    pub valid_tenants: Vec<TenantDescriptor>,
    pub invalid_tenants: Vec<TenantDescriptor>,
    pub needs_selection: bool,
}

/// Both scopes.
pub struct OnboardingTenantsState {
    pub my: OnboardingScopeState,
    pub shared: OnboardingScopeState,
}

/// What onboarding decides from the discovered tenants.
pub struct OnboardingPlan {
    pub tenants: OnboardingTenantsState,
    /// The tenant the runtime must switch to, if any.
    pub rebind_to: Option<TenantDescriptor>,
    pub requires_onboarding: bool,
}

proof fn lemma_filter_push(s: Seq<TenantDescriptor>, x: TenantDescriptor, p: spec_fn(TenantDescriptor) -> bool)
    ensures
        s.push(x).filter(p) == (if p(x) {
            s.filter(p).push(x)
        } else {
            s.filter(p)
        }),
{
    reveal(Seq::filter);
    assert(s.push(x).drop_last() =~= s);
}

/// Splits `discovered` into the usable and unusable tenants of each scope,
/// each list in discovery order.
pub fn partition_tenants(discovered: &Vec<TenantDescriptor>, reach: &ReachableSummary) -> (r: (
    Vec<TenantDescriptor>,
    Vec<TenantDescriptor>,
    Vec<TenantDescriptor>,
    Vec<TenantDescriptor>,
))
    ensures
        r.0@ == group_of(discovered@, *reach, false, true),
        r.1@ == group_of(discovered@, *reach, false, false),
        r.2@ == group_of(discovered@, *reach, true, true),
        r.3@ == group_of(discovered@, *reach, true, false),
{
    let mut my_valid: Vec<TenantDescriptor> = Vec::new();
    let mut my_invalid: Vec<TenantDescriptor> = Vec::new();
    let mut shared_valid: Vec<TenantDescriptor> = Vec::new();
    let mut shared_invalid: Vec<TenantDescriptor> = Vec::new();
    let check_discord = reach.discord_token_present && !reach.discord_error;
    let mut i: usize = 0;
    proof {
        reveal(Seq::filter);
    }
    while i < discovered.len()
        invariant
            0 <= i <= discovered@.len(),
            check_discord == checks_discord(*reach),
            my_valid@ == group_of(discovered@.subrange(0, i as int), *reach, false, true),
            my_invalid@ == group_of(discovered@.subrange(0, i as int), *reach, false, false),
            shared_valid@ == group_of(discovered@.subrange(0, i as int), *reach, true, true),
            shared_invalid@ == group_of(discovered@.subrange(0, i as int), *reach, true, false),
        decreases discovered@.len() - i,
    {
        let t = discovered[i].clone();
        let ghost pre = discovered@.subrange(0, i as int);
        assert(discovered@.subrange(0, i + 1) =~= pre.push(t));
        proof {
            lemma_filter_push(pre, t, group_pred(*reach, false, true));
            lemma_filter_push(pre, t, group_pred(*reach, false, false));
            lemma_filter_push(pre, t, group_pred(*reach, true, true));
            lemma_filter_push(pre, t, group_pred(*reach, true, false));
            reveal_strlit("shared");
        }
        let shared = str_eq(t.scope.as_str(), "shared");
        let valid = tenant_is_valid(
            &t,
            reach.discord_ids.as_slice(),
            reach.telegram_ids.as_slice(),
            check_discord,
            reach.telegram_authorized,
            reach.destinations_loaded,
        );
        if shared {
            if valid {
                shared_valid.push(t);
            } else {
                shared_invalid.push(t);
            }
        } else {
            if valid {
                my_valid.push(t);
            } else {
                my_invalid.push(t);
            }
        }
        i = i + 1;
    }
    assert(discovered@.subrange(0, i as int) =~= discovered@);
    (my_valid, my_invalid, shared_valid, shared_invalid)
}

/// Is the current tenant's scope `shared` (ignoring ASCII case)?
pub open spec fn in_shared_label(t: TenantDescriptor) -> bool {
    scope_label_spec(t.scope@) == scope_shared()
}

/// The active tenant of the current tenant's scope.
pub open spec fn desired_current(
    current: TenantDescriptor,
    my_active: Option<TenantDescriptor>,
    shared_active: Option<TenantDescriptor>,
) -> Option<TenantDescriptor> {
    if in_shared_label(current) {
        shared_active
    } else {
        my_active
    }
}

/// The tenant to switch the runtime to: the active one of the current scope,
/// when switching is allowed and it is another tenant.
pub open spec fn rebind_choice(allow: bool, current: TenantDescriptor, desired: Option<TenantDescriptor>) -> Option<
    TenantDescriptor,
> {
    if allow && desired is Some && tenant_key(desired->0) != tenant_key(current) {
        desired
    } else {
        None
    }
}

/// Onboarding is required until both services are connected without error
/// and the current scope has an active tenant.
pub open spec fn onboarding_required(r: ReachableSummary, current_needs_selection: bool) -> bool {
    !r.discord_token_present || !r.telegram_authorized || current_needs_selection || r.discord_error
        || r.telegram_error
}

fn clone_tenant_opt(o: &Option<TenantDescriptor>) -> (r: Option<TenantDescriptor>)
    ensures
        r == *o,
{
    match o {
        Some(t) => Some(t.clone()),
        None => None,
    }
}

/// Decides the onboarding state: splits the discovered tenants by scope and
/// usability, picks the active tenant of each scope (`remembered_my` and
/// `remembered_shared` come from the tenant registry), says whether the
/// runtime must switch tenant and whether onboarding is still required.
pub fn plan_onboarding(
    discovered: &Vec<TenantDescriptor>,
    reach: &ReachableSummary,
    remembered_my: Option<TenantDescriptor>,
    remembered_shared: Option<TenantDescriptor>,
    current: &TenantDescriptor,
    allow_rebind: bool,
) -> (r: OnboardingPlan)
    ensures
        r.tenants.my.valid_tenants@ == group_of(discovered@, *reach, false, true),
        r.tenants.my.invalid_tenants@ == group_of(discovered@, *reach, false, false),
        r.tenants.shared.valid_tenants@ == group_of(discovered@, *reach, true, true),
        r.tenants.shared.invalid_tenants@ == group_of(discovered@, *reach, true, false),
        r.tenants.my.active == active_choice(remembered_my, group_of(discovered@, *reach, false, true)),
        r.tenants.shared.active == active_choice(remembered_shared, group_of(discovered@, *reach, true, true)),
        r.tenants.my.needs_selection == r.tenants.my.active is None,
        r.tenants.shared.needs_selection == r.tenants.shared.active is None,
        r.rebind_to == rebind_choice(
            allow_rebind,
            *current,
            desired_current(*current, r.tenants.my.active, r.tenants.shared.active),
        ),
        r.requires_onboarding == onboarding_required(
            *reach,
            desired_current(*current, r.tenants.my.active, r.tenants.shared.active) is None,
        ),
{
    let (my_valid, my_invalid, shared_valid, shared_invalid) = partition_tenants(discovered, reach);
    let my_active = choose_scope_active(remembered_my, my_valid.as_slice());
    let shared_active = choose_scope_active(remembered_shared, shared_valid.as_slice());
    proof {
        reveal_strlit("shared");
    }
    let keep_shared = str_eq(scope_label(current.scope.as_str()), "shared");
    let desired = if keep_shared {
        clone_tenant_opt(&shared_active)
    } else {
        clone_tenant_opt(&my_active)
    };
    let needs_selection = desired.is_none();
    let rebind_to = match desired {
        Some(d) => if allow_rebind && !same_tenant(&d, current) {
            Some(d)
        } else {
            None
        },
        None => None,
    };
    let requires_onboarding = !reach.discord_token_present || !reach.telegram_authorized || needs_selection
        || reach.discord_error || reach.telegram_error;
    let my_none = my_active.is_none();
    let shared_none = shared_active.is_none();
    OnboardingPlan {
        tenants: OnboardingTenantsState {
            my: OnboardingScopeState {
                active: my_active,
                valid_tenants: my_valid,
                invalid_tenants: my_invalid,
                needs_selection: my_none,
            },
            shared: OnboardingScopeState {
                active: shared_active,
                valid_tenants: shared_valid,
                invalid_tenants: shared_invalid,
                needs_selection: shared_none,
            },
        },
        rebind_to,
        requires_onboarding,
    }
}

/// Every discovered tenant lands in exactly one of the four groups (usable
/// or not, `my` or `shared`): the groups' sizes add up to the number of
/// tenants, and each group holds only tenants of its kind.
pub proof fn lemma_partition_complete(s: Seq<TenantDescriptor>, r: ReachableSummary)
    ensures
        group_of(s, r, false, true).len() + group_of(s, r, false, false).len() + group_of(s, r, true, true).len()
            + group_of(s, r, true, false).len() == s.len(),
        forall|sh: bool, v: bool, i: int|
            0 <= i < group_of(s, r, sh, v).len() ==> in_shared_scope(#[trigger] group_of(s, r, sh, v)[i]) == sh
                && usable(group_of(s, r, sh, v)[i], r) == v,
    decreases s.len(),
{
    broadcast use vstd::seq_lib::group_filter_ensures;
    if s.len() > 0 {
        let p = s.drop_last();
        let x = s.last();
        lemma_partition_complete(p, r);
        assert(p.push(x) =~= s);
        lemma_filter_push(p, x, group_pred(r, false, true));
        lemma_filter_push(p, x, group_pred(r, false, false));
        lemma_filter_push(p, x, group_pred(r, true, true));
        lemma_filter_push(p, x, group_pred(r, true, false));
    } else {
        reveal(Seq::filter);
    }
    assert forall|sh: bool, v: bool, i: int|
        0 <= i < group_of(s, r, sh, v).len() implies in_shared_scope(#[trigger] group_of(s, r, sh, v)[i]) == sh
        && usable(group_of(s, r, sh, v)[i], r) == v by {
        let g = group_of(s, r, sh, v);
        assert(group_pred(r, sh, v)(g[i]));
    }
}

/// The active tenant of a scope is always one of its usable tenants (the
/// remembered one counts when a usable tenant has the same scope and
/// destinations).
pub proof fn lemma_active_is_usable(remembered: Option<TenantDescriptor>, valid: Seq<TenantDescriptor>)
    ensures
        active_choice(remembered, valid) matches Some(a) ==> exists|i: int|
            0 <= i < valid.len() && tenant_key(#[trigger] valid[i]) == tenant_key(a),
{
    if active_choice(remembered, valid) is Some {
        if !(remembered is Some && exists|i: int|
            0 <= i < valid.len() && tenant_key(#[trigger] valid[i]) == tenant_key(remembered->0)) {
            assert(tenant_key(valid[0]) == tenant_key(valid[0]));
        }
    }
}

/// A value as it is written to the environment: trimmed.
pub fn normalize_env_value(value: &str) -> (r: String)
    ensures
        r@ == trim(value@),
{
    trim_string(value)
}

/// An optional destination id: trimmed, and absent when empty or `0`.
pub open spec fn normalized_segment(value: Option<Seq<char>>) -> Option<Seq<char>> {
    match value {
        Some(v) => if trim(v).len() == 0 || trim(v) == "0"@ {
            None
        } else {
            Some(trim(v))
        },
        None => None,
    }
}

/// Trims an optional destination id and drops it when empty or `0`.
pub fn normalize_optional_segment(value: Option<String>) -> (r: Option<String>)
    ensures
        opt_view(r) == normalized_segment(opt_view(value)),
{
    match value {
        Some(v) => {
            let t = trim_string(v.as_str());
            proof {
                reveal_strlit("0");
            }
            if t.as_str().unicode_len() == 0 || str_eq(t.as_str(), "0") {
                None
            } else {
                Some(t)
            }
        },
        None => None,
    }
}

/// A tenant that the user asks to create.
pub struct NewTenantRequest {
    pub scope: String,
    pub discord_guild_id: Option<String>,
    pub telegram_group_id: Option<String>,
}

/// Reads a request to create a tenant: its scope, and at least one
/// destination once ids are normalized.
pub fn new_tenant_request(
    scope: &str,
    discord_guild_id: Option<String>,
    telegram_group_id: Option<String>,
) -> (r: Result<NewTenantRequest, OnboardingError>)
    ensures
        (normalized_segment(opt_view(discord_guild_id)) is None && normalized_segment(opt_view(telegram_group_id)) is None)
            <==> r == Err::<NewTenantRequest, OnboardingError>(OnboardingError::MissingDestinations),
        r matches Ok(q) ==> q.scope@ == scope_label_spec(scope@) && opt_view(q.discord_guild_id) == normalized_segment(
            opt_view(discord_guild_id),
        ) && opt_view(q.telegram_group_id) == normalized_segment(opt_view(telegram_group_id)),
{
    let scope = match validate_scope(scope) {
        Ok(s) => s,
        Err(e) => return Err(e),
    };
    let discord = normalize_optional_segment(discord_guild_id);
    let telegram = normalize_optional_segment(telegram_group_id);
    if discord.is_none() && telegram.is_none() {
        return Err(OnboardingError::MissingDestinations);
    }
    Ok(NewTenantRequest { scope, discord_guild_id: discord, telegram_group_id: telegram })
}

/// Checks that each chosen destination is one that the current credentials
/// reach; the Discord server is checked first.
pub fn check_tenant_reachable(
    request: &NewTenantRequest,
    discord_ids: &[String],
    telegram_ids: &[String],
) -> (r: Result<(), OnboardingError>)
    ensures
        r == (if opt_view(request.discord_guild_id) matches Some(d) && !string_views(discord_ids@).contains(d) {
            Err(OnboardingError::DiscordGuildUnreachable)
        } else if opt_view(request.telegram_group_id) matches Some(t) && !string_views(telegram_ids@).contains(t) {
            Err(OnboardingError::TelegramGroupUnreachable)
        } else {
            Ok(())
        }),
{
    if let Some(d) = &request.discord_guild_id {
        if !contains_id(discord_ids, d) {
            return Err(OnboardingError::DiscordGuildUnreachable);
        }
    }
    if let Some(t) = &request.telegram_group_id {
        if !contains_id(telegram_ids, t) {
            return Err(OnboardingError::TelegramGroupUnreachable);
        }
    }
    Ok(())
}

/// Telegram API credentials.
pub struct TelegramCredentials {
    pub phone: String,
    pub api_id: i32,
    pub api_hash: String,
}

/// The api id read as `str::parse::<i32>` reads it, 0 when that fails.
pub open spec fn api_id_of(raw: Seq<char>) -> int {
    match parse_signed(raw, i32::MAX as int) {
        Some(v) => v,
        None => 0,
    }
}

/// The credentials stored in the environment are complete: a phone, a
/// positive api id and an api hash.
pub open spec fn stored_credentials_complete(phone: Seq<char>, api_id: Seq<char>, api_hash: Seq<char>) -> bool {
    trim(phone).len() > 0 && api_id_of(api_id) > 0 && trim(api_hash).len() > 0
}

/// Reads the Telegram credentials from the raw values stored for them
/// (empty when unset): `None` unless they are complete, else trimmed.
pub fn parse_telegram_credentials(phone: &str, api_id: &str, api_hash: &str) -> (r: Option<TelegramCredentials>)
    ensures
        r is Some <==> stored_credentials_complete(phone@, api_id@, api_hash@),
        r matches Some(c) ==> c.phone@ == trim(phone@) && c.api_id == api_id_of(api_id@) && c.api_hash@ == trim(
            api_hash@,
        ),
{
    proof {
        lemma_parse_signed_bounds(api_id@, i32::MAX as int);
    }
    let id: i32 = match parse_i32(api_id) {
        Some(v) => v,
        None => 0,
    };
    let p = trim_string(phone);
    let h = trim_string(api_hash);
    if p.as_str().unicode_len() == 0 || id <= 0 || h.as_str().unicode_len() == 0 {
        return None;
    }
    Some(TelegramCredentials { phone: p, api_id: id, api_hash: h })
}

/// Reads credentials that the user enters: trimmed, all present and a
/// positive api id.
pub fn telegram_credentials_input(phone: &str, api_id: i32, api_hash: &str) -> (r: Result<
    TelegramCredentials,
    OnboardingError,
>)
    ensures
        r is Ok <==> (trim(phone@).len() > 0 && api_id > 0 && trim(api_hash@).len() > 0),
        r matches Err(e) ==> e == OnboardingError::MissingTelegramCredentials,
        r matches Ok(c) ==> c.phone@ == trim(phone@) && c.api_id == api_id && c.api_hash@ == trim(api_hash@),
{
    let p = trim_string(phone);
    let h = trim_string(api_hash);
    if p.as_str().unicode_len() == 0 || api_id <= 0 || h.as_str().unicode_len() == 0 {
        return Err(OnboardingError::MissingTelegramCredentials);
    }
    Ok(TelegramCredentials { phone: p, api_id, api_hash: h })
}

/// Did saving `new` change the credentials? It did when none were stored.
pub fn credentials_changed(previous: &Option<TelegramCredentials>, new: &TelegramCredentials) -> (r: bool)
    ensures
        r == (match previous {
            Some(p) => p.phone@ != new.phone@ || p.api_id != new.api_id || p.api_hash@ != new.api_hash@,
            None => true,
        }),
{
    match previous {
        Some(p) => p.phone != new.phone || p.api_id != new.api_id || p.api_hash != new.api_hash,
        None => true,
    }
}

/// The key under which reachable Telegram groups are cached: the session
/// file, the phone and the api id, separated by `|`.
pub open spec fn telegram_cache_key(session_path: Seq<char>, creds: TelegramCredentials) -> Seq<char> {
    session_path + "|"@ + trim(creds.phone@) + "|"@ + decimal(creds.api_id as int)
}

/// Builds the cache key of the reachable Telegram groups for `creds`, with
/// the session file's path as displayed.
pub fn telegram_reachable_cache_key(session_path: &str, creds: &TelegramCredentials) -> (r: String)
    ensures
        r@ == telegram_cache_key(session_path@, *creds),
{
    let mut key = String::from_str(session_path);
    key.append("|");
    let phone = trim_string(creds.phone.as_str());
    key.append(phone.as_str());
    key.append("|");
    let id = decimal_string(creds.api_id as i64);
    key.append(id.as_str());
    key
}

/// A login code or password that the user submits must not be blank.
pub fn trimmed_secret(value: &str, when_empty: OnboardingError) -> (r: Result<String, OnboardingError>)
    ensures
        r is Err <==> trim(value@).len() == 0,
        r matches Err(e) ==> e == when_empty,
        r matches Ok(s) ==> s@ == trim(value@),
{
    let t = trim_string(value);
    if t.as_str().unicode_len() == 0 {
        Err(when_empty)
    } else {
        Ok(t)
    }
}

} // verus!
