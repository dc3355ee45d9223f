//! The settings document: the user's `config.json` with every key it lacks
//! filled in from the defaults, recursively, without touching what the user
//! set.
use vstd::prelude::*;

verus! {

/// A JSON document. Numbers are kept as their text; objects keep their
/// entries in order.
#[derive(Debug, PartialEq)]
pub enum JsonValue {
    Null,
    Bool(bool),
    Number(String),
    Str(String),
    Array(Vec<JsonValue>),
    Object(Vec<(String, JsonValue)>),
}

/// A JSON document as mathematics.
pub enum JsonModel {
    Null,
    Bool(bool),
    Number(Seq<char>),
    Str(Seq<char>),
    Array(Seq<JsonModel>),
    Object(Seq<(Seq<char>, JsonModel)>),
}

/// The model of a document.
pub open spec fn model(v: JsonValue) -> JsonModel
    decreases v, 0nat,
{
    match v {
        JsonValue::Null => JsonModel::Null,
        JsonValue::Bool(b) => JsonModel::Bool(b),
        JsonValue::Number(n) => JsonModel::Number(n@),
        JsonValue::Str(s) => JsonModel::Str(s@),
        JsonValue::Array(items) => JsonModel::Array(models(items@, items@.len() as nat)),
        JsonValue::Object(entries) => JsonModel::Object(entry_models(entries@, entries@.len() as nat)),
    }
}

/// The models of the first `n` items.
pub open spec fn models(items: Seq<JsonValue>, n: nat) -> Seq<JsonModel>
    decreases items, n,
{
    if n == 0 || n > items.len() {
        seq![]
    } else {
        models(items, (n - 1) as nat).push(model(items[n - 1]))
    }
}

/// The models of the first `n` entries.
pub open spec fn entry_models(entries: Seq<(String, JsonValue)>, n: nat) -> Seq<(Seq<char>, JsonModel)>
    decreases entries, n,
{
    if n == 0 || n > entries.len() {
        seq![]
    } else {
        entry_models(entries, (n - 1) as nat).push((entries[n - 1].0@, model(entries[n - 1].1)))
    }
}

/// The position of the first entry with key `k`, from `i` on.
pub open spec fn key_index_from(s: Seq<(Seq<char>, JsonModel)>, k: Seq<char>, i: int) -> Option<int>
    decreases s.len() - i,
{
    if i < 0 || i >= s.len() {
        None
    } else if s[i].0 == k {
        Some(i)
    } else {
        key_index_from(s, k, i + 1)
    }
}

/// `raw` with what the defaults `d` have and it lacks: where both are
/// objects, each default key that `raw` lacks is added with its default
/// value, and each key both have is filled in the same way; anything else
/// in `raw` is kept as it is.
pub open spec fn merged(raw: JsonModel, d: JsonModel) -> JsonModel
    decreases d, 0nat,
{
    match raw {
        JsonModel::Object(re) => match d {
            JsonModel::Object(de) => JsonModel::Object(merged_entries(re, de, de.len())),
            _ => raw,
        },
        _ => raw,
    }
}

/// The entries `re` after the first `n` default entries are filled in.
pub open spec fn merged_entries(re: Seq<(Seq<char>, JsonModel)>, de: Seq<(Seq<char>, JsonModel)>, n: nat) -> Seq<
    (Seq<char>, JsonModel),
>
    decreases de, n,
{
    if n == 0 || n > de.len() {
        re
    } else {
        let prev = merged_entries(re, de, (n - 1) as nat);
        let k = de[n - 1].0;
        match key_index_from(prev, k, 0) {
            Some(i) => prev.update(i, (k, merged(prev[i].1, de[n - 1].1))),
            None => prev.push((k, de[n - 1].1)),
        }
    }
}

/// A copy of `v`.
pub fn copy_json(v: &JsonValue) -> (r: JsonValue)
    ensures
        model(r) == model(*v),
    decreases v,
{
    match v {
        JsonValue::Null => JsonValue::Null,
        JsonValue::Bool(b) => JsonValue::Bool(*b),
        JsonValue::Number(n) => JsonValue::Number(n.clone()),
        JsonValue::Str(s) => JsonValue::Str(s.clone()),
        JsonValue::Array(items) => {
            let mut out: Vec<JsonValue> = Vec::new();
            let mut i: usize = 0;
            while i < items.len()
                invariant
                    0 <= i <= items@.len(),
                    *v == JsonValue::Array(*items),
                    out@.len() == i,
                    models(out@, i as nat) == models(items@, i as nat),
                decreases items@.len() - i,
            {
                proof {
                    let x = *items;
                    let vv = *v;
                    assert(decreases_to!(vv => vv->Array_0));
                    assert(vv->Array_0 == x);
                    assert(decreases_to!(x => x@));
                    assert(decreases_to!(x@ => x@[i as int]));
                    assert(decreases_to!(*v => items@[i as int]));
                }
                let c = copy_json(&items[i]);
                let ghost before = out@;
                out.push(c);
                proof {
                    lemma_models_prefix(before, out@, i as nat);
                    lemma_models_prefix(items@, items@, i as nat);
                }
                i = i + 1;
            }
            JsonValue::Array(out)
        },
        JsonValue::Object(entries) => {
            let mut out: Vec<(String, JsonValue)> = Vec::new();
            let mut i: usize = 0;
            while i < entries.len()
                invariant
                    0 <= i <= entries@.len(),
                    *v == JsonValue::Object(*entries),
                    out@.len() == i,
                    entry_models(out@, i as nat) == entry_models(entries@, i as nat),
                decreases entries@.len() - i,
            {
                proof {
                    let x = *entries;
                    let e = x@[i as int];
                    let vv = *v;
                    assert(decreases_to!(vv => vv->Object_0));
                    assert(vv->Object_0 == x);
                    assert(decreases_to!(x => x@));
                    assert(decreases_to!(x@ => e));
                    assert(decreases_to!(e => e.1));
                    assert(decreases_to!(*v => entries@[i as int].1));
                }
                let c = copy_json(&entries[i].1);
                let k = entries[i].0.clone();
                let ghost before = out@;
                out.push((k, c));
                proof {
                    lemma_entry_models_prefix(before, out@, i as nat);
                }
                i = i + 1;
            }
            JsonValue::Object(out)
        },
    }
}

proof fn lemma_models_prefix(a: Seq<JsonValue>, b: Seq<JsonValue>, n: nat)
    requires
        n <= a.len(),
        n <= b.len(),
        forall|i: int| 0 <= i < n ==> a[i] == b[i],
    ensures
        models(a, n) == models(b, n),
    decreases n,
{
    if n > 0 {
        lemma_models_prefix(a, b, (n - 1) as nat);
    }
}

proof fn lemma_entry_models_prefix(a: Seq<(String, JsonValue)>, b: Seq<(String, JsonValue)>, n: nat)
    requires
        n <= a.len(),
        n <= b.len(),
        forall|i: int| 0 <= i < n ==> a[i] == b[i],
    ensures
        entry_models(a, n) == entry_models(b, n),
    decreases n,
{
    if n > 0 {
        lemma_entry_models_prefix(a, b, (n - 1) as nat);
    }
}

proof fn lemma_entry_models_index(s: Seq<(String, JsonValue)>, n: nat, i: int)
    requires
        n <= s.len(),
        0 <= i < n,
    ensures
        entry_models(s, n).len() == n,
        entry_models(s, n)[i] == (s[i].0@, model(s[i].1)),
    decreases n,
{
    lemma_entry_models_len(s, n);
    if i < n - 1 {
        lemma_entry_models_index(s, (n - 1) as nat, i);
    }
}

proof fn lemma_entry_models_len(s: Seq<(String, JsonValue)>, n: nat)
    requires
        n <= s.len(),
    ensures
        entry_models(s, n).len() == n,
    decreases n,
{
    if n > 0 {
        lemma_entry_models_len(s, (n - 1) as nat);
    }
}

proof fn lemma_entry_models_update(s: Seq<(String, JsonValue)>, i: int, x: (String, JsonValue))
    requires
        0 <= i < s.len(),
    ensures
        entry_models(s.update(i, x), s.len() as nat) == entry_models(s, s.len() as nat).update(i, (x.0@, model(x.1))),
{
    let t = s.update(i, x);
    let a = entry_models(t, s.len() as nat);
    let b = entry_models(s, s.len() as nat).update(i, (x.0@, model(x.1)));
    lemma_entry_models_len(t, s.len() as nat);
    lemma_entry_models_len(s, s.len() as nat);
    assert forall|k: int| 0 <= k < s.len() implies a[k] == b[k] by {
        lemma_entry_models_index(t, s.len() as nat, k);
        lemma_entry_models_index(s, s.len() as nat, k);
    }
    assert(a =~= b);
}

proof fn lemma_entry_models_push(s: Seq<(String, JsonValue)>, x: (String, JsonValue))
    ensures
        entry_models(s.push(x), s.len() + 1) == entry_models(s, s.len() as nat).push((x.0@, model(x.1))),
{
    let t = s.push(x);
    lemma_entry_models_prefix(s, t, s.len() as nat);
}

proof fn lemma_key_index(s: Seq<(Seq<char>, JsonModel)>, k: Seq<char>, from: int)
    ensures
        key_index_from(s, k, from) matches Some(i) ==> from <= i < s.len() && s[i].0 == k,
    decreases s.len() - from,
{
    if 0 <= from < s.len() && s[from].0 != k {
        lemma_key_index(s, k, from + 1);
    }
}

/// Where key `k` first appears among `entries`.
fn find_key(entries: &Vec<(String, JsonValue)>, k: &String) -> (r: Option<usize>)
    ensures
        r matches Some(i) ==> i < entries@.len(),
        match r {
            Some(i) => key_index_from(entry_models(entries@, entries@.len() as nat), k@, 0) == Some(i as int),
            None => key_index_from(entry_models(entries@, entries@.len() as nat), k@, 0) is None,
        },
{
    let ghost m = entry_models(entries@, entries@.len() as nat);
    proof {
        lemma_entry_models_len(entries@, entries@.len() as nat);
    }
    let mut i: usize = 0;
    while i < entries.len()
        invariant
            0 <= i <= entries@.len(),
            m == entry_models(entries@, entries@.len() as nat),
            m.len() == entries@.len(),
            key_index_from(m, k@, 0) == key_index_from(m, k@, i as int),
        decreases entries@.len() - i,
    {
        proof {
            lemma_entry_models_index(entries@, entries@.len() as nat, i as int);
        }
        if entries[i].0 == *k {
            return Some(i);
        }
        i = i + 1;
    }
    None
}

/// `raw` with the defaults it lacks filled in (see `merged`).
pub fn merge_grouped_defaults(raw: JsonValue, defaults: &JsonValue) -> (r: JsonValue)
    ensures
        model(r) == merged(model(raw), model(*defaults)),
    decreases defaults,
{
    match raw {
        JsonValue::Object(entries) => match defaults {
            JsonValue::Object(de) => {
                let ghost re0 = entry_models(entries@, entries@.len() as nat);
                let ghost dm = entry_models(de@, de@.len() as nat);
                proof {
                    lemma_entry_models_len(de@, de@.len() as nat);
                }
                let mut re = entries;
                let mut j: usize = 0;
                while j < de.len()
                    invariant
                        0 <= j <= de@.len(),
                        *defaults == JsonValue::Object(*de),
                        dm == entry_models(de@, de@.len() as nat),
                        dm.len() == de@.len(),
                        entry_models(re@, re@.len() as nat) == merged_entries(re0, dm, j as nat),
                    decreases de@.len() - j,
                {
                    proof {
                        lemma_entry_models_index(de@, de@.len() as nat, j as int);
                    }
                    let ghost prev = entry_models(re@, re@.len() as nat);
                    assert(merged_entries(re0, dm, (j + 1) as nat) == (match key_index_from(prev, dm[j as int].0, 0) {
                        Some(i) => prev.update(i, (dm[j as int].0, merged(prev[i].1, dm[j as int].1))),
                        None => prev.push((dm[j as int].0, dm[j as int].1)),
                    }));
                    let k = &de[j].0;
                    match find_key(&re, k) {
                        Some(i) => {
                            proof {
                                lemma_entry_models_index(re@, re@.len() as nat, i as int);
                                let x = *de;
                                let e = x@[j as int];
                                let vv = *defaults;
                                assert(decreases_to!(vv => vv->Object_0));
                                assert(vv->Object_0 == x);
                                assert(decreases_to!(x => x@));
                                assert(decreases_to!(x@ => e));
                                assert(decreases_to!(e => e.1));
                            }
                            let ghost old_re = re@;
                            let (kk, v) = re.remove(i);
                            let nv = merge_grouped_defaults(v, &de[j].1);
                            re.insert(i, (kk, nv));
                            proof {
                                assert(re@ =~= old_re.update(i as int, (kk, nv)));
                                lemma_entry_models_update(old_re, i as int, (kk, nv));
                                lemma_key_index(prev, k@, 0);
                            }
                        },
                        None => {
                            let c = copy_json(&de[j].1);
                            let ghost old_re = re@;
                            let entry = (k.clone(), c);
                            let ghost ge = entry;
                            re.push(entry);
                            proof {
                                lemma_entry_models_push(old_re, ge);
                            }
                        },
                    }
                    j = j + 1;
                }
                JsonValue::Object(re)
            },
            _ => JsonValue::Object(entries),
        },
        other => other,
    }
}

/// A user value that is not an object, or defaults that are not an object,
/// leave the user value as it is.
pub proof fn lemma_merge_keeps_non_objects(raw: JsonModel, d: JsonModel)
    requires
        !(raw is Object) || !(d is Object),
    ensures
        merged(raw, d) == raw,
{
}

/// `m` keeps everything `r` has: where `r` is an object, `m` is an object
/// whose first entries have `r`'s keys in the same order, each with a value
/// that keeps `r`'s value; anything else in `r` is `m` itself.
pub open spec fn keeps(r: JsonModel, m: JsonModel) -> bool
    decreases r, 0nat,
{
    match r {
        JsonModel::Object(re) => match m {
            JsonModel::Object(me) => me.len() >= re.len() && keeps_entries(re, me, re.len()),
            _ => false,
        },
        _ => m == r,
    }
}

/// The first `n` entries of `me` keep those of `re`.
pub open spec fn keeps_entries(re: Seq<(Seq<char>, JsonModel)>, me: Seq<(Seq<char>, JsonModel)>, n: nat) -> bool
    decreases re, n,
{
    if n == 0 || n > re.len() {
        n == 0
    } else {
        keeps_entries(re, me, (n - 1) as nat) && me[n - 1].0 == re[n - 1].0 && keeps(re[n - 1].1, me[n - 1].1)
    }
}

proof fn lemma_keeps_entries_forall(re: Seq<(Seq<char>, JsonModel)>, me: Seq<(Seq<char>, JsonModel)>, n: nat)
    requires
        n <= re.len(),
    ensures
        keeps_entries(re, me, n) <==> forall|i: int|
            0 <= i < n ==> #[trigger] me[i].0 == re[i].0 && keeps(re[i].1, me[i].1),
    decreases n,
{
    if n > 0 {
        lemma_keeps_entries_forall(re, me, (n - 1) as nat);
        let j = n - 1;
        if forall|i: int| 0 <= i < n ==> #[trigger] me[i].0 == re[i].0 && keeps(re[i].1, me[i].1) {
            assert(me[j].0 == re[j].0 && keeps(re[j].1, me[j].1));
            assert forall|i: int| 0 <= i < n - 1 implies #[trigger] me[i].0 == re[i].0 && keeps(
                re[i].1,
                me[i].1,
            ) by {
                assert(me[i].0 == re[i].0 && keeps(re[i].1, me[i].1));
            }
        }
        if keeps_entries(re, me, n) {
            assert forall|i: int| 0 <= i < n implies #[trigger] me[i].0 == re[i].0 && keeps(re[i].1, me[i].1) by {
                if i < j {
                    assert(me[i].0 == re[i].0);
                }
            }
        }
    }
}

/// Every document keeps itself.
pub proof fn lemma_keeps_refl(r: JsonModel)
    ensures
        keeps(r, r),
    decreases r, 0nat,
{
    if let JsonModel::Object(re) = r {
        lemma_keeps_entries_refl(re, re.len());
    }
}

proof fn lemma_keeps_entries_refl(re: Seq<(Seq<char>, JsonModel)>, n: nat)
    requires
        n <= re.len(),
    ensures
        keeps_entries(re, re, n),
    decreases re, n,
{
    if n > 0 {
        lemma_keeps_entries_refl(re, (n - 1) as nat);
        lemma_keeps_refl(re[n - 1].1);
    }
}

/// Keeping is transitive.
pub proof fn lemma_keeps_trans(a: JsonModel, b: JsonModel, c: JsonModel)
    requires
        keeps(a, b),
        keeps(b, c),
    ensures
        keeps(a, c),
    decreases a, 0nat,
{
    if let JsonModel::Object(ae) = a {
        if let JsonModel::Object(be) = b {
            if let JsonModel::Object(ce) = c {
                lemma_keeps_entries_forall(be, ce, be.len());
                lemma_keeps_entries_trans(ae, be, ce, ae.len());
            }
        }
    }
}

proof fn lemma_keeps_entries_trans(
    ae: Seq<(Seq<char>, JsonModel)>,
    be: Seq<(Seq<char>, JsonModel)>,
    ce: Seq<(Seq<char>, JsonModel)>,
    n: nat,
)
    requires
        n <= ae.len(),
        ae.len() <= be.len(),
        keeps_entries(ae, be, ae.len()),
        forall|i: int| 0 <= i < be.len() ==> #[trigger] ce[i].0 == be[i].0 && keeps(be[i].1, ce[i].1),
    ensures
        keeps_entries(ae, ce, n),
    decreases ae, n,
{
    if n > 0 {
        lemma_keeps_entries_trans(ae, be, ce, (n - 1) as nat);
        lemma_keeps_entries_forall(ae, be, ae.len());
        let i = n - 1;
        assert(be[i].0 == ae[i].0 && keeps(ae[i].1, be[i].1));
        assert(ce[i].0 == be[i].0 && keeps(be[i].1, ce[i].1));
        lemma_keeps_trans(ae[i].1, be[i].1, ce[i].1);
    }
}

/// User values win at every level: filling in defaults keeps everything the
/// user's document has, however deeply nested, and only adds to it.
pub proof fn lemma_merged_keeps(raw: JsonModel, d: JsonModel)
    ensures
        keeps(raw, merged(raw, d)),
    decreases d, 0nat,
{
    match raw {
        JsonModel::Object(re) => match d {
            JsonModel::Object(de) => {
                lemma_merged_entries_keeps(re, de, de.len());
                lemma_keeps_entries_forall(re, merged_entries(re, de, de.len()), re.len());
            },
            _ => lemma_keeps_refl(raw),
        },
        _ => lemma_keeps_refl(raw),
    }
}

proof fn lemma_merged_entries_keeps(re: Seq<(Seq<char>, JsonModel)>, de: Seq<(Seq<char>, JsonModel)>, n: nat)
    requires
        n <= de.len(),
    ensures
        merged_entries(re, de, n).len() >= re.len(),
        forall|i: int|
            0 <= i < re.len() ==> #[trigger] merged_entries(re, de, n)[i].0 == re[i].0 && keeps(
                re[i].1,
                merged_entries(re, de, n)[i].1,
            ),
    decreases de, n,
{
    if n == 0 {
        assert forall|i: int| 0 <= i < re.len() implies #[trigger] merged_entries(re, de, n)[i].0 == re[i].0
            && keeps(re[i].1, merged_entries(re, de, n)[i].1) by {
            lemma_keeps_refl(re[i].1);
        }
    } else {
        lemma_merged_entries_keeps(re, de, (n - 1) as nat);
        let prev = merged_entries(re, de, (n - 1) as nat);
        let cur = merged_entries(re, de, n);
        let k = de[n - 1].0;
        lemma_key_index(prev, k, 0);
        match key_index_from(prev, k, 0) {
            Some(i2) => {
                lemma_merged_keeps(prev[i2].1, de[n - 1].1);
                assert forall|i: int| 0 <= i < re.len() implies #[trigger] cur[i].0 == re[i].0 && keeps(
                    re[i].1,
                    cur[i].1,
                ) by {
                    assert(prev[i].0 == re[i].0 && keeps(re[i].1, prev[i].1));
                    if i == i2 {
                        lemma_keeps_trans(re[i].1, prev[i].1, cur[i].1);
                    }
                }
            },
            None => {
                assert forall|i: int| 0 <= i < re.len() implies #[trigger] cur[i].0 == re[i].0 && keeps(
                    re[i].1,
                    cur[i].1,
                ) by {
                    assert(prev[i].0 == re[i].0 && keeps(re[i].1, prev[i].1));
                }
            },
        }
    }
}

/// `m` has what the defaults `d` have: where both are objects, every key of
/// `d` is in `m` with a value that has what the default value has. A value
/// of another kind on either side asks for nothing.
pub open spec fn covers(m: JsonModel, d: JsonModel) -> bool
    decreases d, 0nat,
{
    match d {
        JsonModel::Object(de) => match m {
            JsonModel::Object(me) => covers_entries(me, de, de.len()),
            _ => true,
        },
        _ => true,
    }
}

/// The entries `me` cover the first `n` default entries `de`.
pub open spec fn covers_entries(me: Seq<(Seq<char>, JsonModel)>, de: Seq<(Seq<char>, JsonModel)>, n: nat) -> bool
    decreases de, n,
{
    if n == 0 || n > de.len() {
        n == 0
    } else {
        covers_entries(me, de, (n - 1) as nat) && has_covering(me, de[n - 1].0, de[n - 1].1)
    }
}

/// Some entry of `me` has key `k` and a value that covers `dv`.
pub open spec fn has_covering(me: Seq<(Seq<char>, JsonModel)>, k: Seq<char>, dv: JsonModel) -> bool
    decreases dv, 1nat,
{
    exists|i: int| 0 <= i < me.len() && #[trigger] me[i].0 == k && covers(me[i].1, dv)
}

proof fn lemma_covers_entries_forall(me: Seq<(Seq<char>, JsonModel)>, de: Seq<(Seq<char>, JsonModel)>, n: nat)
    requires
        n <= de.len(),
    ensures
        covers_entries(me, de, n) <==> forall|j: int| 0 <= j < n ==> #[trigger] has_covering(me, de[j].0, de[j].1),
    decreases n,
{
    if n > 0 {
        lemma_covers_entries_forall(me, de, (n - 1) as nat);
        if forall|j: int| 0 <= j < n ==> #[trigger] has_covering(me, de[j].0, de[j].1) {
            assert(has_covering(me, de[n - 1].0, de[n - 1].1));
            assert forall|j: int| 0 <= j < n - 1 implies #[trigger] has_covering(me, de[j].0, de[j].1) by {
                assert(has_covering(me, de[j].0, de[j].1));
            }
        }
    }
}

/// The defaults cover themselves.
pub proof fn lemma_covers_refl(d: JsonModel)
    ensures
        covers(d, d),
    decreases d, 0nat,
{
    if let JsonModel::Object(de) = d {
        lemma_covers_entries_refl(de, de.len());
    }
}

proof fn lemma_covers_entries_refl(de: Seq<(Seq<char>, JsonModel)>, n: nat)
    requires
        n <= de.len(),
    ensures
        covers_entries(de, de, n),
    decreases de, n,
{
    if n > 0 {
        lemma_covers_entries_refl(de, (n - 1) as nat);
        lemma_covers_refl(de[n - 1].1);
        let i = n - 1;
        assert(0 <= i < de.len() && de[i].0 == de[n - 1].0 && covers(de[i].1, de[n - 1].1));
        assert(has_covering(de, de[n - 1].0, de[n - 1].1));
    }
}

/// Filling in more defaults keeps covering what was covered.
pub proof fn lemma_merge_preserves_covers(x: JsonModel, d1: JsonModel, d2: JsonModel)
    requires
        covers(x, d1),
    ensures
        covers(merged(x, d2), d1),
    decreases d1, 0nat,
{
    if let JsonModel::Object(d1e) = d1 {
        if let JsonModel::Object(xe) = x {
            if let JsonModel::Object(d2e) = d2 {
                lemma_covers_entries_forall(xe, d1e, d1e.len());
                lemma_merge_entries_preserve(xe, d1e, d2e, d2e.len());
                lemma_covers_entries_forall(merged_entries(xe, d2e, d2e.len()), d1e, d1e.len());
            }
        }
    }
}

proof fn lemma_merge_entries_preserve(
    xe: Seq<(Seq<char>, JsonModel)>,
    d1e: Seq<(Seq<char>, JsonModel)>,
    d2e: Seq<(Seq<char>, JsonModel)>,
    m: nat,
)
    requires
        m <= d2e.len(),
        forall|j: int| 0 <= j < d1e.len() ==> #[trigger] has_covering(xe, d1e[j].0, d1e[j].1),
    ensures
        forall|j: int|
            0 <= j < d1e.len() ==> #[trigger] has_covering(merged_entries(xe, d2e, m), d1e[j].0, d1e[j].1),
    decreases d1e, m,
{
    if m > 0 {
        lemma_merge_entries_preserve(xe, d1e, d2e, (m - 1) as nat);
        let prev = merged_entries(xe, d2e, (m - 1) as nat);
        let cur = merged_entries(xe, d2e, m);
        let k = d2e[m - 1].0;
        lemma_key_index(prev, k, 0);
        assert forall|j: int| 0 <= j < d1e.len() implies #[trigger] has_covering(cur, d1e[j].0, d1e[j].1) by {
            assert(has_covering(prev, d1e[j].0, d1e[j].1));
            let i = choose|i: int| 0 <= i < prev.len() && #[trigger] prev[i].0 == d1e[j].0 && covers(prev[i].1, d1e[j].1);
            match key_index_from(prev, k, 0) {
                Some(i2) => {
                    if i == i2 {
                        lemma_merge_preserves_covers(prev[i].1, d1e[j].1, d2e[m - 1].1);
                    }
                    assert(cur[i].0 == d1e[j].0 && covers(cur[i].1, d1e[j].1));
                },
                None => {
                    assert(cur[i].0 == d1e[j].0 && covers(cur[i].1, d1e[j].1));
                },
            }
        }
    }
}

/// Every missing key is filled, at every level: the result of filling in
/// the defaults covers the defaults.
pub proof fn lemma_merged_covers(raw: JsonModel, d: JsonModel)
    ensures
        covers(merged(raw, d), d),
    decreases d, 0nat,
{
    if let JsonModel::Object(de) = d {
        if let JsonModel::Object(re) = raw {
            lemma_merged_entries_cover(re, de, de.len());
            lemma_covers_entries_forall(merged_entries(re, de, de.len()), de, de.len());
        }
    }
}

proof fn lemma_merged_entries_cover(re: Seq<(Seq<char>, JsonModel)>, de: Seq<(Seq<char>, JsonModel)>, n: nat)
    requires
        n <= de.len(),
    ensures
        forall|j: int| 0 <= j < n ==> #[trigger] has_covering(merged_entries(re, de, n), de[j].0, de[j].1),
    decreases de, n,
{
    if n > 0 {
        lemma_merged_entries_cover(re, de, (n - 1) as nat);
        let prev = merged_entries(re, de, (n - 1) as nat);
        let cur = merged_entries(re, de, n);
        let k = de[n - 1].0;
        lemma_key_index(prev, k, 0);
        assert forall|j: int| 0 <= j < n implies #[trigger] has_covering(cur, de[j].0, de[j].1) by {
            if j < n - 1 {
                assert(has_covering(prev, de[j].0, de[j].1));
                let i = choose|i: int| 0 <= i < prev.len() && #[trigger] prev[i].0 == de[j].0 && covers(prev[i].1, de[j].1);
                match key_index_from(prev, k, 0) {
                    Some(i2) => {
                        if i == i2 {
                            lemma_merge_preserves_covers(prev[i].1, de[j].1, de[n - 1].1);
                        }
                        assert(cur[i].0 == de[j].0 && covers(cur[i].1, de[j].1));
                    },
                    None => {
                        assert(cur[i].0 == de[j].0 && covers(cur[i].1, de[j].1));
                    },
                }
            } else {
                match key_index_from(prev, k, 0) {
                    Some(i2) => {
                        lemma_merged_covers(prev[i2].1, de[n - 1].1);
                        assert(cur[i2].0 == de[j].0 && covers(cur[i2].1, de[j].1));
                    },
                    None => {
                        lemma_covers_refl(de[n - 1].1);
                        let p = prev.len() as int;
                        assert(cur[p].0 == de[j].0 && covers(cur[p].1, de[j].1));
                    },
                }
            }
        }
    }
}


#[verifier::external_type_specification]
#[verifier::external_body]
pub struct ExJsonDocument(serde_json::Value);

/// What `serde_json::from_str::<serde_json::Value>` makes of `text`: the
/// document, or `None` when `text` is not JSON.
pub uninterp spec fn json_document(text: Seq<char>) -> Option<JsonModel>;

/// The document that a `serde_json::Value` holds, each number as the text
/// that `serde_json` writes for it and each object's entries in the order
/// in which its map hands them out.
pub uninterp spec fn value_model(v: serde_json::Value) -> JsonModel;

/// One level of a `serde_json::Value`: scalars as plain values, arrays and
/// objects as their children, still as `serde_json` values.
pub enum JsonNode<'a> {
    Null,
    Bool(bool),
    Number(String),
    Str(String),
    Array(Vec<&'a serde_json::Value>),
    Object(Vec<(String, &'a serde_json::Value)>),
}

/// `n` is the top level of the document `m`.
pub open spec fn node_of<'a>(n: JsonNode<'a>, m: JsonModel) -> bool {
    match n {
        JsonNode::Null => m == JsonModel::Null,
        JsonNode::Bool(b) => m == JsonModel::Bool(b),
        JsonNode::Number(s) => m == JsonModel::Number(s@),
        JsonNode::Str(s) => m == JsonModel::Str(s@),
        JsonNode::Array(items) => {
            &&& m is Array
            &&& m->Array_0.len() == items@.len()
            &&& forall|i: int| 0 <= i < items@.len() ==> value_model(*#[trigger] items@[i]) == m->Array_0[i]
        },
        JsonNode::Object(entries) => {
            &&& m is Object
            &&& m->Object_0.len() == entries@.len()
            &&& forall|i: int|
                0 <= i < entries@.len() ==> (#[trigger] entries@[i]).0@ == m->Object_0[i].0 && value_model(
                    *entries@[i].1,
                ) == m->Object_0[i].1
        },
    }
}

/// Parses `text` with `serde_json::from_str::<serde_json::Value>`; the
/// contract says the result is the named parse of the text.
#[verifier::external_body]
fn parse_json_value(text: &str) -> (r: Option<serde_json::Value>)
    ensures
        match r {
            Some(v) => json_document(text@) == Some(value_model(v)),
            None => json_document(text@) is None,
        },
{
    serde_json::from_str::<serde_json::Value>(text).ok()
}

/// The top level of `v`, read by matching on `serde_json::Value`'s variants;
/// a number is written with its `Display`, an object's entries come in the
/// order of its map's `iter`.
#[verifier::external_body]
fn value_node<'a>(v: &'a serde_json::Value) -> (r: JsonNode<'a>)
    ensures
        node_of(r, value_model(*v)),
{
    match v {
        serde_json::Value::Null => JsonNode::Null,
        serde_json::Value::Bool(b) => JsonNode::Bool(*b),
        serde_json::Value::Number(n) => JsonNode::Number(n.to_string()),
        serde_json::Value::String(s) => JsonNode::Str(s.clone()),
        serde_json::Value::Array(a) => JsonNode::Array(a.iter().collect()),
        serde_json::Value::Object(m) => JsonNode::Object(m.iter().map(|(k, x)| (k.clone(), x)).collect()),
    }
}

/// The document that `v` holds, in the library's form.
pub fn json_from_value(v: &serde_json::Value) -> (r: JsonValue)
    ensures
        model(r) == value_model(*v),
    decreases value_model(*v),
{
    let ghost whole = value_model(*v);
    match value_node(v) {
        JsonNode::Null => JsonValue::Null,
        JsonNode::Bool(b) => JsonValue::Bool(b),
        JsonNode::Number(s) => JsonValue::Number(s),
        JsonNode::Str(s) => JsonValue::Str(s),
        JsonNode::Array(items) => {
            let ghost m = whole->Array_0;
            let mut out: Vec<JsonValue> = Vec::new();
            let mut i: usize = 0;
            while i < items.len()
                invariant
                    0 <= i <= items@.len(),
                    whole == value_model(*v),
                    whole == JsonModel::Array(m),
                    m.len() == items@.len(),
                    forall|j: int| 0 <= j < items@.len() ==> value_model(*#[trigger] items@[j]) == m[j],
                    out@.len() == i,
                    models(out@, i as nat) == m.subrange(0, i as int),
                decreases items@.len() - i,
            {
                proof {
                    assert(value_model(*items@[i as int]) == m[i as int]);
                    assert(decreases_to!(whole => whole->Array_0));
                    assert(decreases_to!(m => m[i as int]));
                }
                let c = json_from_value(items[i]);
                let ghost before = out@;
                out.push(c);
                proof {
                    lemma_models_prefix(before, out@, i as nat);
                    assert(m.subrange(0, i + 1) =~= m.subrange(0, i as int).push(m[i as int]));
                }
                i = i + 1;
            }
            proof {
                assert(m.subrange(0, m.len() as int) =~= m);
            }
            JsonValue::Array(out)
        },
        JsonNode::Object(entries) => {
            let ghost m = whole->Object_0;
            let mut out: Vec<(String, JsonValue)> = Vec::new();
            let mut i: usize = 0;
            while i < entries.len()
                invariant
                    0 <= i <= entries@.len(),
                    whole == value_model(*v),
                    whole == JsonModel::Object(m),
                    m.len() == entries@.len(),
                    forall|j: int|
                        0 <= j < entries@.len() ==> (#[trigger] entries@[j]).0@ == m[j].0 && value_model(
                            *entries@[j].1,
                        ) == m[j].1,
                    out@.len() == i,
                    entry_models(out@, i as nat) == m.subrange(0, i as int),
                decreases entries@.len() - i,
            {
                proof {
                    let e = entries@[i as int];
                    assert(e.0@ == m[i as int].0 && value_model(*e.1) == m[i as int].1);
                    let pair = m[i as int];
                    assert(decreases_to!(whole => whole->Object_0));
                    assert(decreases_to!(m => pair));
                    assert(decreases_to!(pair => pair.1));
                }
                let c = json_from_value(entries[i].1);
                let k = entries[i].0.clone();
                let ghost before = out@;
                out.push((k, c));
                proof {
                    lemma_entry_models_prefix(before, out@, i as nat);
                    assert(m.subrange(0, i + 1) =~= m.subrange(0, i as int).push(m[i as int]));
                }
                i = i + 1;
            }
            proof {
                assert(m.subrange(0, m.len() as int) =~= m);
            }
            JsonValue::Object(out)
        },
    }
}

/// The user's settings document: the JSON of the settings file when there
/// is one and it parses, else an empty object.
pub open spec fn user_settings(text: Option<Seq<char>>) -> JsonModel {
    match text {
        Some(t) => match json_document(t) {
            Some(m) => m,
            None => JsonModel::Object(Seq::empty()),
        },
        None => JsonModel::Object(Seq::empty()),
    }
}

/// The settings to show: the settings file's text (`None` when there is no
/// file) parsed, an empty object where it is missing or not JSON, with
/// every default it lacks filled in.
pub fn settings_from_text(text: Option<&str>, defaults: &JsonValue) -> (r: JsonValue)
    ensures
        model(r) == merged(
            user_settings(
                match text {
                    Some(t) => Some(t@),
                    None => None,
                },
            ),
            model(*defaults),
        ),
{
    let raw = match text {
        Some(t) => match parse_json_value(t) {
            Some(doc) => json_from_value(&doc),
            None => JsonValue::Object(Vec::new()),
        },
        None => JsonValue::Object(Vec::new()),
    };
    proof {
        assert(entry_models(Seq::<(String, JsonValue)>::empty(), 0) =~= Seq::empty());
    }
    merge_grouped_defaults(raw, defaults)
}

} // verus!
