//! The provider settings file (`bot.env`): `KEY=value` lines, rewritten in
//! place when settings change, with new keys appended.
use vstd::prelude::*;
use crate::text::{starts_with, string_views, trim_start, trim_start_str};

verus! {

/// Where the first `\n` of `s` is, if anywhere.
pub open spec fn first_newline(s: Seq<char>) -> Option<int> {
    if exists|i: int| 0 <= i < s.len() && s[i] == '\n' {
        Some(choose|i: int| 0 <= i < s.len() && s[i] == '\n' && forall|j: int| 0 <= j < i ==> s[j] != '\n')
    } else {
        None
    }
}

/// A line ended by `\n`, without a `\r` just before it.
pub open spec fn strip_cr(s: Seq<char>) -> Seq<char> {
    if s.len() > 0 && s.last() == '\r' {
        s.drop_last()
    } else {
        s
    }
}

/// The lines of `s` as `str::lines` gives them: split at `\n`, a `\r` before
/// it dropped, and no empty line after a final `\n`.
#[verifier::opaque]
pub open spec fn lines_of(s: Seq<char>) -> Seq<Seq<char>>
    decreases s.len(),
{
    if s.len() == 0 {
        seq![]
    } else {
        match first_newline(s) {
            None => seq![s],
            Some(i) => if 0 <= i < s.len() {
                seq![strip_cr(s.subrange(0, i))] + lines_of(s.subrange(i + 1, s.len() as int))
            } else {
                seq![]
            },
        }
    }
}


proof fn lemma_first_newline_at(s: Seq<char>, i: int)
    requires
        0 <= i < s.len(),
        s[i] == '\n',
        forall|j: int| 0 <= j < i ==> s[j] != '\n',
    ensures
        first_newline(s) == Some(i),
{
    let k = choose|k: int| 0 <= k < s.len() && s[k] == '\n' && forall|j: int| 0 <= j < k ==> s[j] != '\n';
    assert(0 <= k < s.len() && s[k] == '\n' && forall|j: int| 0 <= j < k ==> s[j] != '\n');
    if k < i {
        assert(s[k] != '\n');
    }
    if i < k {
        assert(s[i] != '\n');
    }
}

proof fn lemma_lines_split(rest: Seq<char>, k: int)
    requires
        0 <= k < rest.len(),
        rest[k] == '\n',
        forall|j: int| 0 <= j < k ==> rest[j] != '\n',
    ensures
        lines_of(rest) == seq![strip_cr(rest.subrange(0, k))] + lines_of(rest.subrange(k + 1, rest.len() as int)),
{
    reveal(lines_of);
    lemma_first_newline_at(rest, k);
}

proof fn lemma_lines_last(rest: Seq<char>)
    requires
        rest.len() > 0,
        forall|j: int| 0 <= j < rest.len() ==> rest[j] != '\n',
    ensures
        lines_of(rest) == seq![rest],
{
    reveal(lines_of);
    assert(first_newline(rest) is None);
}

/// The line that ends just before the `\n` at `i`, without a `\r` before it.
fn line_before(content: &str, start: usize, i: usize) -> (r: String)
    requires
        start <= i <= content@.len(),
    ensures
        r@ == strip_cr(content@.subrange(start as int, i as int)),
{
    let ghost p = content@.subrange(start as int, i as int);
    if i > start && content.get_char(i - 1) == '\r' {
        assert(p.drop_last() =~= content@.subrange(start as int, i - 1));
        String::from_str(content.substring_char(start, i - 1))
    } else {
        String::from_str(content.substring_char(start, i))
    }
}

/// Splits `content` into lines as `str::lines` does.
pub fn split_lines(content: &str) -> (r: Vec<String>)
    ensures
        string_views(r@) == lines_of(content@),
{
    let n = content.unicode_len();
    let mut out: Vec<String> = Vec::new();
    let mut start: usize = 0;
    let mut i: usize = 0;
    assert(content@.subrange(0, n as int) =~= content@);
    assert(string_views(out@) =~= Seq::<Seq<char>>::empty());
    assert(Seq::<Seq<char>>::empty() + lines_of(content@) =~= lines_of(content@));
    while i < n
        invariant
            0 <= start <= i <= n == content@.len(),
            forall|j: int| start <= j < i ==> content@[j] != '\n',
            string_views(out@) + lines_of(content@.subrange(start as int, n as int)) == lines_of(content@),
        decreases n - i,
    {
        if content.get_char(i) == '\n' {
            let ghost rest = content@.subrange(start as int, n as int);
            proof {
                assert forall|j: int| 0 <= j < i - start implies rest[j] != '\n' by {
                    assert(rest[j] == content@[start + j]);
                }
                lemma_lines_split(rest, i - start);
                assert(rest.subrange(0, i - start) =~= content@.subrange(start as int, i as int));
                assert(rest.subrange(i - start + 1, rest.len() as int) =~= content@.subrange(i + 1, n as int));
            }
            let line = line_before(content, start, i);
            let ghost before = string_views(out@);
            out.push(line);
            proof {
                assert(string_views(out@) =~= before.push(line@));
                assert(string_views(out@) + lines_of(content@.subrange(i + 1, n as int)) =~= before + lines_of(
                    rest,
                ));
            }
            start = i + 1;
        }
        i = i + 1;
    }
    let ghost rest = content@.subrange(start as int, n as int);
    if start < n {
        proof {
            assert forall|j: int| 0 <= j < rest.len() implies rest[j] != '\n' by {
                assert(rest[j] == content@[start + j]);
            }
            lemma_lines_last(rest);
        }
        let ghost before = string_views(out@);
        let last = String::from_str(content.substring_char(start, n));
        out.push(last);
        assert(string_views(out@) =~= before + lines_of(rest));
    } else {
        assert(lines_of(rest) =~= Seq::<Seq<char>>::empty()) by {
            reveal(lines_of);
        }
        assert(string_views(out@) =~= string_views(out@) + lines_of(rest));
    }
    out
}

/// A `KEY=value` line.
pub open spec fn env_line(key: Seq<char>, value: Seq<char>) -> Seq<char> {
    key + "="@ + value
}

/// Does `line` (once leading white space is dropped) set `key`?
pub open spec fn sets_key(line: Seq<char>, key: Seq<char>) -> bool {
    let t = trim_start(line);
    let p = key + "="@;
    p.len() <= t.len() && t.subrange(0, p.len() as int) == p
}

pub open spec fn update_views(u: Seq<(String, String)>) -> Seq<(Seq<char>, Seq<char>)> {
    u.map_values(|e: (String, String)| (e.0@, e.1@))
}

/// The first update, among the first `n`, whose key `line` sets.
pub open spec fn first_update_for(line: Seq<char>, ups: Seq<(Seq<char>, Seq<char>)>, n: int) -> Option<int>
    decreases n,
{
    if n <= 0 {
        None
    } else {
        match first_update_for(line, ups, n - 1) {
            Some(j) => Some(j),
            None => if sets_key(line, ups[n - 1].0) {
                Some(n - 1)
            } else {
                None
            },
        }
    }
}

/// `line` after the updates: the first update whose key it sets rewrites it.
pub open spec fn rewritten(line: Seq<char>, ups: Seq<(Seq<char>, Seq<char>)>) -> Seq<char> {
    match first_update_for(line, ups, ups.len() as int) {
        Some(j) => env_line(ups[j].0, ups[j].1),
        None => line,
    }
}

/// Does some existing line set the key of update `j`?
pub open spec fn update_applied(lines: Seq<Seq<char>>, ups: Seq<(Seq<char>, Seq<char>)>, j: int) -> bool {
    exists|i: int| 0 <= i < lines.len() && sets_key(#[trigger] lines[i], ups[j].0)
}

/// The lines for the updates that no existing line took, in order.
pub open spec fn appended(lines: Seq<Seq<char>>, ups: Seq<(Seq<char>, Seq<char>)>, n: int) -> Seq<Seq<char>>
    decreases n,
{
    if n <= 0 {
        seq![]
    } else if update_applied(lines, ups, n - 1) {
        appended(lines, ups, n - 1)
    } else {
        appended(lines, ups, n - 1).push(env_line(ups[n - 1].0, ups[n - 1].1))
    }
}

/// Each line rewritten by the updates.
pub open spec fn rewrite_all(lines: Seq<Seq<char>>, ups: Seq<(Seq<char>, Seq<char>)>) -> Seq<Seq<char>> {
    lines.map_values(|l: Seq<char>| rewritten(l, ups))
}

/// Where key `k` first occurs among the first `n` entries of `d`.
pub open spec fn key_pos(d: Seq<(Seq<char>, Seq<char>)>, k: Seq<char>, n: int) -> Option<int>
    decreases n,
{
    if n <= 0 {
        None
    } else {
        match key_pos(d, k, n - 1) {
            Some(p) => Some(p),
            None => if d[n - 1].0 == k {
                Some(n - 1)
            } else {
                None
            },
        }
    }
}

/// The first `n` updates with each key once: where it first occurs, with the
/// value it is given last.
pub open spec fn deduped(ups: Seq<(Seq<char>, Seq<char>)>, n: int) -> Seq<(Seq<char>, Seq<char>)>
    decreases n,
{
    if n <= 0 {
        seq![]
    } else {
        let d = deduped(ups, n - 1);
        match key_pos(d, ups[n - 1].0, d.len() as int) {
            Some(p) => d.update(p, ups[n - 1]),
            None => d.push(ups[n - 1]),
        }
    }
}

/// The value the last of the first `n` updates of key `k` gives it.
pub open spec fn last_value(ups: Seq<(Seq<char>, Seq<char>)>, k: Seq<char>, n: int) -> Option<Seq<char>>
    decreases n,
{
    if n <= 0 {
        None
    } else if ups[n - 1].0 == k {
        Some(ups[n - 1].1)
    } else {
        last_value(ups, k, n - 1)
    }
}

/// The updates that take effect: each key once, with its last value.
pub open spec fn effective_updates(ups: Seq<(Seq<char>, Seq<char>)>) -> Seq<(Seq<char>, Seq<char>)> {
    deduped(ups, ups.len() as int)
}

/// The file's lines after the updates.
pub open spec fn updated_lines(lines: Seq<Seq<char>>, ups: Seq<(Seq<char>, Seq<char>)>) -> Seq<Seq<char>> {
    let d = effective_updates(ups);
    rewrite_all(lines, d) + appended(lines, d, d.len() as int)
}

fn make_env_line(key: &String, value: &String) -> (r: String)
    ensures
        r@ == env_line(key@, value@),
{
    let mut s = key.clone();
    s.append("=");
    s.append(value.as_str());
    s
}

fn line_sets_key(line: &String, key: &String) -> (r: bool)
    ensures
        r == sets_key(line@, key@),
{
    let p = make_env_line(key, &String::new());
    assert(p@ =~= key@ + "="@);
    let t = trim_start_str(line.as_str());
    starts_with(t, p.as_str())
}

/// Which update rewrites `line`, if any.
fn find_update(line: &String, updates: &[(String, String)]) -> (r: Option<usize>)
    ensures
        match r {
            Some(j) => first_update_for(line@, update_views(updates@), updates@.len() as int) == Some(j as int),
            None => first_update_for(line@, update_views(updates@), updates@.len() as int) is None,
        },
{
    let ghost ups = update_views(updates@);
    let mut j: usize = 0;
    while j < updates.len()
        invariant
            0 <= j <= updates@.len(),
            ups == update_views(updates@),
            first_update_for(line@, ups, j as int) is None,
        decreases updates@.len() - j,
    {
        assert(ups[j as int].0 == updates@[j as int].0@);
        if line_sets_key(line, &updates[j].0) {
            proof {
                lemma_first_update_stable(line@, ups, j + 1, updates@.len() as int);
            }
            return Some(j);
        }
        j = j + 1;
    }
    None
}

proof fn lemma_first_update_stable(line: Seq<char>, ups: Seq<(Seq<char>, Seq<char>)>, m: int, n: int)
    requires
        0 <= m <= n,
        first_update_for(line, ups, m) is Some,
    ensures
        first_update_for(line, ups, n) == first_update_for(line, ups, m),
    decreases n - m,
{
    if n > m {
        lemma_first_update_stable(line, ups, m, n - 1);
    }
}

proof fn lemma_first_update_bound(line: Seq<char>, ups: Seq<(Seq<char>, Seq<char>)>, n: int)
    ensures
        first_update_for(line, ups, n) matches Some(j) ==> 0 <= j < n,
    decreases n,
{
    if n > 0 {
        lemma_first_update_bound(line, ups, n - 1);
    }
}

proof fn lemma_key_pos_stable(d: Seq<(Seq<char>, Seq<char>)>, k: Seq<char>, m: int, n: int)
    requires
        0 <= m <= n,
        key_pos(d, k, m) is Some,
    ensures
        key_pos(d, k, n) == key_pos(d, k, m),
    decreases n - m,
{
    if n > m {
        lemma_key_pos_stable(d, k, m, n - 1);
    }
}

/// Where key `k` first occurs among the updates `d`.
fn key_position(d: &Vec<(String, String)>, k: &String) -> (r: Option<usize>)
    ensures
        match r {
            Some(p) => p < d@.len() && key_pos(update_views(d@), k@, d@.len() as int) == Some(p as int),
            None => key_pos(update_views(d@), k@, d@.len() as int) is None,
        },
{
    let ghost dv = update_views(d@);
    let mut i: usize = 0;
    while i < d.len()
        invariant
            0 <= i <= d@.len(),
            dv == update_views(d@),
            key_pos(dv, k@, i as int) is None,
        decreases d@.len() - i,
    {
        assert(dv[i as int].0 == d@[i as int].0@);
        if d[i].0 == *k {
            proof {
                lemma_key_pos_stable(dv, k@, i + 1, d@.len() as int);
            }
            return Some(i);
        }
        i = i + 1;
    }
    None
}

/// The updates with each key once, where it first occurs, with the value it
/// is given last.
fn dedup_updates(updates: &[(String, String)]) -> (r: Vec<(String, String)>)
    ensures
        update_views(r@) == effective_updates(update_views(updates@)),
{
    let ghost ups = update_views(updates@);
    let mut out: Vec<(String, String)> = Vec::new();
    let mut j: usize = 0;
    assert(update_views(out@) =~= deduped(ups, 0));
    while j < updates.len()
        invariant
            0 <= j <= updates@.len(),
            ups == update_views(updates@),
            update_views(out@) == deduped(ups, j as int),
        decreases updates@.len() - j,
    {
        let ghost before = update_views(out@);
        let entry = (updates[j].0.clone(), updates[j].1.clone());
        assert(ups[j as int] == (entry.0@, entry.1@));
        match key_position(&out, &updates[j].0) {
            Some(p) => {
                out.set(p, entry);
                assert(update_views(out@) =~= before.update(p as int, ups[j as int]));
            },
            None => {
                out.push(entry);
                assert(update_views(out@) =~= before.push(ups[j as int]));
            },
        }
        j = j + 1;
    }
    out
}

/// Marks each update whose key `line` sets.
fn mark_applied(applied: &mut Vec<bool>, line: &String, d: &Vec<(String, String)>)
    requires
        old(applied)@.len() == d@.len(),
    ensures
        final(applied)@.len() == old(applied)@.len(),
        forall|q: int|
            0 <= q < d@.len() ==> (final(applied)@[q] <==> (old(applied)@[q] || sets_key(
                line@,
                #[trigger] update_views(d@)[q].0,
            ))),
{
    let ghost dv = update_views(d@);
    let ghost a0 = applied@;
    let mut j: usize = 0;
    while j < d.len()
        invariant
            0 <= j <= d@.len(),
            dv == update_views(d@),
            a0.len() == d@.len(),
            applied@.len() == d@.len(),
            forall|q: int|
                0 <= q < d@.len() ==> (#[trigger] applied@[q] <==> (a0[q] || (q < j && sets_key(line@, dv[q].0)))),
        decreases d@.len() - j,
    {
        assert(dv[j as int].0 == d@[j as int].0@);
        let ghost before = applied@;
        if line_sets_key(line, &d[j].0) {
            applied.set(j, true);
        }
        assert forall|q: int|
            0 <= q < d@.len() implies (#[trigger] applied@[q] <==> (a0[q] || (q < j + 1 && sets_key(
                line@,
                dv[q].0,
            )))) by {
            assert(before[q] <==> (a0[q] || (q < j && sets_key(line@, dv[q].0))));
        }
        j = j + 1;
    }
    assert forall|q: int|
        0 <= q < d@.len() implies (applied@[q] <==> (a0[q] || sets_key(line@, #[trigger] update_views(d@)[q].0))) by {
        assert(applied@[q] <==> (a0[q] || (q < j && sets_key(line@, dv[q].0))));
    }
}

/// Applies `KEY=value` updates to the lines of the file: a key given more
/// than once takes its last value; each line that sets an updated key is
/// rewritten to `KEY=value`; a line is appended for each key that no line
/// set, in the order the keys were first given.
pub fn apply_env_updates(lines: &Vec<String>, updates: &[(String, String)]) -> (r: Vec<String>)
    ensures
        string_views(r@) == updated_lines(string_views(lines@), update_views(updates@)),
{
    let d = dedup_updates(updates);
    let ghost lv = string_views(lines@);
    let ghost ups = update_views(d@);
    let mut out: Vec<String> = Vec::new();
    let mut applied: Vec<bool> = Vec::new();
    let mut k: usize = 0;
    while k < d.len()
        invariant
            0 <= k <= d@.len(),
            applied@.len() == k,
            forall|j: int| 0 <= j < k ==> !applied@[j],
        decreases d@.len() - k,
    {
        applied.push(false);
        k = k + 1;
    }
    let mut i: usize = 0;
    while i < lines.len()
        invariant
            0 <= i <= lines@.len(),
            lv == string_views(lines@),
            ups == update_views(d@),
            applied@.len() == d@.len(),
            string_views(out@) == rewrite_all(lv.subrange(0, i as int), ups),
            forall|j: int|
                0 <= j < applied@.len() ==> (applied@[j] <==> exists|x: int|
                    0 <= x < i && sets_key(#[trigger] lv[x], ups[j].0)),
        decreases lines@.len() - i,
    {
        let line = &lines[i];
        assert(lv[i as int] == line@);
        let found = find_update(line, d.as_slice());
        let ghost before = string_views(out@);
        let ghost applied_before = applied@;
        match found {
            Some(j) => {
                proof {
                    lemma_first_update_bound(line@, ups, ups.len() as int);
                }
                let l = make_env_line(&d[j].0, &d[j].1);
                assert(ups[j as int] == (d@[j as int].0@, d@[j as int].1@));
                out.push(l);
            },
            None => {
                out.push(line.clone());
            },
        }
        mark_applied(&mut applied, line, &d);
        proof {
            assert(string_views(out@) =~= before.push(rewritten(lv[i as int], ups)));
            assert(rewrite_all(lv.subrange(0, i + 1), ups) =~= rewrite_all(lv.subrange(0, i as int), ups).push(
                rewritten(lv[i as int], ups),
            ));
            assert forall|j: int|
                0 <= j < applied@.len() implies (applied@[j] <==> exists|x: int|
                    0 <= x < i + 1 && sets_key(#[trigger] lv[x], ups[j].0)) by {
                assert(applied@[j] <==> (applied_before[j] || sets_key(line@, ups[j].0)));
                if sets_key(lv[i as int], ups[j].0) {
                    assert(0 <= i < i + 1);
                }
            }
        }
        i = i + 1;
    }
    assert(lv.subrange(0, i as int) =~= lv);
    let ghost rewritten_part = string_views(out@);
    let mut k: usize = 0;
    while k < d.len()
        invariant
            0 <= k <= d@.len(),
            i == lines@.len(),
            lv == string_views(lines@),
            ups == update_views(d@),
            applied@.len() == d@.len(),
            forall|j: int|
                0 <= j < applied@.len() ==> (applied@[j] <==> update_applied(lv, ups, j)),
            string_views(out@) == rewritten_part + appended(lv, ups, k as int),
        decreases d@.len() - k,
    {
        assert(applied@[k as int] <==> update_applied(lv, ups, k as int));
        let ghost before = string_views(out@);
        if !applied[k] {
            let l = make_env_line(&d[k].0, &d[k].1);
            assert(ups[k as int] == (d@[k as int].0@, d@[k as int].1@));
            out.push(l);
            assert(string_views(out@) =~= before.push(l@));
        }
        k = k + 1;
    }
    out
}

/// The lines joined by `\n`.
pub open spec fn joined(lines: Seq<Seq<char>>) -> Seq<char>
    decreases lines.len(),
{
    if lines.len() == 0 {
        seq![]
    } else if lines.len() == 1 {
        lines[0]
    } else {
        joined(lines.drop_last()) + "\n"@ + lines.last()
    }
}

/// The file's text: the lines joined by `\n`, ending with `\n`.
pub open spec fn rendered(lines: Seq<Seq<char>>) -> Seq<char> {
    let j = joined(lines);
    if j.len() > 0 && j.last() == '\n' {
        j
    } else {
        j + "\n"@
    }
}

/// Writes the lines as the file's text.
pub fn render_env(lines: &Vec<String>) -> (r: String)
    ensures
        r@ == rendered(string_views(lines@)),
{
    let ghost lv = string_views(lines@);
    let mut s = String::new();
    let mut i: usize = 0;
    proof {
        reveal_strlit("\n");
    }
    while i < lines.len()
        invariant
            0 <= i <= lines@.len(),
            lv == string_views(lines@),
            s@ == joined(lv.subrange(0, i as int)),
        decreases lines@.len() - i,
    {
        let ghost pre = lv.subrange(0, i as int);
        assert(lv.subrange(0, i + 1).drop_last() =~= pre);
        assert(lines@[i as int]@ == lv[i as int]);
        if i > 0 {
            s.append("\n");
        }
        s.append(lines[i].as_str());
        proof {
            if i == 0 {
                assert(s@ =~= lv.subrange(0, 1)[0]);
            }
        }
        i = i + 1;
    }
    assert(lv.subrange(0, i as int) =~= lv);
    let n = s.as_str().unicode_len();
    if n > 0 && s.as_str().get_char(n - 1) == '\n' {
        s
    } else {
        s.append("\n");
        s
    }
}

proof fn lemma_appended_has(lines: Seq<Seq<char>>, ups: Seq<(Seq<char>, Seq<char>)>, n: int, j: int)
    requires
        0 <= j < n,
        !update_applied(lines, ups, j),
    ensures
        appended(lines, ups, n).contains(env_line(ups[j].0, ups[j].1)),
    decreases n,
{
    if j < n - 1 {
        lemma_appended_has(lines, ups, n - 1, j);
        let a = appended(lines, ups, n - 1);
        let k = choose|k: int| 0 <= k < a.len() && a[k] == env_line(ups[j].0, ups[j].1);
        if !update_applied(lines, ups, n - 1) {
            assert(appended(lines, ups, n)[k] == a[k]);
        }
    } else {
        let a = appended(lines, ups, n);
        assert(a[a.len() - 1] == env_line(ups[j].0, ups[j].1));
    }
}

proof fn lemma_key_pos(d: Seq<(Seq<char>, Seq<char>)>, k: Seq<char>, n: int)
    requires
        0 <= n <= d.len(),
    ensures
        key_pos(d, k, n) matches Some(p) ==> 0 <= p < n && d[p].0 == k,
        key_pos(d, k, n) is None ==> forall|q: int| 0 <= q < n ==> #[trigger] d[q].0 != k,
    decreases n,
{
    if n > 0 {
        lemma_key_pos(d, k, n - 1);
    }
}

/// No key occurs twice in `d`.
pub open spec fn distinct_keys(d: Seq<(Seq<char>, Seq<char>)>) -> bool {
    forall|p: int, q: int| 0 <= p < q < d.len() ==> (#[trigger] d[p]).0 != (#[trigger] d[q]).0
}

/// Each key of `d` is the key of one of the first `n` updates.
pub open spec fn keys_given(d: Seq<(Seq<char>, Seq<char>)>, ups: Seq<(Seq<char>, Seq<char>)>, n: int) -> bool {
    forall|p: int|
        #![trigger d[p]]
        0 <= p < d.len() ==> exists|j: int| #![trigger ups[j]] 0 <= j < n && d[p].0 == ups[j].0
}

/// Each entry of `d` holds the last value the first `n` updates give its key.
pub open spec fn last_values(d: Seq<(Seq<char>, Seq<char>)>, ups: Seq<(Seq<char>, Seq<char>)>, n: int) -> bool {
    forall|p: int| 0 <= p < d.len() ==> last_value(ups, (#[trigger] d[p]).0, n) == Some(d[p].1)
}

/// The key of each of the first `n` updates is in `d`.
pub open spec fn all_keys(d: Seq<(Seq<char>, Seq<char>)>, ups: Seq<(Seq<char>, Seq<char>)>, n: int) -> bool {
    forall|j: int|
        #![trigger ups[j]]
        0 <= j < n ==> exists|p: int| #![trigger d[p]] 0 <= p < d.len() && d[p].0 == ups[j].0
}

proof fn lemma_update_distinct(prev: Seq<(Seq<char>, Seq<char>)>, p0: int, x: (Seq<char>, Seq<char>))
    requires
        0 <= p0 < prev.len(),
        prev[p0].0 == x.0,
        distinct_keys(prev),
    ensures
        distinct_keys(prev.update(p0, x)),
{
    let cur = prev.update(p0, x);
    assert forall|p: int, q: int| 0 <= p < q < cur.len() implies (#[trigger] cur[p]).0 != (#[trigger] cur[q]).0 by {
        assert(prev[p].0 != prev[q].0);
    }
}

proof fn lemma_update_last_values(ups: Seq<(Seq<char>, Seq<char>)>, n: int, prev: Seq<(Seq<char>, Seq<char>)>, p0: int)
    requires
        0 < n <= ups.len(),
        0 <= p0 < prev.len(),
        prev[p0].0 == ups[n - 1].0,
        distinct_keys(prev),
        last_values(prev, ups, n - 1),
    ensures
        last_values(prev.update(p0, ups[n - 1]), ups, n),
{
    let cur = prev.update(p0, ups[n - 1]);
    assert forall|p: int| 0 <= p < cur.len() implies last_value(ups, (#[trigger] cur[p]).0, n) == Some(cur[p].1) by {
        if p != p0 {
            if p < p0 {
                assert(prev[p].0 != prev[p0].0);
            } else {
                assert(prev[p0].0 != prev[p].0);
            }
            assert(last_value(ups, prev[p].0, n - 1) == Some(prev[p].1));
        }
    }
}

proof fn lemma_update_keys_given(ups: Seq<(Seq<char>, Seq<char>)>, n: int, prev: Seq<(Seq<char>, Seq<char>)>, p0: int)
    requires
        0 < n <= ups.len(),
        0 <= p0 < prev.len(),
        prev[p0].0 == ups[n - 1].0,
        keys_given(prev, ups, n - 1),
    ensures
        keys_given(prev.update(p0, ups[n - 1]), ups, n),
{
    let cur = prev.update(p0, ups[n - 1]);
    assert forall|p: int| #![trigger cur[p]] 0 <= p < cur.len() implies exists|j: int|
        #![trigger ups[j]]
        0 <= j < n && cur[p].0 == ups[j].0 by {
        if p == p0 {
            assert(cur[p].0 == ups[n - 1].0);
        } else {
            assert(prev[p] == cur[p]);
            let j0 = choose|j: int| #![trigger ups[j]] 0 <= j < n - 1 && prev[p].0 == ups[j].0;
            assert(cur[p].0 == ups[j0].0);
        }
    }
}

proof fn lemma_update_all_keys(ups: Seq<(Seq<char>, Seq<char>)>, n: int, prev: Seq<(Seq<char>, Seq<char>)>, p0: int)
    requires
        0 < n <= ups.len(),
        0 <= p0 < prev.len(),
        prev[p0].0 == ups[n - 1].0,
        all_keys(prev, ups, n - 1),
    ensures
        all_keys(prev.update(p0, ups[n - 1]), ups, n),
{
    let cur = prev.update(p0, ups[n - 1]);
    assert forall|j: int| #![trigger ups[j]] 0 <= j < n implies exists|p: int|
        #![trigger cur[p]]
        0 <= p < cur.len() && cur[p].0 == ups[j].0 by {
        if j == n - 1 {
            assert(cur[p0].0 == ups[j].0);
        } else {
            let p1 = choose|p: int| #![trigger prev[p]] 0 <= p < prev.len() && prev[p].0 == ups[j].0;
            assert(cur[p1].0 == prev[p1].0);
            assert(cur[p1].0 == ups[j].0);
        }
    }
}

proof fn lemma_dedup_step_update(ups: Seq<(Seq<char>, Seq<char>)>, n: int, prev: Seq<(Seq<char>, Seq<char>)>, p0: int)
    requires
        0 < n <= ups.len(),
        0 <= p0 < prev.len(),
        prev[p0].0 == ups[n - 1].0,
        distinct_keys(prev),
        keys_given(prev, ups, n - 1),
        last_values(prev, ups, n - 1),
        all_keys(prev, ups, n - 1),
    ensures
        distinct_keys(prev.update(p0, ups[n - 1])),
        keys_given(prev.update(p0, ups[n - 1]), ups, n),
        last_values(prev.update(p0, ups[n - 1]), ups, n),
        all_keys(prev.update(p0, ups[n - 1]), ups, n),
{
    lemma_update_distinct(prev, p0, ups[n - 1]);
    lemma_update_last_values(ups, n, prev, p0);
    lemma_update_keys_given(ups, n, prev, p0);
    lemma_update_all_keys(ups, n, prev, p0);
}

#[verifier::spinoff_prover]
#[verifier::rlimit(40)]
proof fn lemma_dedup_step_push(ups: Seq<(Seq<char>, Seq<char>)>, n: int, prev: Seq<(Seq<char>, Seq<char>)>)
    requires
        0 < n <= ups.len(),
        forall|q: int| 0 <= q < prev.len() ==> #[trigger] prev[q].0 != ups[n - 1].0,
        distinct_keys(prev),
        keys_given(prev, ups, n - 1),
        last_values(prev, ups, n - 1),
        all_keys(prev, ups, n - 1),
    ensures
        distinct_keys(prev.push(ups[n - 1])),
        keys_given(prev.push(ups[n - 1]), ups, n),
        last_values(prev.push(ups[n - 1]), ups, n),
        all_keys(prev.push(ups[n - 1]), ups, n),
{
    let cur = prev.push(ups[n - 1]);
    let m = prev.len() as int;
    assert forall|p: int, q: int| 0 <= p < q < cur.len() implies (#[trigger] cur[p]).0 != (#[trigger] cur[q]).0 by {
        if q < m {
            assert(prev[p].0 != prev[q].0);
        } else {
            assert(prev[p].0 != ups[n - 1].0);
        }
    }
    assert forall|p: int| 0 <= p < cur.len() implies last_value(ups, (#[trigger] cur[p]).0, n) == Some(cur[p].1) by {
        if p < m {
            assert(prev[p].0 != ups[n - 1].0);
            assert(last_value(ups, prev[p].0, n - 1) == Some(prev[p].1));
        }
    }
    assert forall|p: int| #![trigger cur[p]] 0 <= p < cur.len() implies exists|j: int|
        #![trigger ups[j]]
        0 <= j < n && cur[p].0 == ups[j].0 by {
        if p == m {
            assert(cur[p].0 == ups[n - 1].0);
        } else {
            let j0 = choose|j: int| 0 <= j < n - 1 && prev[p].0 == ups[j].0;
            assert(cur[p].0 == ups[j0].0);
        }
    }
    assert forall|j: int| #![trigger ups[j]] 0 <= j < n implies exists|p: int|
        #![trigger cur[p]]
        0 <= p < cur.len() && cur[p].0 == ups[j].0 by {
        if j == n - 1 {
            assert(cur[m].0 == ups[j].0);
        } else {
            let p1 = choose|p: int| 0 <= p < prev.len() && prev[p].0 == ups[j].0;
            assert(cur[p1].0 == ups[j].0);
        }
    }
    assert(keys_given(cur, ups, n));
    assert(all_keys(cur, ups, n));
}

/// The updates that take effect name each key once, each one the updates
/// give, with the value its last update gives it, and every key given is
/// among them.
proof fn lemma_deduped(ups: Seq<(Seq<char>, Seq<char>)>, n: int)
    requires
        0 <= n <= ups.len(),
    ensures
        distinct_keys(deduped(ups, n)),
        keys_given(deduped(ups, n), ups, n),
        last_values(deduped(ups, n), ups, n),
        all_keys(deduped(ups, n), ups, n),
    decreases n,
{
    if n > 0 {
        lemma_deduped(ups, n - 1);
        let prev = deduped(ups, n - 1);
        let k = ups[n - 1].0;
        lemma_key_pos(prev, k, prev.len() as int);
        match key_pos(prev, k, prev.len() as int) {
            Some(p0) => lemma_dedup_step_update(ups, n, prev, p0),
            None => lemma_dedup_step_push(ups, n, prev),
        }
    }
}

/// A line sets at most one key that holds no `=`.
proof fn lemma_sets_key_unique(line: Seq<char>, k1: Seq<char>, k2: Seq<char>)
    requires
        sets_key(line, k1),
        sets_key(line, k2),
        !k1.contains('='),
        !k2.contains('='),
    ensures
        k1 == k2,
{
    reveal_strlit("=");
    let t = trim_start(line);
    let p1 = k1 + "="@;
    let p2 = k2 + "="@;
    assert(t.subrange(0, p1.len() as int) == p1);
    assert(t.subrange(0, p2.len() as int) == p2);
    if k1.len() < k2.len() {
        let n = k1.len() as int;
        assert(t.subrange(0, p1.len() as int)[n] == p1[n]);
        assert(t.subrange(0, p2.len() as int)[n] == p2[n]);
        assert(k2[n] == '=');
    } else if k2.len() < k1.len() {
        let n = k2.len() as int;
        assert(t.subrange(0, p1.len() as int)[n] == p1[n]);
        assert(t.subrange(0, p2.len() as int)[n] == p2[n]);
        assert(k1[n] == '=');
    } else {
        assert forall|i: int| 0 <= i < k1.len() implies k1[i] == k2[i] by {
            assert(t.subrange(0, p1.len() as int)[i] == p1[i]);
            assert(t.subrange(0, p2.len() as int)[i] == p2[i]);
        }
        assert(k1 =~= k2);
    }
}

proof fn lemma_first_update_some(line: Seq<char>, ups: Seq<(Seq<char>, Seq<char>)>, n: int, p: int)
    requires
        0 <= p < n <= ups.len(),
        sets_key(line, ups[p].0),
    ensures
        first_update_for(line, ups, n) matches Some(q) && 0 <= q < n && sets_key(line, ups[q].0),
    decreases n,
{
    if p < n - 1 {
        lemma_first_update_some(line, ups, n - 1, p);
    } else {
        lemma_first_update_bound(line, ups, n - 1);
        match first_update_for(line, ups, n - 1) {
            Some(q) => {
                lemma_first_update_sets(line, ups, n - 1);
            },
            None => {},
        }
    }
}

proof fn lemma_first_update_sets(line: Seq<char>, ups: Seq<(Seq<char>, Seq<char>)>, n: int)
    ensures
        first_update_for(line, ups, n) matches Some(q) ==> sets_key(line, ups[q].0),
    decreases n,
{
    if n > 0 {
        lemma_first_update_sets(line, ups, n - 1);
    }
}

/// After the updates, the file holds a `KEY=value` line for every key
/// updated, with the last value given for it: the line that set the key was
/// rewritten, or one was appended. (Keys are taken to hold no `=`; a line
/// could otherwise set two keys at once.)
pub proof fn lemma_update_sets_every_key(lines: Seq<Seq<char>>, ups: Seq<(Seq<char>, Seq<char>)>, j: int)
    requires
        0 <= j < ups.len(),
        forall|q: int| 0 <= q < ups.len() ==> !(#[trigger] ups[q].0).contains('='),
    ensures
        last_value(ups, ups[j].0, ups.len() as int) matches Some(v) && updated_lines(lines, ups).contains(
            env_line(ups[j].0, v),
        ),
{
    let d = effective_updates(ups);
    let r = updated_lines(lines, ups);
    let rw = rewrite_all(lines, d);
    lemma_deduped(ups, ups.len() as int);
    let p = choose|p: int| 0 <= p < d.len() && (#[trigger] d[p]).0 == #[trigger] ups[j].0;
    assert(last_value(ups, d[p].0, ups.len() as int) == Some(d[p].1));
    assert forall|q: int| 0 <= q < d.len() implies !(#[trigger] d[q].0).contains('=') by {
        let jq = choose|jj: int| 0 <= jj < ups.len() && (#[trigger] d[q]).0 == #[trigger] ups[jj].0;
        assert(!ups[jq].0.contains('='));
    }
    if update_applied(lines, d, p) {
        let i = choose|i: int| 0 <= i < lines.len() && sets_key(#[trigger] lines[i], d[p].0);
        lemma_first_update_some(lines[i], d, d.len() as int, p);
        let q = first_update_for(lines[i], d, d.len() as int)->Some_0;
        assert(!d[q].0.contains('='));
        assert(!d[p].0.contains('='));
        lemma_sets_key_unique(lines[i], d[q].0, d[p].0);
        if q != p {
            if q < p {
                assert(d[q].0 != d[p].0);
            } else {
                assert(d[p].0 != d[q].0);
            }
        }
        assert(rw[i] == rewritten(lines[i], d));
        assert(r[i] == rw[i]);
    } else {
        lemma_appended_has(lines, d, d.len() as int, p);
        let a = appended(lines, d, d.len() as int);
        let k = choose|k: int| 0 <= k < a.len() && a[k] == env_line(d[p].0, d[p].1);
        assert(r[rw.len() + k] == a[k]);
    }
}

/// Lines that set none of the updated keys are kept as they were.
pub proof fn lemma_update_keeps_other_lines(lines: Seq<Seq<char>>, ups: Seq<(Seq<char>, Seq<char>)>, i: int)
    requires
        0 <= i < lines.len(),
        forall|j: int| 0 <= j < ups.len() ==> !sets_key(lines[i], #[trigger] ups[j].0),
    ensures
        updated_lines(lines, ups)[i] == lines[i],
{
    let d = effective_updates(ups);
    lemma_deduped(ups, ups.len() as int);
    assert forall|q: int| 0 <= q < d.len() implies !sets_key(lines[i], #[trigger] d[q].0) by {
        let jq = choose|jj: int| 0 <= jj < ups.len() && (#[trigger] d[q]).0 == #[trigger] ups[jj].0;
        assert(!sets_key(lines[i], ups[jq].0));
    }
    lemma_no_update_for(lines[i], d, d.len() as int);
}

proof fn lemma_no_update_for(line: Seq<char>, ups: Seq<(Seq<char>, Seq<char>)>, n: int)
    requires
        n <= ups.len(),
        forall|j: int| 0 <= j < ups.len() ==> !sets_key(line, #[trigger] ups[j].0),
    ensures
        first_update_for(line, ups, n) is None,
    decreases n,
{
    if n > 0 {
        lemma_no_update_for(line, ups, n - 1);
        assert(!sets_key(line, ups[n - 1].0));
    }
}

} // verus!
