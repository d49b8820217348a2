//! The logs on the `git-annex` branch.
//!
//! A log is a list of lines, each with a time. For each repository the line with the latest
//! time counts and, of lines with that time, the last one.

use vstd::prelude::*;
use vstd::slice::slice_subrange;
use crate::order::{arrange, arranged, key_less, law_sorted, sorted_texts, SortKey};
use crate::table::{map_of, pairs_of, StrMap, StrSet};
use crate::text::{after_char, before_char, begins_with, chars_of, contains_text, copy_chars, cut_at_char, find, find_index, has_text, i64_of, lemma_chars_deep, lemma_text_less_total, lemma_text_less_transitive, lines, lines_of, parse_i64, parse_u32, parse_u64, same_text, split_chars, split_on, split_once, split_once_of, starts_with, string_of, text_less, trim, trim_end, trim_end_char, trim_end_char_of, trim_end_of, trim_of, u32_of, u64_of, words, words_of, Text};
use crate::trust::{trust_of, TrustLevel};

verus! {

// ---------------------------------------------------------------------------------------
// Times and sizes

/// The unix seconds of a log time such as `1317929189.157237s`.
pub open spec fn timestamp_of(raw: Text) -> Option<i64> {
    let s = trim(trim_end_char(trim(raw), 's'));
    if s.len() == 0 {
        None
    } else {
        parse_i64(before_char(s, '.'))
    }
}

fn timestamp_chars(raw: &[char]) -> (r: Option<i64>)
    ensures
        r == timestamp_of(raw@),
{
    let s = trim_of(trim_end_char_of(trim_of(raw), 's'));
    if s.len() == 0 {
        return None;
    }
    let (secs, _rest) = cut_at_char(s, '.');
    i64_of(secs)
}

/// Parses a log time (`1317929189.157237s` or `1317929189s`) to unix seconds.
pub fn parse_annex_timestamp(raw: &str) -> (r: Option<i64>)
    ensures
        r == timestamp_of(raw@),
{
    let c = chars_of(raw);
    timestamp_chars(c.as_slice())
}

/// What stands on a log line before its time, and the time.
pub open spec fn split_time(line: Text) -> (Text, Option<i64>) {
    match find(line, " timestamp="@) {
        Some(p) => (
            trim_end(line.take(p)),
            timestamp_of(line.skip(p + " timestamp="@.len())),
        ),
        None => match find(line, "timestamp="@) {
            Some(p) => (
                trim_end(line.take(p)),
                timestamp_of(line.skip(p + "timestamp="@.len())),
            ),
            None => (line, None),
        },
    }
}

/// What stands on a log line before its time, and the time.
pub fn split_log_timestamp(line: &[char]) -> (r: (&[char], Option<i64>))
    ensures
        (r.0@, r.1) == split_time(line@),
{
    let n: usize = line.len();
    let spaced = chars_of(" timestamp=");
    if let Some(p) = find_index(line, spaced.as_slice()) {
        let head = slice_subrange(line, 0, p);
        let tail = slice_subrange(line, p + spaced.len(), n);
        assert(head@ =~= line@.take(p as int));
        assert(tail@ =~= line@.skip(p + spaced@.len()));
        return (trim_end_of(head), timestamp_chars(tail));
    }
    let plain = chars_of("timestamp=");
    if let Some(p) = find_index(line, plain.as_slice()) {
        let head = slice_subrange(line, 0, p);
        let tail = slice_subrange(line, p + plain.len(), n);
        assert(head@ =~= line@.take(p as int));
        assert(tail@ =~= line@.skip(p + plain@.len()));
        return (trim_end_of(head), timestamp_chars(tail));
    }
    (line, None)
}

/// The first of `fields` that is an `s` followed by a number: that number.
pub open spec fn first_size(fields: Seq<Text>) -> Option<u64>
    decreases fields.len(),
{
    if fields.len() == 0 {
        None
    } else if fields[0].len() > 0 && fields[0][0] == 's' && parse_u64(fields[0].skip(1)) is Some {
        parse_u64(fields[0].skip(1))
    } else {
        first_size(fields.drop_first())
    }
}

/// The part of a key before its first double dash.
pub open spec fn key_prefix(key: Text) -> Text {
    match find(key, "--"@) {
        Some(p) => key.take(p),
        None => key,
    }
}

/// The size that a key records: `BACKEND[-sSIZE][-mMTIME][-S..]--HASH`.
pub open spec fn key_size(key: Text) -> Option<u64> {
    first_size(split_on(key_prefix(key), '-').skip(1))
}

/// The size that a key records.
pub fn parse_size_from_key(key: &str) -> (r: Option<u64>)
    ensures
        r == key_size(key@),
{
    let c = chars_of(key);
    let dashes = chars_of("--");
    let prefix = match find_index(c.as_slice(), dashes.as_slice()) {
        Some(p) => slice_subrange(c.as_slice(), 0, p),
        None => c.as_slice(),
    };
    assert(prefix@ =~= key_prefix(key@));
    let fields = split_chars(prefix, '-');
    let ghost all = fields.deep_view();
    let mut i: usize = 1;
    while i < fields.len()
        invariant
            1 <= i <= fields@.len(),
            all == fields.deep_view(),
            key_size(key@) == first_size(all.skip(i as int)),
        decreases fields@.len() - i,
    {
        let field = fields[i].as_slice();
        proof {
            lemma_chars_deep(fields@[i as int]);
            assert(all.skip(i as int)[0] == field@);
            assert(all.skip(i as int).drop_first() =~= all.skip(i + 1));
        }
        if field.len() > 0 && field[0] == 's' {
            let rest = slice_subrange(field, 1, field.len());
            assert(rest@ =~= field@.skip(1));
            let n = u64_of(rest);
            if n.is_some() {
                return n;
            }
        }
        i += 1;
    }
    None
}

// ---------------------------------------------------------------------------------------
// Latest lines

/// One line of a log: the repository, the time, and what is recorded of it.
pub ghost struct Entry<T> {
    pub uuid: Text,
    pub time: i64,
    pub value: T,
}

/// What counts after the lines of a log, where `entry` reads a line: for each repository the
/// time and the record of its latest line.
pub open spec fn newest<T>(log: Seq<Text>, entry: spec_fn(Text) -> Option<Entry<T>>) -> Map<
    Text,
    (i64, T),
>
    decreases log.len(),
{
    if log.len() == 0 {
        Map::empty()
    } else {
        let m = newest(log.drop_last(), entry);
        match entry(log.last()) {
            Some(e) => if m.contains_key(e.uuid) && e.time < m[e.uuid].0 {
                m
            } else {
                m.insert(e.uuid, (e.time, e.value))
            },
            None => m,
        }
    }
}

/// The records of the latest lines.
pub open spec fn records<T>(m: Map<Text, (i64, T)>) -> Map<Text, T> {
    m.map_values(|p: (i64, T)| p.1)
}

/// Line `i` of the log is the one that counts for the repository `u`: no line for `u` has a
/// later time, and no line after it the same time.
pub open spec fn is_latest<T>(
    log: Seq<Text>,
    entry: spec_fn(Text) -> Option<Entry<T>>,
    u: Text,
    i: int,
) -> bool {
    &&& 0 <= i < log.len()
    &&& entry(log[i]) is Some
    &&& entry(log[i])->0.uuid == u
    &&& forall|j: int|
        0 <= j < log.len() && (#[trigger] entry(log[j])) is Some && entry(log[j])->0.uuid == u ==> {
            &&& entry(log[j])->0.time <= entry(log[i])->0.time
            &&& j > i ==> entry(log[j])->0.time < entry(log[i])->0.time
        }
}

/// The last write wins: a repository has a record exactly when some line speaks of it, and
/// then the record of the line with the latest time, the last one of those.
pub proof fn law_last_write_wins<T>(
    log: Seq<Text>,
    entry: spec_fn(Text) -> Option<Entry<T>>,
    u: Text,
)
    ensures
        newest(log, entry).contains_key(u) <==> exists|i: int|
            0 <= i < log.len() && (#[trigger] entry(log[i])) is Some && entry(log[i])->0.uuid == u,
        newest(log, entry).contains_key(u) ==> exists|i: int| #[trigger]
            is_latest(log, entry, u, i) && newest(log, entry)[u] == (
                entry(log[i])->0.time,
                entry(log[i])->0.value,
            ),
    decreases log.len(),
{
    if log.len() > 0 {
        let rest = log.drop_last();
        let n = log.len() - 1;
        law_last_write_wins(rest, entry, u);
        let before = newest(rest, entry);
        if before.contains_key(u) {
            let k = choose|k: int| #[trigger]
                is_latest(rest, entry, u, k) && before[u] == (entry(rest[k])->0.time, entry(rest[k])->0.value);
            assert(log[k] == rest[k]);
            assert(entry(log[k]) is Some);
            let speaks = entry(log[n]) is Some && entry(log[n])->0.uuid == u;
            if speaks && !(entry(log[n])->0.time < before[u].0) {
                assert forall|j: int|
                    0 <= j < log.len() && (#[trigger] entry(log[j])) is Some && entry(log[j])->0.uuid
                        == u implies {
                    &&& entry(log[j])->0.time <= entry(log[n])->0.time
                    &&& j > n ==> entry(log[j])->0.time < entry(log[n])->0.time
                } by {
                    if j < n {
                        assert(log[j] == rest[j]);
                        assert(entry(rest[j]) is Some);
                    }
                }
                assert(is_latest(log, entry, u, n));
            } else {
                assert forall|j: int|
                    0 <= j < log.len() && (#[trigger] entry(log[j])) is Some && entry(log[j])->0.uuid
                        == u implies {
                    &&& entry(log[j])->0.time <= entry(log[k])->0.time
                    &&& j > k ==> entry(log[j])->0.time < entry(log[k])->0.time
                } by {
                    if j < n {
                        assert(log[j] == rest[j]);
                        assert(entry(rest[j]) is Some);
                    }
                }
                assert(is_latest(log, entry, u, k));
            }
        } else {
            if entry(log[n]) is Some && entry(log[n])->0.uuid == u {
                assert forall|j: int|
                    0 <= j < log.len() && (#[trigger] entry(log[j])) is Some && entry(log[j])->0.uuid
                        == u implies {
                    &&& entry(log[j])->0.time <= entry(log[n])->0.time
                    &&& j > n ==> entry(log[j])->0.time < entry(log[n])->0.time
                } by {
                    if j < n {
                        assert(log[j] == rest[j]);
                        assert(entry(rest[j]) is Some);
                    }
                }
                assert(is_latest(log, entry, u, n));
            } else {
                assert forall|i: int|
                    0 <= i < log.len() && (#[trigger] entry(log[i])) is Some implies entry(
                    log[i],
                )->0.uuid != u by {
                    if i < n {
                        assert(log[i] == rest[i]);
                        assert(entry(rest[i]) is Some);
                    }
                }
            }
        }
    }
}

/// Only finitely many repositories have a record.
pub proof fn lemma_newest_finite<T>(log: Seq<Text>, entry: spec_fn(Text) -> Option<Entry<T>>)
    ensures
        newest(log, entry).dom().finite(),
    decreases log.len(),
{
    if log.len() > 0 {
        lemma_newest_finite(log.drop_last(), entry);
    }
}

/// Keeps the later of what is there and the new value. A value without a time counts as
/// from the start of time.
pub fn keep_latest<T>(slot: &mut Option<(i64, T)>, ts: Option<i64>, value: T)
    ensures
        *final(slot) == (if *old(slot) is Some && (match ts {
            Some(t) => t,
            None => 0i64,
        }) < ((*old(slot))->0).0 {
            *old(slot)
        } else {
            Some(
                (
                    match ts {
                        Some(t) => t,
                        None => 0i64,
                    },
                    value,
                ),
            )
        }),
{
    let t: i64 = match ts {
        Some(t) => t,
        None => 0,
    };
    let stale: bool = match slot {
        Some(pair) => t < pair.0,
        None => false,
    };
    if !stale {
        *slot = Some((t, value));
    }
}

/// Takes a line into account.
fn record<V: DeepView>(latest: &mut StrMap<(i64, V)>, u: String, t: i64, v: V)
    ensures
        final(latest)@ == (if old(latest)@.contains_key(u@) && t < old(latest)@[u@].0 {
            old(latest)@
        } else {
            old(latest)@.insert(u@, (t, v.deep_view()))
        }),
{
    let stale: bool = match latest.get(u.as_str()) {
        Some(pair) => t < pair.0,
        None => false,
    };
    if !stale {
        latest.insert(u, (t, v));
    }
}

/// The records without their times.
fn strip_times<V: DeepView>(latest: StrMap<(i64, V)>) -> (r: StrMap<V>)
    ensures
        r@ == records(latest@),
{
    let ghost m = latest@;
    let _n: usize = latest.len();
    let ghost p = pairs_of(m);
    let mut rest = latest.into_pairs();
    let mut out: StrMap<V> = StrMap::new();
    proof {
        crate::table::lemma_ordered_distinct(p);
        assert(records(map_of(p.skip(p.len() as int))) =~= Map::<Text, V::V>::empty());
    }
    while rest.len() > 0
        invariant
            rest@.len() <= p.len(),
            crate::table::distinct_keys(p),
            rest.deep_view() == p.take(rest@.len() as int),
            out@ == records(map_of(p.skip(rest@.len() as int))),
        decreases rest@.len(),
    {
        let n: usize = rest.len();
        let ghost x = p[n - 1];
        assert(rest.deep_view()[n - 1] == x);
        let last = rest.pop();
        assert(rest.deep_view() =~= p.take(n - 1));
        match last {
            Some(pair) => {
                let (u, (_t, v)) = pair;
                assert(x.0 == u@ && (x.1).1 == v.deep_view());
                out.insert(u, v);
                proof {
                    lemma_map_of_front(p, n - 1);
                    assert(records(map_of(p.skip(n - 1))) =~= records(
                        map_of(p.skip(n as int)),
                    ).insert(x.0, (x.1).1));
                }
            },
            None => {
                assert(false);
            },
        }
    }
    assert(p.skip(0) =~= p);
    out
}

/// Adding the pair in front of `p.skip(i + 1)` adds its key.
pub proof fn lemma_map_of_front<A, B>(p: Seq<(A, B)>, i: int)
    requires
        crate::table::distinct_keys(p),
        0 <= i < p.len(),
    ensures
        map_of(p.skip(i)) == map_of(p.skip(i + 1)).insert(p[i].0, p[i].1),
{
    let s = p.skip(i);
    let t = p.skip(i + 1);
    assert forall|a: int, b: int| 0 <= a < s.len() && 0 <= b < s.len() && a != b implies (
    #[trigger] s[a]).0 != (#[trigger] s[b]).0 by {
        assert(p[i + a].0 != p[i + b].0);
    }
    assert forall|a: int, b: int| 0 <= a < t.len() && 0 <= b < t.len() && a != b implies (
    #[trigger] t[a]).0 != (#[trigger] t[b]).0 by {
        assert(p[i + 1 + a].0 != p[i + 1 + b].0);
    }
    crate::table::lemma_map_of(s);
    crate::table::lemma_map_of(t);
    assert forall|k: A| #[trigger] map_of(s).contains_key(k) <==> map_of(t).contains_key(k) || k
        == p[i].0 by {
        if crate::table::has_key(s, k) {
            let j = crate::table::key_index(s, k);
            assert(s[j].0 == k);
            if j > 0 {
                assert(t[j - 1].0 == k);
            }
        }
        if crate::table::has_key(t, k) {
            let j = crate::table::key_index(t, k);
            assert(s[j + 1].0 == k);
        }
        if k == p[i].0 {
            assert(s[0].0 == k);
        }
    }
    assert forall|k: A| #[trigger] map_of(s).contains_key(k) implies map_of(s)[k] == map_of(
        t,
    ).insert(p[i].0, p[i].1)[k] by {
        let j = crate::table::key_index(s, k);
        assert(s[j].0 == k);
        if j > 0 {
            assert(t[j - 1] == s[j]);
            assert(s[j].0 != s[0].0);
        }
    }
    assert(map_of(s) =~= map_of(t).insert(p[i].0, p[i].1));
}

/// The time of a line: the start of time where it has none.
pub open spec fn time_or_start(t: Option<i64>) -> i64 {
    match t {
        Some(t) => t,
        None => 0,
    }
}

fn time_of(t: Option<i64>) -> (r: i64)
    ensures
        r == time_or_start(t),
{
    match t {
        Some(t) => t,
        None => 0,
    }
}

// ---------------------------------------------------------------------------------------
// Lines and words

/// The lines of a log, trimmed, without the blank ones.
pub open spec fn log_lines(text: Text) -> Seq<Text> {
    lines(text).map_values(|l: Text| trim(l)).filter(|l: Text| l.len() > 0)
}

/// The lines of a log, trimmed, without the blank ones.
pub fn log_lines_of(text: &str) -> (r: Vec<Vec<char>>)
    ensures
        r.deep_view() == log_lines(text@),
{
    let c = chars_of(text);
    let all = lines_of(c.as_slice());
    let ghost trimmed = all.deep_view().map_values(|l: Text| trim(l));
    let ghost keep = |l: Text| l.len() > 0;
    let mut out: Vec<Vec<char>> = Vec::new();
    let mut i: usize = 0;
    proof {
        reveal(Seq::filter);
        assert(trimmed.take(0).filter(keep) =~= Seq::<Text>::empty());
        assert(out.deep_view() =~= Seq::<Text>::empty());
    }
    while i < all.len()
        invariant
            i <= all@.len(),
            trimmed == all.deep_view().map_values(|l: Text| trim(l)),
            keep == (|l: Text| l.len() > 0),
            out.deep_view() == trimmed.take(i as int).filter(keep),
        decreases all@.len() - i,
    {
        let ghost before = out.deep_view();
        let line = trim_of(all[i].as_slice());
        proof {
            lemma_chars_deep(all@[i as int]);
            reveal(Seq::filter);
            assert(trimmed.take(i + 1).drop_last() =~= trimmed.take(i as int));
            assert(trimmed.take(i + 1).last() == line@);
        }
        if line.len() > 0 {
            let copy = copy_chars(line);
            proof {
                lemma_chars_deep(copy);
            }
            out.push(copy);
            assert(out.deep_view() =~= before.push(line@));
        }
        i += 1;
    }
    assert(trimmed.take(i as int) =~= trimmed);
    out
}

/// The first of the words, or nothing.
pub open spec fn first_word(w: Seq<Text>) -> Option<Text> {
    if w.len() > 0 && w[0].len() > 0 {
        Some(w[0])
    } else {
        None
    }
}

// ---------------------------------------------------------------------------------------
// uuid.log

/// What a line of `uuid.log` records: the description of a repository, which is its uuid
/// where it is blank.
pub open spec fn uuid_entry(line: Text) -> Option<Entry<Text>> {
    let (body, ts) = split_time(line);
    let uuid = before_char(body, ' ');
    let desc = trim(after_char(body, ' '));
    if uuid.len() == 0 {
        None
    } else {
        Some(
            Entry {
                uuid,
                time: time_or_start(ts),
                value: if desc.len() == 0 {
                    uuid
                } else {
                    desc
                },
            },
        )
    }
}

/// The latest descriptions that `uuid.log` records.
pub open spec fn uuid_log(text: Text) -> Map<Text, (i64, Text)> {
    newest(log_lines(text), |l: Text| uuid_entry(l))
}

/// The rows of `uuid.log`: each repository with its latest description and its time, in
/// ascending order of the uuids.
pub open spec fn uuid_rows(text: Text) -> Seq<(Text, Text, Option<i64>)> {
    pairs_of(uuid_log(text)).map_values(
        |p: (Text, (i64, Text))| (p.0, (p.1).1, Some((p.1).0)),
    )
}

/// Parses `uuid.log`. For each uuid the line with the latest time counts.
pub fn parse_uuid_log(text: &str) -> (r: Vec<(String, String, Option<i64>)>)
    ensures
        r.deep_view() == uuid_rows(text@),
{
    let all = log_lines_of(text);
    let ghost l = all.deep_view();
    let ghost entry = |s: Text| uuid_entry(s);
    let mut latest: StrMap<(i64, String)> = StrMap::new();
    let mut i: usize = 0;
    while i < all.len()
        invariant
            i <= all@.len(),
            l == all.deep_view(),
            entry == (|s: Text| uuid_entry(s)),
            latest@ == newest(l.take(i as int), entry),
        decreases all@.len() - i,
    {
        let line = all[i].as_slice();
        proof {
            lemma_chars_deep(all@[i as int]);
            assert(l.take(i + 1).drop_last() =~= l.take(i as int));
            assert(l.take(i + 1).last() == line@);
        }
        let (body, ts) = split_log_timestamp(line);
        let (head, tail) = cut_at_char(body, ' ');
        if head.len() > 0 {
            let uuid = string_of(head);
            let trimmed = trim_of(tail);
            let desc = if trimmed.len() == 0 {
                uuid.clone()
            } else {
                string_of(trimmed)
            };
            record(&mut latest, uuid, time_of(ts), desc);
        }
        i += 1;
    }
    assert(l.take(i as int) =~= l);
    let n: usize = latest.len();
    let ghost p = pairs_of(latest@);
    let mut out: Vec<(String, String, Option<i64>)> = Vec::new();
    let mut k: usize = 0;
    let ghost rows = uuid_rows(text@);
    assert(out.deep_view() =~= rows.take(0));
    while k < n
        invariant
            k <= n,
            n == p.len(),
            p == pairs_of(latest@),
            rows.len() == p.len(),
            forall|j: int| 0 <= j < p.len() ==> #[trigger] rows[j] == (
                p[j].0,
                (p[j].1).1,
                Some((p[j].1).0),
            ),
            out.deep_view() == rows.take(k as int),
        decreases n - k,
    {
        let ghost before = out.deep_view();
        let uuid = latest.key_at(k).clone();
        let pair = latest.value_at(k);
        let ts: i64 = pair.0;
        let desc = pair.1.clone();
        out.push((uuid, desc, Some(ts)));
        assert(out.deep_view() =~= before.push(rows[k as int]));
        assert(rows.take(k + 1) =~= rows.take(k as int).push(rows[k as int]));
        k += 1;
    }
    assert(rows.take(k as int) =~= rows);
    out
}

// ---------------------------------------------------------------------------------------
// remote.log

/// The names of settings whose values are not to be shown or stored.
pub open spec fn is_secret(k: Text) -> bool {
    ||| k == "cipher"@
    ||| k == "embedcreds"@
    ||| k == "encryptionkey"@
    ||| k == "secret"@
    ||| k == "password"@
    ||| k == "keyid"@
}

/// Whether the value of the setting `k` is not to be shown or stored.
pub fn is_secret_remote_key(k: &str) -> (r: bool)
    ensures
        r == is_secret(k@),
{
    same_text(k, "cipher") || same_text(k, "embedcreds") || same_text(k, "encryptionkey")
        || same_text(k, "secret") || same_text(k, "password") || same_text(k, "keyid")
}

/// The value that is kept for a setting.
pub open spec fn kept_value(k: Text, v: Text) -> Text {
    if is_secret(k) {
        "[redacted]"@
    } else {
        v
    }
}

/// The settings among `tokens`: those of the form `name=value`, a later one in place of an
/// earlier one of the same name.
pub open spec fn settings(tokens: Seq<Text>) -> Map<Text, Text>
    decreases tokens.len(),
{
    if tokens.len() == 0 {
        Map::empty()
    } else {
        let m = settings(tokens.drop_last());
        match split_once(tokens.last(), '=') {
            Some((k, v)) => m.insert(k, kept_value(k, v)),
            None => m,
        }
    }
}

/// What a line of `remote.log` records: the settings of a special remote.
pub open spec fn remote_entry(line: Text) -> Option<Entry<Map<Text, Text>>> {
    let (body, ts) = split_time(line);
    let w = words(body);
    match first_word(w) {
        Some(uuid) => Some(
            Entry { uuid, time: time_or_start(ts), value: settings(w.drop_first()) },
        ),
        None => None,
    }
}

/// The latest settings that `remote.log` records.
pub open spec fn remote_log(text: Text) -> Map<Text, Map<Text, Text>> {
    records(newest(log_lines(text), |l: Text| remote_entry(l)))
}

fn settings_of(w: &Vec<Vec<char>>) -> (r: StrMap<String>)
    requires
        w@.len() > 0,
    ensures
        r@ == settings(w.deep_view().drop_first()),
{
    let ghost tokens = w.deep_view().drop_first();
    let mut cfg: StrMap<String> = StrMap::new();
    let mut i: usize = 1;
    assert(tokens.take(0) =~= Seq::<Text>::empty());
    while i < w.len()
        invariant
            1 <= i <= w@.len(),
            tokens == w.deep_view().drop_first(),
            cfg@ == settings(tokens.take(i - 1)),
        decreases w@.len() - i,
    {
        let tok = w[i].as_slice();
        proof {
            lemma_chars_deep(w@[i as int]);
            assert(tokens.take(i as int).drop_last() =~= tokens.take(i - 1));
            assert(tokens.take(i as int).last() == tok@);
        }
        if let Some((k, v)) = split_once_of(tok, '=') {
            let name = string_of(k);
            let value = if is_secret_remote_key(name.as_str()) {
                "[redacted]".to_string()
            } else {
                string_of(v)
            };
            cfg.insert(name, value);
        }
        i += 1;
    }
    assert(tokens.take(i - 1) =~= tokens);
    cfg
}

/// Parses `remote.log`: the settings of each special remote, the secret ones redacted.
pub fn parse_remote_log(text: &str) -> (r: StrMap<StrMap<String>>)
    ensures
        r@ == remote_log(text@),
{
    let all = log_lines_of(text);
    let ghost l = all.deep_view();
    let ghost entry = |s: Text| remote_entry(s);
    let mut latest: StrMap<(i64, StrMap<String>)> = StrMap::new();
    let mut i: usize = 0;
    while i < all.len()
        invariant
            i <= all@.len(),
            l == all.deep_view(),
            entry == (|s: Text| remote_entry(s)),
            latest@ == newest(l.take(i as int), entry),
        decreases all@.len() - i,
    {
        let line = all[i].as_slice();
        proof {
            lemma_chars_deep(all@[i as int]);
            assert(l.take(i + 1).drop_last() =~= l.take(i as int));
            assert(l.take(i + 1).last() == line@);
        }
        let (body, ts) = split_log_timestamp(line);
        let w = words_of(body);
        proof {
            if w@.len() > 0 {
                lemma_chars_deep(w@[0]);
            }
        }
        if w.len() > 0 && w[0].len() > 0 {
            let cfg = settings_of(&w);
            record(&mut latest, string_of(w[0].as_slice()), time_of(ts), cfg);
        }
        i += 1;
    }
    assert(l.take(i as int) =~= l);
    strip_times(latest)
}

// ---------------------------------------------------------------------------------------
// trust.log

/// What a line of `trust.log` records: how far a repository is trusted.
pub open spec fn trust_entry(line: Text) -> Option<Entry<TrustLevel>> {
    let (body, ts) = split_time(line);
    let w = words(body);
    match first_word(w) {
        Some(uuid) => Some(
            Entry {
                uuid,
                time: time_or_start(ts),
                value: trust_of(
                    if w.len() > 1 {
                        w[1]
                    } else {
                        "?"@
                    },
                ),
            },
        ),
        None => None,
    }
}

/// The latest trust levels that `trust.log` records.
pub open spec fn trust_log(text: Text) -> Map<Text, TrustLevel> {
    records(newest(log_lines(text), |l: Text| trust_entry(l)))
}

/// Parses `trust.log`: how far each repository is trusted.
pub fn parse_trust_log(text: &str) -> (r: StrMap<TrustLevel>)
    ensures
        r@ == trust_log(text@),
{
    let all = log_lines_of(text);
    let ghost l = all.deep_view();
    let ghost entry = |s: Text| trust_entry(s);
    let mut latest: StrMap<(i64, TrustLevel)> = StrMap::new();
    let mut i: usize = 0;
    while i < all.len()
        invariant
            i <= all@.len(),
            l == all.deep_view(),
            entry == (|s: Text| trust_entry(s)),
            latest@ == newest(l.take(i as int), entry),
        decreases all@.len() - i,
    {
        let line = all[i].as_slice();
        proof {
            lemma_chars_deep(all@[i as int]);
            assert(l.take(i + 1).drop_last() =~= l.take(i as int));
            assert(l.take(i + 1).last() == line@);
        }
        let (body, ts) = split_log_timestamp(line);
        let w = words_of(body);
        proof {
            if w@.len() > 0 {
                lemma_chars_deep(w@[0]);
            }
            if w@.len() > 1 {
                lemma_chars_deep(w@[1]);
            }
        }
        if w.len() > 0 && w[0].len() > 0 {
            let flag = if w.len() > 1 {
                string_of(w[1].as_slice())
            } else {
                "?".to_string()
            };
            let level = TrustLevel::from_token(flag.as_str());
            record(&mut latest, string_of(w[0].as_slice()), time_of(ts), level);
        }
        i += 1;
    }
    assert(l.take(i as int) =~= l);
    strip_times(latest)
}

// ---------------------------------------------------------------------------------------
// activity.log

/// The repository and the time of a line that records a check of its content.
pub open spec fn fsck_of(line: Text) -> Option<(Text, i64)> {
    let w = words(line);
    if w.len() > 0 && contains_text(line, "Fsck"@) && (split_time(line).1) is Some {
        Some((w[0], (split_time(line).1)->0))
    } else {
        None
    }
}

/// The latest check of each repository that the lines record.
pub open spec fn fsck_times(log: Seq<Text>) -> Map<Text, i64>
    decreases log.len(),
{
    if log.len() == 0 {
        Map::empty()
    } else {
        let m = fsck_times(log.drop_last());
        match fsck_of(log.last()) {
            Some((u, t)) => if m.contains_key(u) && t <= m[u] {
                m
            } else {
                m.insert(u, t)
            },
            None => m,
        }
    }
}

/// The latest check of each repository that `activity.log` records.
pub open spec fn activity_log(text: Text) -> Map<Text, i64> {
    fsck_times(log_lines(text))
}

/// The time for a repository is that of its latest check.
pub proof fn law_fsck_is_latest(log: Seq<Text>, u: Text)
    ensures
        fsck_times(log).contains_key(u) <==> exists|i: int|
            0 <= i < log.len() && (#[trigger] fsck_of(log[i])) is Some && (fsck_of(log[i])->0).0 == u,
        fsck_times(log).contains_key(u) ==> forall|i: int|
            0 <= i < log.len() && (#[trigger] fsck_of(log[i])) is Some && (fsck_of(log[i])->0).0 == u
                ==> (fsck_of(log[i])->0).1 <= fsck_times(log)[u],
        fsck_times(log).contains_key(u) ==> exists|i: int|
            0 <= i < log.len() && #[trigger] fsck_of(log[i]) == Some((u, fsck_times(log)[u])),
    decreases log.len(),
{
    if log.len() > 0 {
        let rest = log.drop_last();
        let n = log.len() - 1;
        law_fsck_is_latest(rest, u);
        let before = fsck_times(rest);
        let after = fsck_times(log);
        assert forall|i: int| 0 <= i < n implies #[trigger] log[i] == rest[i] by {}
        if before.contains_key(u) {
            let k = choose|k: int|
                0 <= k < rest.len() && #[trigger] fsck_of(rest[k]) == Some((u, before[u]));
            assert(fsck_of(log[k]) is Some);
            assert(fsck_of(log[n]) == fsck_of(log.last()));
            assert forall|i: int|
                0 <= i < log.len() && (#[trigger] fsck_of(log[i])) is Some && (fsck_of(log[i])->0).0
                    == u implies (fsck_of(log[i])->0).1 <= after[u] by {
                if i < n {
                    assert(fsck_of(rest[i]) is Some);
                }
            }
            if after[u] == before[u] {
                assert(fsck_of(log[k]) == Some((u, after[u])));
            } else {
                assert(fsck_of(log[n]) == Some((u, after[u])));
            }
        } else {
            assert forall|i: int| 0 <= i < n && (#[trigger] fsck_of(log[i])) is Some implies (fsck_of(
                log[i],
            )->0).0 != u by {
                assert(fsck_of(rest[i]) is Some);
            }
            if fsck_of(log[n]) is Some && (fsck_of(log[n])->0).0 == u {
                assert(fsck_of(log[n]) == Some((u, after[u])));
            }
        }
    }
}

/// Parses `activity.log` (`UUID Fsck timestamp=UNIXs`): when each repository was last checked.
pub fn parse_activity_log(text: &str) -> (r: StrMap<i64>)
    ensures
        r@ == activity_log(text@),
{
    let all = log_lines_of(text);
    let ghost l = all.deep_view();
    let mut m: StrMap<i64> = StrMap::new();
    let mut i: usize = 0;
    while i < all.len()
        invariant
            i <= all@.len(),
            l == all.deep_view(),
            m@ == fsck_times(l.take(i as int)),
        decreases all@.len() - i,
    {
        let line = all[i].as_slice();
        proof {
            lemma_chars_deep(all@[i as int]);
            assert(l.take(i + 1).drop_last() =~= l.take(i as int));
            assert(l.take(i + 1).last() == line@);
        }
        let w = words_of(line);
        proof {
            if w@.len() > 0 {
                lemma_chars_deep(w@[0]);
            }
        }
        if w.len() > 0 && has_text(line, "Fsck") {
            let (_body, ts) = split_log_timestamp(line);
            if let Some(t) = ts {
                let uuid = string_of(w[0].as_slice());
                let older: bool = match m.get(uuid.as_str()) {
                    Some(e) => t <= *e,
                    None => false,
                };
                if !older {
                    m.insert(uuid, t);
                }
            }
        }
        i += 1;
    }
    assert(l.take(i as int) =~= l);
    m
}

// ---------------------------------------------------------------------------------------
// group.log

/// `s` without the members that repeat the one before them.
pub open spec fn dedup(s: Seq<Text>) -> Seq<Text>
    decreases s.len(),
{
    if s.len() == 0 {
        s
    } else if s.len() > 1 && s.last() == s[s.len() - 2] {
        dedup(s.drop_last())
    } else {
        dedup(s.drop_last()).push(s.last())
    }
}

/// The groups among the words of a line, each once, in ascending order.
pub open spec fn groups_of(tokens: Seq<Text>) -> Seq<Text> {
    dedup(
        sorted_texts(
            tokens.filter(|g: Text| g.len() > 0 && !starts_with(g, "timestamp="@)),
        ),
    )
}

/// What a line of `group.log` records: all groups that a repository is in.
pub open spec fn group_entry(line: Text) -> Option<Entry<Seq<Text>>> {
    let (body, ts) = split_time(line);
    let w = words(body);
    match first_word(w) {
        Some(uuid) => Some(
            Entry { uuid, time: time_or_start(ts), value: groups_of(w.drop_first()) },
        ),
        None => None,
    }
}

/// The latest groups that `group.log` records.
pub open spec fn group_log(text: Text) -> Map<Text, Seq<Text>> {
    records(newest(log_lines(text), |l: Text| group_entry(l)))
}

/// The strings in ascending order.
pub fn sort_strings(v: Vec<String>) -> (r: Vec<String>)
    ensures
        r.deep_view() == sorted_texts(v.deep_view()),
{
    let ghost d = v.deep_view();
    let ghost key = |t: Text| (0int, t);
    let mut keys: Vec<SortKey> = Vec::new();
    let mut i: usize = 0;
    assert(keys.deep_view() =~= d.take(0).map_values(key));
    while i < v.len()
        invariant
            i <= v@.len(),
            d == v.deep_view(),
            key == (|t: Text| (0int, t)),
            keys@.len() == i,
            keys.deep_view() == d.take(i as int).map_values(key),
        decreases v@.len() - i,
    {
        let ghost before = keys.deep_view();
        keys.push(SortKey::new(0, v[i].as_str()));
        assert(keys.deep_view() =~= before.push((0int, d[i as int])));
        assert(d.take(i + 1).map_values(key) =~= d.take(i as int).map_values(key).push(
            (0int, d[i as int]),
        ));
        i += 1;
    }
    assert(d.take(i as int) =~= d);
    let out = arrange(v, &keys);
    proof {
        let ks = keys.deep_view();
        crate::order::lemma_order(ks);
        assert(out.deep_view() =~= arranged(d, ks));
    }
    out
}

/// The strings without those that repeat the one before them.
fn dedup_strings(v: &Vec<String>) -> (r: Vec<String>)
    ensures
        r.deep_view() == dedup(v.deep_view()),
{
    let ghost d = v.deep_view();
    let mut out: Vec<String> = Vec::new();
    let mut i: usize = 0;
    assert(out.deep_view() =~= dedup(d.take(0)));
    while i < v.len()
        invariant
            i <= v@.len(),
            d == v.deep_view(),
            out.deep_view() == dedup(d.take(i as int)),
        decreases v@.len() - i,
    {
        let ghost before = out.deep_view();
        proof {
            assert(d.take(i + 1).drop_last() =~= d.take(i as int));
            assert(d.take(i + 1).last() == d[i as int]);
            if i > 0 {
                assert(d.take(i + 1)[i - 1] == d[i - 1]);
            }
        }
        if !(i > 0 && v[i] == v[i - 1]) {
            out.push(v[i].clone());
            assert(out.deep_view() =~= before.push(d[i as int]));
        }
        i += 1;
    }
    assert(d.take(i as int) =~= d);
    out
}

fn groups_of_words(w: &Vec<Vec<char>>) -> (r: Vec<String>)
    requires
        w@.len() > 0,
    ensures
        r.deep_view() == groups_of(w.deep_view().drop_first()),
{
    let ghost tokens = w.deep_view().drop_first();
    let ghost keep = |g: Text| g.len() > 0 && !starts_with(g, "timestamp="@);
    let mut groups: Vec<String> = Vec::new();
    let mut i: usize = 1;
    proof {
        reveal(Seq::filter);
        assert(tokens.take(0).filter(keep) =~= Seq::<Text>::empty());
        assert(groups.deep_view() =~= Seq::<Text>::empty());
    }
    while i < w.len()
        invariant
            1 <= i <= w@.len(),
            tokens == w.deep_view().drop_first(),
            keep == (|g: Text| g.len() > 0 && !starts_with(g, "timestamp="@)),
            groups.deep_view() == tokens.take(i - 1).filter(keep),
        decreases w@.len() - i,
    {
        let tok = w[i].as_slice();
        let ghost before = groups.deep_view();
        proof {
            lemma_chars_deep(w@[i as int]);
            reveal(Seq::filter);
            assert(tokens.take(i as int).drop_last() =~= tokens.take(i - 1));
            assert(tokens.take(i as int).last() == tok@);
        }
        if tok.len() > 0 && !begins_with(tok, "timestamp=") {
            groups.push(string_of(tok));
            assert(groups.deep_view() =~= before.push(tok@));
        }
        i += 1;
    }
    assert(tokens.take(i - 1) =~= tokens);
    let sorted = sort_strings(groups);
    dedup_strings(&sorted)
}

/// Parses `group.log` (`UUID group1 group2 ... timestamp=UNIX.s`): the groups of each
/// repository.
pub fn parse_group_log(text: &str) -> (r: StrMap<Vec<String>>)
    ensures
        r@ == group_log(text@),
{
    let all = log_lines_of(text);
    let ghost l = all.deep_view();
    let ghost entry = |s: Text| group_entry(s);
    let mut latest: StrMap<(i64, Vec<String>)> = StrMap::new();
    let mut i: usize = 0;
    while i < all.len()
        invariant
            i <= all@.len(),
            l == all.deep_view(),
            entry == (|s: Text| group_entry(s)),
            latest@ == newest(l.take(i as int), entry),
        decreases all@.len() - i,
    {
        let line = all[i].as_slice();
        proof {
            lemma_chars_deep(all@[i as int]);
            assert(l.take(i + 1).drop_last() =~= l.take(i as int));
            assert(l.take(i + 1).last() == line@);
        }
        let (body, ts) = split_log_timestamp(line);
        let w = words_of(body);
        proof {
            if w@.len() > 0 {
                lemma_chars_deep(w@[0]);
            }
        }
        if w.len() > 0 && w[0].len() > 0 {
            let groups = groups_of_words(&w);
            record(&mut latest, string_of(w[0].as_slice()), time_of(ts), groups);
        }
        i += 1;
    }
    assert(l.take(i as int) =~= l);
    strip_times(latest)
}

// ---------------------------------------------------------------------------------------
// preferred-content.log and required-content.log

/// What a line of a content log records: the expression for a repository.
pub open spec fn content_entry(line: Text) -> Option<Entry<Text>> {
    let (body, ts) = split_time(line);
    let uuid = before_char(body, ' ');
    if uuid.len() == 0 {
        None
    } else {
        Some(Entry { uuid, time: time_or_start(ts), value: trim(after_char(body, ' ')) })
    }
}

/// The latest expressions that a content log records.
pub open spec fn content_log(text: Text) -> Map<Text, Text> {
    records(newest(log_lines(text), |l: Text| content_entry(l)))
}

/// Parses `preferred-content.log` or `required-content.log`: the expression for each
/// repository.
pub fn parse_content_log(text: &str) -> (r: StrMap<String>)
    ensures
        r@ == content_log(text@),
{
    let all = log_lines_of(text);
    let ghost l = all.deep_view();
    let ghost entry = |s: Text| content_entry(s);
    let mut latest: StrMap<(i64, String)> = StrMap::new();
    let mut i: usize = 0;
    while i < all.len()
        invariant
            i <= all@.len(),
            l == all.deep_view(),
            entry == (|s: Text| content_entry(s)),
            latest@ == newest(l.take(i as int), entry),
        decreases all@.len() - i,
    {
        let line = all[i].as_slice();
        proof {
            lemma_chars_deep(all@[i as int]);
            assert(l.take(i + 1).drop_last() =~= l.take(i as int));
            assert(l.take(i + 1).last() == line@);
        }
        let (body, ts) = split_log_timestamp(line);
        let (head, tail) = cut_at_char(body, ' ');
        if head.len() > 0 {
            record(&mut latest, string_of(head), time_of(ts), string_of(trim_of(tail)));
        }
        i += 1;
    }
    assert(l.take(i as int) =~= l);
    strip_times(latest)
}

// ---------------------------------------------------------------------------------------
// numcopies.log and mincopies.log

/// The time and the number on a line of a count log (`timestamp number`).
pub open spec fn count_of(line: Text) -> Option<(i64, u32)> {
    let w = words(line);
    if w.len() > 1 && timestamp_of(w[0]) is Some && parse_u32(w[1]) is Some {
        Some((timestamp_of(w[0])->0, parse_u32(w[1])->0))
    } else {
        None
    }
}

/// The time and the number of the latest line of a count log.
pub open spec fn latest_count(log: Seq<Text>) -> Option<(i64, u32)>
    decreases log.len(),
{
    if log.len() == 0 {
        None
    } else {
        let best = latest_count(log.drop_last());
        match count_of(log.last()) {
            Some((t, n)) => match best {
                Some((old, _)) if t < old => best,
                _ => Some((t, n)),
            },
            None => best,
        }
    }
}

/// The number that a count log records.
pub open spec fn count_log(text: Text) -> Option<u32> {
    match latest_count(log_lines(text)) {
        Some((_, n)) => Some(n),
        None => None,
    }
}

/// Parses `numcopies.log` or `mincopies.log` (`timestamp number`): the latest number.
pub fn parse_count_log(text: &str) -> (r: Option<u32>)
    ensures
        r == count_log(text@),
{
    let all = log_lines_of(text);
    let ghost l = all.deep_view();
    let mut best: Option<(i64, u32)> = None;
    let mut i: usize = 0;
    while i < all.len()
        invariant
            i <= all@.len(),
            l == all.deep_view(),
            best == latest_count(l.take(i as int)),
        decreases all@.len() - i,
    {
        let line = all[i].as_slice();
        proof {
            lemma_chars_deep(all@[i as int]);
            assert(l.take(i + 1).drop_last() =~= l.take(i as int));
            assert(l.take(i + 1).last() == line@);
        }
        let w = words_of(line);
        if w.len() > 1 {
            proof {
                lemma_chars_deep(w@[0]);
                lemma_chars_deep(w@[1]);
            }
            if let Some(ts) = timestamp_chars(w[0].as_slice()) {
                if let Some(n) = u32_of(w[1].as_slice()) {
                    keep_latest(&mut best, Some(ts), n);
                }
            }
        }
        i += 1;
    }
    assert(l.take(i as int) =~= l);
    match best {
        Some((_ts, n)) => Some(n),
        None => None,
    }
}

// ---------------------------------------------------------------------------------------
// Locations

/// A repository in the answer of `git annex whereis --json`.
#[derive(Debug)]
pub struct WhereisRemoteJson {
    pub uuid: String,
}

impl DeepView for WhereisRemoteJson {
    type V = Text;

    open spec fn deep_view(&self) -> Text {
        self.uuid@
    }
}

/// One line of the answer of `git annex whereis --json`: a key and the repositories that
/// have its content, the untrusted ones apart.
#[derive(Debug)]
pub struct WhereisJson {
    pub key: Option<String>,
    pub whereis: Vec<WhereisRemoteJson>,
    pub untrusted: Vec<WhereisRemoteJson>,
}

/// What a [`WhereisJson`] stands for.
pub ghost struct WhereisView {
    pub key: Option<Text>,
    pub whereis: Seq<Text>,
    pub untrusted: Seq<Text>,
}

impl DeepView for WhereisJson {
    type V = WhereisView;

    open spec fn deep_view(&self) -> WhereisView {
        WhereisView {
            key: self.key.deep_view(),
            whereis: self.whereis.deep_view(),
            untrusted: self.untrusted.deep_view(),
        }
    }
}

/// The repositories that have the content, the untrusted ones among them.
pub open spec fn whereis_uuids(w: WhereisView) -> Set<Text> {
    Set::new(|u: Text| u.len() > 0 && (w.whereis.contains(u) || w.untrusted.contains(u)))
}

impl WhereisJson {
    /// The repositories that have the content, the untrusted ones among them.
    pub fn uuids(&self) -> (r: StrSet)
        ensures
            r@ == whereis_uuids(self.deep_view()),
    {
        let mut out = StrSet::new();
        Self::collect(&self.whereis, &mut out);
        Self::collect(&self.untrusted, &mut out);
        assert(out@ =~= whereis_uuids(self.deep_view()));
        out
    }

    fn collect(list: &Vec<WhereisRemoteJson>, out: &mut StrSet)
        ensures
            final(out)@ == old(out)@.union(
                Set::new(|u: Text| u.len() > 0 && list.deep_view().contains(u)),
            ),
    {
        let ghost d = list.deep_view();
        let ghost start = out@;
        let mut i: usize = 0;
        proof {
            assert(start =~= start.union(
                Set::new(|u: Text| u.len() > 0 && d.take(0).contains(u)),
            ));
        }
        while i < list.len()
            invariant
                i <= list@.len(),
                d == list.deep_view(),
                out@ == start.union(
                    Set::new(|u: Text| u.len() > 0 && d.take(i as int).contains(u)),
                ),
            decreases list@.len() - i,
        {
            let u = &list[i].uuid;
            assert(d[i as int] == u@);
            if !u.as_str().is_empty() {
                out.insert(u.clone());
            }
            proof {
                let a = Set::new(|v: Text| v.len() > 0 && d.take(i as int).contains(v));
                let b = Set::new(|v: Text| v.len() > 0 && d.take(i + 1).contains(v));
                assert(d.take(i + 1) =~= d.take(i as int).push(d[i as int]));
                assert forall|v: Text| b.contains(v) <==> a.contains(v) || (v == u@ && v.len() > 0) by {
                    if d.take(i as int).contains(v) {
                        let k = choose|k: int| 0 <= k < i && d.take(i as int)[k] == v;
                        assert(d.take(i + 1)[k] == v);
                    }
                    if v == u@ {
                        assert(d.take(i + 1)[i as int] == v);
                    }
                }
                assert(out@ =~= start.union(b));
            }
            i += 1;
        }
        assert(d.take(i as int) =~= d);
    }
}

/// The lines of an answer that hold a record each.
pub fn whereis_json_lines(stdout: &str) -> (r: Vec<String>)
    ensures
        r.deep_view() == log_lines(stdout@),
{
    let all = log_lines_of(stdout);
    let ghost l = all.deep_view();
    let mut out: Vec<String> = Vec::new();
    let mut i: usize = 0;
    assert(out.deep_view() =~= l.take(0));
    while i < all.len()
        invariant
            i <= all@.len(),
            l == all.deep_view(),
            out.deep_view() == l.take(i as int),
        decreases all@.len() - i,
    {
        let ghost before = out.deep_view();
        proof {
            lemma_chars_deep(all@[i as int]);
        }
        out.push(string_of(all[i].as_slice()));
        assert(out.deep_view() =~= before.push(l[i as int]));
        assert(l.take(i + 1) =~= l.take(i as int).push(l[i as int]));
        i += 1;
    }
    assert(l.take(i as int) =~= l);
    out
}

/// Where the content of each key is, by the records of an answer. A line that holds no
/// record, and a record without a key, say nothing; of two records for a key the later counts.
pub open spec fn locations_of(answer: Seq<Option<WhereisView>>) -> Map<Text, Set<Text>>
    decreases answer.len(),
{
    if answer.len() == 0 {
        Map::empty()
    } else {
        let m = locations_of(answer.drop_last());
        match answer.last() {
            Some(w) => match w.key {
                Some(key) => m.insert(key, whereis_uuids(w)),
                None => m,
            },
            None => m,
        }
    }
}

/// Where the content of each key is, by the records that the lines of an answer hold.
pub fn parse_whereis_records(answer: &Vec<Option<WhereisJson>>) -> (r: StrMap<StrSet>)
    ensures
        r@ == locations_of(answer.deep_view()),
{
    let ghost d = answer.deep_view();
    let mut out: StrMap<StrSet> = StrMap::new();
    let mut i: usize = 0;
    while i < answer.len()
        invariant
            i <= answer@.len(),
            d == answer.deep_view(),
            out@ == locations_of(d.take(i as int)),
        decreases answer@.len() - i,
    {
        proof {
            assert(d.take(i + 1).drop_last() =~= d.take(i as int));
            assert(d.take(i + 1).last() == d[i as int]);
        }
        if let Some(w) = &answer[i] {
            if let Some(key) = &w.key {
                out.insert(key.clone(), w.uuids());
            }
        }
        i += 1;
    }
    assert(d.take(i as int) =~= d);
    out
}

/// Every repository in one of the sets of `s`.
pub open spec fn all_locations(s: Seq<(Text, Set<Text>)>) -> Set<Text>
    decreases s.len(),
{
    if s.len() == 0 {
        Set::empty()
    } else {
        all_locations(s.drop_last()).union(s.last().1)
    }
}

/// Every repository that the records name: what an answer about a single key comes to.
pub fn merge_locations(answer: &Vec<Option<WhereisJson>>) -> (r: StrSet)
    ensures
        r@ == all_locations(pairs_of(locations_of(answer.deep_view()))),
{
    let m = parse_whereis_records(answer);
    let n: usize = m.len();
    let ghost p = pairs_of(m@);
    let mut out = StrSet::new();
    let mut i: usize = 0;
    while i < n
        invariant
            i <= n,
            n == p.len(),
            p == pairs_of(m@),
            out@ == all_locations(p.take(i as int)),
        decreases n - i,
    {
        proof {
            assert(p.take(i + 1).drop_last() =~= p.take(i as int));
            assert(p.take(i + 1).last() == p[i as int]);
        }
        out.extend(m.value_at(i));
        i += 1;
    }
    assert(p.take(i as int) =~= p);
    out
}

// ---------------------------------------------------------------------------------------
// Laws

/// A secret setting is never read from `remote.log` with its value.
pub proof fn law_settings_hold_no_secret(tokens: Seq<Text>, k: Text)
    requires
        settings(tokens).contains_key(k),
        is_secret(k),
    ensures
        settings(tokens)[k] == "[redacted]"@,
    decreases tokens.len(),
{
    if tokens.len() > 0 {
        if settings(tokens.drop_last()).contains_key(k) {
            law_settings_hold_no_secret(tokens.drop_last(), k);
        }
    }
}

/// No secret of any drive comes out of `remote.log`.
pub proof fn law_remote_log_holds_no_secret(text: Text, u: Text, k: Text)
    requires
        remote_log(text).contains_key(u),
        remote_log(text)[u].contains_key(k),
        is_secret(k),
    ensures
        remote_log(text)[u][k] == "[redacted]"@,
{
    let log = log_lines(text);
    let entry = |l: Text| remote_entry(l);
    law_last_write_wins(log, entry, u);
    let i = choose|i: int| #[trigger]
        is_latest(log, entry, u, i) && newest(log, entry)[u] == (
            entry(log[i])->0.time,
            entry(log[i])->0.value,
        );
    let w = words(split_time(log[i]).0);
    law_settings_hold_no_secret(w.drop_first(), k);
}

/// Drives that are not trusted count among the locations, as the others do.
pub proof fn law_untrusted_count(w: WhereisView, u: Text)
    ensures
        whereis_uuids(w).contains(u) <==> u.len() > 0 && (w.whereis.contains(u)
            || w.untrusted.contains(u)),
{
}

/// What a log says of a number is the number of its latest line, the last one of those.
pub proof fn law_latest_count(log: Seq<Text>)
    ensures
        latest_count(log) is Some <==> exists|i: int|
            0 <= i < log.len() && (#[trigger] count_of(log[i])) is Some,
        latest_count(log) matches Some(best) ==> {
            &&& exists|i: int| 0 <= i < log.len() && #[trigger] count_of(log[i]) == Some(best)
            &&& forall|i: int|
                0 <= i < log.len() && (#[trigger] count_of(log[i])) is Some ==> (count_of(
                    log[i],
                )->0).0 <= best.0
        },
    decreases log.len(),
{
    if log.len() > 0 {
        let rest = log.drop_last();
        let n = log.len() - 1;
        law_latest_count(rest);
        assert(count_of(log[n]) == count_of(log.last()));
        assert forall|i: int| 0 <= i < n implies #[trigger] log[i] == rest[i] by {}
        if let Some(best) = latest_count(rest) {
            let k = choose|k: int| 0 <= k < rest.len() && #[trigger] count_of(rest[k]) == Some(best);
            assert(count_of(log[k]) == Some(best));
            assert forall|i: int|
                0 <= i < log.len() && (#[trigger] count_of(log[i])) is Some implies (count_of(
                log[i],
            )->0).0 <= (latest_count(log)->0).0 by {
                if i < n {
                    assert(count_of(rest[i]) is Some);
                }
            }
        } else {
            assert forall|i: int| 0 <= i < n implies (#[trigger] count_of(log[i])) is None by {
                assert(count_of(rest[i]) is None);
            }
        }
    }
}

/// Whether the texts ascend, with repetitions allowed.
pub open spec fn not_descending(s: Seq<Text>) -> bool {
    forall|i: int, j: int|
        0 <= i < j < s.len() ==> !text_less(#[trigger] s[j], #[trigger] s[i])
}

proof fn lemma_dedup(s: Seq<Text>)
    requires
        not_descending(s),
    ensures
        forall|i: int, j: int|
            0 <= i < j < dedup(s).len() ==> text_less(
                #[trigger] dedup(s)[i],
                #[trigger] dedup(s)[j],
            ),
        forall|x: Text| #[trigger] dedup(s).contains(x) <==> s.contains(x),
        s.len() > 0 ==> dedup(s).len() > 0 && dedup(s).last() == s.last(),
    decreases s.len(),
{
    if s.len() > 0 {
        let rest = s.drop_last();
        let d = dedup(rest);
        let n = s.len() - 1;
        assert(not_descending(rest)) by {
            assert forall|i: int, j: int| 0 <= i < j < rest.len() implies !text_less(
                #[trigger] rest[j],
                #[trigger] rest[i],
            ) by {
                assert(rest[i] == s[i] && rest[j] == s[j]);
            }
        }
        lemma_dedup(rest);
        assert(s[n] == s.last());
        assert forall|x: Text| s.contains(x) <==> rest.contains(x) || x == s.last() by {
            if rest.contains(x) {
                let k = choose|k: int| 0 <= k < rest.len() && rest[k] == x;
                assert(s[k] == x);
            }
            if s.contains(x) {
                let k = choose|k: int| 0 <= k < s.len() && s[k] == x;
                if k < n {
                    assert(rest[k] == x);
                }
            }
        }
        if s.len() > 1 && s.last() == s[s.len() - 2] {
            assert(rest.last() == s.last());
            assert(rest.contains(s.last())) by {
                assert(rest[rest.len() - 1] == s.last());
            }
        } else {
            let e = dedup(s);
            assert(e == d.push(s.last()));
            assert forall|i: int, j: int| 0 <= i < j < e.len() implies text_less(
                #[trigger] e[i],
                #[trigger] e[j],
            ) by {
                if j < d.len() {
                    assert(e[i] == d[i] && e[j] == d[j]);
                } else {
                    let top = rest.last();
                    assert(top == s[n - 1]);
                    lemma_text_less_total(top, s.last());
                    assert(text_less(top, s.last()));
                    if i < d.len() - 1 {
                        assert(text_less(d[i], d[d.len() - 1]));
                        lemma_text_less_transitive(d[i], top, s.last());
                    }
                }
            }
            assert forall|x: Text| #[trigger] e.contains(x) <==> s.contains(x) by {
                if d.contains(x) {
                    let k = choose|k: int| 0 <= k < d.len() && d[k] == x;
                    assert(e[k] == x);
                }
                if x == s.last() {
                    assert(e[d.len() as int] == x);
                }
                if e.contains(x) {
                    let k = choose|k: int| 0 <= k < e.len() && e[k] == x;
                    if k < d.len() {
                        assert(d[k] == x);
                    }
                }
            }
        }
    }
}

/// A repository has each of its groups once, in ascending order, and no others.
pub proof fn law_groups_each_once(tokens: Seq<Text>)
    ensures
        forall|i: int, j: int|
            0 <= i < j < groups_of(tokens).len() ==> text_less(
                #[trigger] groups_of(tokens)[i],
                #[trigger] groups_of(tokens)[j],
            ),
        forall|g: Text| #[trigger]
            groups_of(tokens).contains(g) <==> tokens.contains(g) && g.len() > 0 && !starts_with(
                g,
                "timestamp="@,
            ),
{
    let keep = |g: Text| g.len() > 0 && !starts_with(g, "timestamp="@);
    let kept = tokens.filter(keep);
    let key = |t: Text| (0int, t);
    law_sorted(kept, key);
    let s = sorted_texts(kept);
    assert(not_descending(s)) by {
        assert forall|i: int, j: int| 0 <= i < j < s.len() implies !text_less(
            #[trigger] s[j],
            #[trigger] s[i],
        ) by {
            assert(!key_less(key(s[j]), key(s[i])));
        }
    }
    lemma_dedup(s);
    assert forall|g: Text| #[trigger] groups_of(tokens).contains(g) <==> tokens.contains(g)
        && g.len() > 0 && !starts_with(g, "timestamp="@) by {
        if kept.contains(g) {
            tokens.lemma_filter_contains_rev(keep, g);
            let k = choose|k: int| 0 <= k < kept.len() && kept[k] == g;
            tokens.lemma_filter_pred(keep, k);
        }
        if tokens.contains(g) && keep(g) {
            let k = choose|k: int| 0 <= k < tokens.len() && tokens[k] == g;
            tokens.lemma_filter_contains(keep, k);
        }
    }
}

/// Only finitely many keys have locations.
pub proof fn lemma_locations_finite(answer: Seq<Option<WhereisView>>)
    ensures
        locations_of(answer).dom().finite(),
    decreases answer.len(),
{
    if answer.len() > 0 {
        lemma_locations_finite(answer.drop_last());
    }
}

} // verus!
