//! What is written into texts and logs is read from them.

use vstd::prelude::*;
use crate::logs::{activity_log, all_locations, content_entry, content_log, count_log, count_of, fsck_of, group_entry, group_log, groups_of, is_latest, is_secret, key_size, kept_value, law_fsck_is_latest, law_last_write_wins, latest_count, lemma_newest_finite, locations_of, log_lines, first_size, key_prefix, newest, records, remote_entry, remote_log, settings, split_time, timestamp_of, trust_entry, trust_log, uuid_entry, uuid_log, uuid_rows, Entry, WhereisView};
use crate::secrets::{lemma_find_is, lemma_next_of_add, lemma_split_line, lemma_split_some, lemma_trim_end_add, lemma_trim_end_char_add, lemma_trim_start_add, lemma_trim_start_solid, lemma_word, lemma_words_add, lemma_words_of_spaces, lemma_words_trim_end};
use crate::table::{lemma_filter_front, lemma_map_of, lemma_ordered_distinct, lemma_pairs_of_finite, map_of, pairs_of};
use crate::text::{after_char, all_digits, before_char, contains_text, decimal, find, is_digit, is_space, join, law_contains_text, law_decimal_read_back, lemma_find_from, lemma_next_of, lines, next_of, parse_i64, parse_u32, parse_u64, rfind, rfind_from, split_on, split_once, stands_at, starts_with, strip_cr, text_less, trim, trim_end, trim_end_char, trim_start, words, Text};
use crate::trust::{trust_of, TrustLevel};

verus! {

// ---------------------------------------------------------------------------------------
// White space

/// Whether the text is white space, or empty.
pub open spec fn is_gap(t: Text) -> bool {
    forall|i: int| 0 <= i < t.len() ==> is_space(#[trigger] t[i])
}

/// Whether the text is a word: there is something of it, and no white space in it.
pub open spec fn is_word(t: Text) -> bool {
    t.len() > 0 && forall|i: int| 0 <= i < t.len() ==> !is_space(#[trigger] t[i])
}

/// Whether the text neither begins nor ends with white space, and is not empty.
pub open spec fn is_solid(t: Text) -> bool {
    t.len() > 0 && !is_space(t[0]) && !is_space(t.last())
}

proof fn lemma_word_is_solid(t: Text)
    requires
        is_word(t),
    ensures
        is_solid(t),
{
    assert(!is_space(t[0]));
    assert(!is_space(t[t.len() - 1]));
}

proof fn lemma_gap_trims(t: Text)
    requires
        is_gap(t),
    ensures
        trim_end(t).len() == 0,
    decreases t.len(),
{
    if t.len() > 0 {
        assert(is_space(t[t.len() - 1]));
        assert forall|i: int| 0 <= i < t.drop_last().len() implies is_space(
            #[trigger] t.drop_last()[i],
        ) by {
            assert(t[i] == t.drop_last()[i]);
        }
        lemma_gap_trims(t.drop_last());
    }
}

/// White space around a text is taken away, and nothing else.
pub proof fn law_white_space_is_taken_away(a: Text, t: Text, b: Text)
    requires
        is_gap(a),
        is_gap(b),
    ensures
        is_solid(t) ==> trim(a + t + b) == t,
        trim(a) == Seq::<char>::empty(),
{
    lemma_words_of_spaces(a);
    assert(trim_start(a) =~= Seq::<char>::empty());
    assert(trim(a) =~= Seq::<char>::empty());
    if is_solid(t) {
        assert(a + t + b =~= a + (t + b));
        lemma_trim_start_add(a, t + b);
        assert((t + b)[0] == t[0]);
        lemma_trim_start_solid(t + b);
        lemma_trim_end_add(t, b);
        lemma_gap_trims(b);
        assert(t + trim_end(b) =~= t);
    }
}

proof fn lemma_trim_solid(t: Text)
    requires
        is_solid(t),
    ensures
        trim(t) == t,
        trim_end(t) == t,
        trim_start(t) == t,
{
}

/// A word after white space is read as the last one; white space at the end makes no
/// difference, and white space alone holds no word.
pub proof fn law_words_are_read(x: Text, gap: Text, w: Text)
    requires
        is_gap(gap),
        gap.len() > 0,
        is_word(w),
    ensures
        words(x + gap + w) == words(x).push(w),
        words(x + gap) == words(x),
        words(gap).len() == 0,
        words(w) == seq![w],
{
    lemma_words_of_spaces(gap);
    lemma_word(w);
    assert(is_space(gap[0]));
    assert(is_space(gap[gap.len() - 1]));
    lemma_words_add(x, gap);
    assert(words(x) + words(gap) =~= words(x));
    assert((x + gap).last() == gap.last());
    lemma_words_add(x + gap, w);
    assert(words(x + gap) + words(w) =~= words(x).push(w));
}

// ---------------------------------------------------------------------------------------
// Pieces and lines

/// What stands before a separator is the first piece, and what follows it is split further; a
/// text without a separator is one piece.
pub proof fn law_pieces_are_read(x: Text, y: Text, c: char)
    requires
        forall|i: int| 0 <= i < x.len() ==> #[trigger] x[i] != c,
    ensures
        split_on(x + seq![c] + y, c) == seq![x] + split_on(y, c),
        split_on(x, c) == seq![x],
{
    let tail = seq![c] + y;
    lemma_split_line(x, tail, c);
    assert(x + tail =~= x + seq![c] + y);
    assert(tail.skip(1) =~= y);
    let none = Seq::<char>::empty();
    lemma_split_line(x, none, c);
    assert(x + none =~= x);
    assert(seq![x] + Seq::<Text>::empty() =~= seq![x]);
}

/// Texts that are joined are read back as the pieces.
pub proof fn law_joined_pieces_are_read_back(list: Seq<Text>, c: char)
    requires
        list.len() > 0,
        forall|k: int, i: int|
            0 <= k < list.len() && 0 <= i < list[k].len() ==> #[trigger] list[k][i] != c,
    ensures
        split_on(join(list, seq![c]), c) == list,
    decreases list.len(),
{
    let last = list[list.len() - 1];
    law_pieces_are_read(last, Seq::empty(), c);
    if list.len() > 1 {
        let rest = list.drop_last();
        assert forall|k: int, i: int| 0 <= k < rest.len() && 0 <= i < rest[k].len() implies #[trigger] rest[k][i]
            != c by {
            assert(list[k][i] != c);
        }
        law_joined_pieces_are_read_back(rest, c);
        lemma_split_after(join(rest, seq![c]), last, c);
        assert(split_on(join(list, seq![c]), c) =~= list);
    } else {
        assert(seq![last] =~= list);
    }
}

/// What follows a separator without another one is the last piece.
pub proof fn lemma_split_after(x: Text, y: Text, c: char)
    requires
        forall|i: int| 0 <= i < y.len() ==> #[trigger] y[i] != c,
    ensures
        split_on(x + seq![c] + y, c) == split_on(x, c).push(y),
    decreases x.len(),
{
    let all = x + seq![c] + y;
    lemma_next_of(x, c, 0);
    let j = next_of(x, c, 0);
    if j < x.len() {
        let rest = x.skip(j + 1);
        lemma_next_of_add(x, seq![c] + y, c, 0);
        assert(all =~= x + (seq![c] + y));
        lemma_split_after(rest, y, c);
        assert(all.take(j) =~= x.take(j));
        assert(all.skip(j + 1) =~= rest + seq![c] + y);
        assert(split_on(all, c) =~= seq![x.take(j)] + split_on(rest, c).push(y));
        assert(split_on(x, c).push(y) =~= seq![x.take(j)] + split_on(rest, c).push(y));
    } else {
        law_pieces_are_read(x, y, c);
        law_pieces_are_read(y, Seq::empty(), c);
        assert(seq![x] + seq![y] =~= seq![x].push(y));
    }
}

/// A text that is put at the end of a list is joined on.
pub proof fn law_joining(list: Seq<Text>, sep: Text, x: Text)
    ensures
        join(Seq::empty(), sep).len() == 0,
        join(seq![x], sep) == x,
        list.len() > 0 ==> join(list.push(x), sep) == join(list, sep) + sep + x,
{
    assert(list.push(x).drop_last() =~= list);
}

/// A line ends at a line feed, with or without a carriage return before it; the last line
/// needs none. What follows is read further.
pub proof fn law_lines_are_read(x: Text, y: Text)
    requires
        forall|i: int| 0 <= i < x.len() ==> #[trigger] x[i] != '\n',
        x.len() == 0 || x.last() != '\r',
    ensures
        lines(x + seq!['\n'] + y) == seq![x] + lines(y),
        lines(x + seq!['\r', '\n'] + y) == seq![x] + lines(y),
        x.len() > 0 ==> lines(x) == seq![x],
        lines(Seq::empty()).len() == 0,
{
    law_pieces_are_read(x, y, '\n');
    lemma_lines_on(x, x, y);
    let z = x.push('\r');
    assert forall|i: int| 0 <= i < z.len() implies #[trigger] z[i] != '\n' by {
        if i < x.len() {
            assert(z[i] == x[i]);
        }
    }
    assert(z.drop_last() =~= x);
    lemma_lines_on(z, x, y);
    assert(z + seq!['\n'] + y =~= x + seq!['\r', '\n'] + y);
    let none = Seq::<char>::empty();
    law_pieces_are_read(none, none, '\n');
    assert(split_on(x, '\n').drop_last() =~= Seq::<Text>::empty());
    assert(lines(none) =~= Seq::<Text>::empty());
    if x.len() > 0 {
        assert(lines(x) =~= seq![x]);
    }
}

proof fn lemma_lines_on(z: Text, x: Text, y: Text)
    requires
        forall|i: int| 0 <= i < z.len() ==> #[trigger] z[i] != '\n',
        strip_cr(z) == x,
    ensures
        lines(z + seq!['\n'] + y) == seq![x] + lines(y),
{
    law_pieces_are_read(z, y, '\n');
    lemma_split_some(y, '\n');
    let strip = |p: Text| strip_cr(p);
    let parts = split_on(y, '\n');
    let all = seq![z] + parts;
    assert(all.drop_last() =~= seq![z] + parts.drop_last());
    assert(all.last() == parts.last());
    assert(all.drop_last().map_values(strip) =~= seq![x] + parts.drop_last().map_values(strip));
    assert(lines(z + seq!['\n'] + y) =~= seq![x] + lines(y));
}

/// The last place of a text is one after which there is none.
pub proof fn law_last_place(s: Text, pat: Text)
    ensures
        rfind(s, pat) is Some <==> exists|i: int| #[trigger] stands_at(s, pat, i),
        rfind(s, pat) matches Some(p) ==> stands_at(s, pat, p) && forall|i: int| #[trigger]
            stands_at(s, pat, i) ==> i <= p,
{
    lemma_rfind(s, pat, s.len() - pat.len());
}

proof fn lemma_rfind(s: Text, pat: Text, n: int)
    ensures
        rfind_from(s, pat, n) is Some <==> exists|i: int| i <= n && #[trigger] stands_at(s, pat, i),
        rfind_from(s, pat, n) matches Some(p) ==> p <= n && stands_at(s, pat, p) && forall|i: int|
            i <= n && #[trigger] stands_at(s, pat, i) ==> i <= p,
    decreases n + 1,
{
    if n >= 0 && !stands_at(s, pat, n) {
        lemma_rfind(s, pat, n - 1);
    }
}

/// Texts are in order by their first difference; a text comes before those that go on from
/// it.
pub proof fn law_text_order(p: Text, a: Text, b: Text)
    ensures
        a.len() > 0 && b.len() > 0 && (a[0] as int) < (b[0] as int) ==> text_less(p + a, p + b)
            && !text_less(p + b, p + a),
        b.len() > 0 ==> text_less(p, p + b) && !text_less(p + b, p),
        !text_less(p, p),
    decreases p.len(),
{
    if p.len() == 0 {
        assert(p + a =~= a);
        assert(p + b =~= b);
    } else {
        law_text_order(p.drop_first(), a, b);
        assert((p + a).drop_first() =~= p.drop_first() + a);
        assert((p + b).drop_first() =~= p.drop_first() + b);
    }
}

// ---------------------------------------------------------------------------------------
// Numbers

/// A number that is written is read back if it fits, with or without a sign; one that does not
/// fit is not read.
pub proof fn law_numbers_are_read_back(n: nat)
    ensures
        parse_u64(decimal(n)) == (if n <= u64::MAX {
            Some(n as u64)
        } else {
            None
        }),
        parse_u32(decimal(n)) == (if n <= u32::MAX {
            Some(n as u32)
        } else {
            None
        }),
        parse_i64(decimal(n)) == (if n <= i64::MAX {
            Some(n as i64)
        } else {
            None
        }),
        parse_u64(seq!['+'] + decimal(n)) == parse_u64(decimal(n)),
        parse_i64(seq!['-'] + decimal(n)) == (if n <= i64::MAX + 1 {
            Some((-n) as i64)
        } else {
            None
        }),
{
    law_decimal_read_back(n);
    let d = decimal(n);
    assert(is_digit(d[0]));
    let plus = seq!['+'] + d;
    let minus = seq!['-'] + d;
    assert(plus.skip(1) =~= d);
    assert(minus.skip(1) =~= d);
    assert(d[0] != '+' && d[0] != '-');
}

/// A text with anything but digits in it, but for a sign at its start, is no number; nor is an
/// empty one, nor a sign alone. Only a number that may be negative has a minus sign.
pub proof fn law_no_number(s: Text, i: int)
    requires
        s.len() == 0 || (0 <= i < s.len() && !is_digit(s[i]) && (i > 0 || (s[0] != '+' && s[0]
            != '-'))),
    ensures
        parse_u64(s) is None,
        parse_u32(s) is None,
        parse_i64(s) is None,
{
    if s.len() > 0 && i > 0 {
        assert(s.skip(1)[i - 1] == s[i]);
        if all_digits(s) {
            assert(is_digit(s[i]));
        }
        if all_digits(s.skip(1)) {
            assert(is_digit(s.skip(1)[i - 1]));
        }
    } else if s.len() > 0 {
        if all_digits(s) {
            assert(is_digit(s[i]));
        }
    }
}

// ---------------------------------------------------------------------------------------
// Times

/// A time is read back, with or without a fraction and the letter for seconds.
pub proof fn law_time_is_read_back(n: nat, fraction: Text)
    requires
        n <= i64::MAX,
        all_digits(fraction),
    ensures
        timestamp_of(decimal(n) + "s"@) == Some(n as i64),
        timestamp_of(decimal(n)) == Some(n as i64),
        timestamp_of(decimal(n) + "."@ + fraction + "s"@) == Some(n as i64),
        timestamp_of(decimal(n) + "."@ + fraction) == Some(n as i64),
{
    reveal_strlit("s");
    reveal_strlit(".");
    law_decimal_read_back(n);
    law_numbers_are_read_back(n);
    let d = decimal(n);
    assert(is_digit(d[0]));
    assert(is_digit(d[d.len() - 1]));
    assert forall|i: int| 0 <= i < d.len() implies #[trigger] d[i] != '.' by {
        assert(is_digit(d[i]));
    }
    let none = Seq::<char>::empty();
    let f = d + "."@ + fraction;
    if fraction.len() > 0 {
        assert(is_digit(fraction[fraction.len() - 1]));
        assert(f.last() == fraction[fraction.len() - 1]);
    } else {
        assert(f.last() == '.');
    }
    assert(f[0] == d[0]);
    lemma_seconds(d);
    lemma_seconds(f);
    lemma_before(d, none, '.');
    assert(d + none =~= d);
    lemma_before(d, "."@ + fraction, '.');
    assert(f =~= d + ("."@ + fraction));
    assert(f + "s"@ =~= d + "."@ + fraction + "s"@);
}

/// The letter for seconds is taken away.
proof fn lemma_seconds(t: Text)
    requires
        is_solid(t),
        t.last() != 's',
    ensures
        trim(trim_end_char(trim(t + "s"@), 's')) == t,
        trim(trim_end_char(trim(t), 's')) == t,
{
    reveal_strlit("s");
    let s = t + "s"@;
    assert(s[0] == t[0]);
    assert(s.last() == 's');
    lemma_trim_solid(s);
    lemma_trim_solid(t);
    lemma_trim_end_char_add(t, "s"@, 's');
    let none = Seq::<char>::empty();
    assert("s"@.drop_last() =~= none);
    assert(trim_end_char("s"@, 's') =~= none) by {
        assert(trim_end_char(none, 's') =~= none);
    }
    assert(t + none =~= t);
}

/// What stands before the first of a character.
proof fn lemma_before(x: Text, y: Text, c: char)
    requires
        forall|i: int| 0 <= i < x.len() ==> #[trigger] x[i] != c,
        y.len() == 0 || y[0] == c,
    ensures
        before_char(x + y, c) == x,
        y.len() > 0 ==> after_char(x + y, c) == y.skip(1),
        y.len() == 0 ==> after_char(x + y, c) == Seq::<char>::empty(),
        y.len() > 0 ==> split_once(x + y, c) == Some((x, y.skip(1))),
{
    let s = x + y;
    lemma_next_of(s, c, 0);
    let j = next_of(s, c, 0);
    if j < x.len() {
        assert(s[j] == x[j]);
    }
    if y.len() > 0 {
        assert(s[x.len() as int] == c);
    }
    assert(j == x.len());
    assert(s.take(j) =~= x);
    if y.len() > 0 {
        assert(s.skip(j + 1) =~= y.skip(1));
    }
}

/// The time at the end of a line is told from what stands before it; a line without one is
/// taken whole.
#[verifier::rlimit(40)]
pub proof fn law_time_ends_a_line(body: Text, stamp: Text)
    requires
        !contains_text(body, "timestamp="@),
    ensures
        split_time(body + " timestamp="@ + stamp) == (trim_end(body), timestamp_of(stamp)),
        split_time(body) == (body, None::<i64>),
{
    reveal_strlit(" timestamp=");
    reveal_strlit("timestamp=");
    let pat = " timestamp="@;
    let bare = "timestamp="@;
    let line = body + pat + stamp;
    law_contains_text(body, bare);
    assert(line.subrange(body.len() as int, (body.len() + pat.len()) as int) =~= pat);
    assert forall|j: int| 0 <= j < body.len() implies !#[trigger] stands_at(line, pat, j) by {
        if stands_at(line, pat, j) {
            if j + pat.len() <= body.len() {
                assert(line.subrange(j, j + pat.len())[0] == pat[0]);
                assert(body.subrange(j + 1, j + 1 + bare.len()) =~= bare) by {
                    assert forall|k: int| 0 <= k < bare.len() implies body[j + 1 + k] == bare[k] by {
                        assert(line.subrange(j, j + pat.len())[k + 1] == pat[k + 1]);
                    }
                }
                assert(stands_at(body, bare, j + 1));
            } else {
                let k = body.len() - j;
                assert(line.subrange(j, j + pat.len())[k] == pat[k]);
                assert(line[j + k] == pat[0]);
            }
        }
    }
    lemma_find_is(line, pat, body.len() as int);
    assert(line.take(body.len() as int) =~= body);
    assert(line.skip((body.len() + pat.len()) as int) =~= stamp);
    lemma_find_from(body, pat, 0);
    lemma_find_from(body, bare, 0);
    if let Some(p) = find(body, pat) {
        assert(stands_at(body, bare, p + 1)) by {
            assert(body.subrange(p + 1, p + 1 + bare.len()) =~= bare) by {
                assert forall|k: int| 0 <= k < bare.len() implies body[p + 1 + k] == bare[k] by {
                    assert(body.subrange(p, p + pat.len())[k + 1] == pat[k + 1]);
                }
            }
        }
    }
    if let Some(p) = find(body, bare) {
        assert(stands_at(body, bare, p));
    }
}

// ---------------------------------------------------------------------------------------
// The lines of the logs

/// A log holds the lines of its text, without the white space around them and without those
/// that are empty.
pub proof fn law_log_lines_are_read(x: Text, y: Text)
    requires
        forall|i: int| 0 <= i < x.len() ==> #[trigger] x[i] != '\n',
        x.len() == 0 || x.last() != '\r',
    ensures
        trim(x).len() > 0 ==> log_lines(x + seq!['\n'] + y) == seq![trim(x)] + log_lines(y),
        trim(x).len() == 0 ==> log_lines(x + seq!['\n'] + y) == log_lines(y),
        trim(x).len() > 0 ==> log_lines(x) == seq![trim(x)],
        log_lines(Seq::empty()).len() == 0,
{
    law_lines_are_read(x, y);
    let t = |l: Text| trim(l);
    let keep = |l: Text| l.len() > 0;
    let rest = lines(y).map_values(t);
    assert((seq![x] + lines(y)).map_values(t) =~= seq![trim(x)] + rest);
    lemma_filter_front(rest, keep, trim(x));
    let none = Seq::<Text>::empty();
    reveal(Seq::filter);
    assert(none.filter(keep) =~= none);
    lemma_filter_front(none, keep, trim(x));
    assert(seq![trim(x)] + none =~= seq![trim(x)]);
    assert(lines(Seq::empty()).map_values(t) =~= none);
    if x.len() > 0 {
        assert(seq![x].map_values(t) =~= seq![trim(x)]);
    } else {
        assert(trim(x) =~= x);
    }
}

/// Two words in a row.
proof fn lemma_two_words(u: Text, w: Text)
    requires
        is_word(u),
        is_word(w),
    ensures
        words(u + " "@ + w) == seq![u, w],
        trim_end(u + " "@ + w) == u + " "@ + w,
{
    reveal_strlit(" ");
    assert(is_gap(" "@));
    law_words_are_read(u, " "@, w);
    lemma_word(u);
    assert(seq![u].push(w) =~= seq![u, w]);
    assert((u + " "@ + w).last() == w[w.len() - 1]);
}

/// A line of the trust log tells which drive is trusted how far, and since when.
#[verifier::rlimit(40)]
pub proof fn law_trust_line_is_read_back(u: Text, token: Text, n: nat)
    requires
        is_word(u),
        is_word(token),
        !contains_text(u + " "@ + token, "timestamp="@),
        n <= i64::MAX,
    ensures
        trust_entry(u + " "@ + token + " timestamp="@ + (decimal(n) + "s"@)) == Some(
            (Entry { uuid: u, time: n as i64, value: trust_of(token) }),
        ),
        token == "1"@ || token == "trusted"@ ==> trust_of(token) == TrustLevel::Trusted,
        token == "0"@ || token == "untrusted"@ ==> trust_of(token) == TrustLevel::UnTrusted,
        token == "X"@ || token == "dead"@ ==> trust_of(token) == TrustLevel::Dead,
        token == "?"@ || token == "semitrusted"@ ==> trust_of(token) == TrustLevel::SemiTrusted,
{
    let body = u + " "@ + token;
    lemma_two_words(u, token);
    law_time_ends_a_line(body, decimal(n) + "s"@);
    law_time_is_read_back(n, Seq::empty());
    lemma_word_is_solid(token);
    lemma_trim_solid(token);
    reveal_strlit("1");
    reveal_strlit("T");
    reveal_strlit("t");
    reveal_strlit("trusted");
    reveal_strlit("0");
    reveal_strlit("U");
    reveal_strlit("u");
    reveal_strlit("untrusted");
    reveal_strlit("X");
    reveal_strlit("x");
    reveal_strlit("D");
    reveal_strlit("d");
    reveal_strlit("dead");
    reveal_strlit("?");
    reveal_strlit("semitrusted");
    if token == "0"@ {
        assert(token[0] == '0');
    } else if token == "untrusted"@ {
        assert(token.len() == 9);
    } else if token == "X"@ {
        assert(token[0] == 'X');
    } else if token == "dead"@ {
        assert(token.len() == 4);
    } else if token == "?"@ {
        assert(token[0] == '?');
    } else if token == "semitrusted"@ {
        assert(token.len() == 11);
    }
}

/// A line of the uuid log tells how a drive is described, whatever words the description has;
/// a drive without one is described by its uuid.
#[verifier::rlimit(40)]
pub proof fn law_description_line_is_read_back(u: Text, description: Text, n: nat)
    requires
        is_word(u),
        is_solid(description),
        !contains_text(u + " "@ + description, "timestamp="@),
        !contains_text(u, "timestamp="@),
        n <= i64::MAX,
    ensures
        uuid_entry(u + " "@ + description + " timestamp="@ + (decimal(n) + "s"@)) == Some(
            (Entry { uuid: u, time: n as i64, value: description }),
        ),
        uuid_entry(u + " timestamp="@ + (decimal(n) + "s"@)) == Some(
            (Entry { uuid: u, time: n as i64, value: u }),
        ),
        content_entry(u + " "@ + description + " timestamp="@ + (decimal(n) + "s"@)) == Some(
            (Entry { uuid: u, time: n as i64, value: description }),
        ),
{
    reveal_strlit(" ");
    let body = u + " "@ + description;
    law_time_is_read_back(n, Seq::empty());
    law_time_ends_a_line(body, decimal(n) + "s"@);
    law_time_ends_a_line(u, decimal(n) + "s"@);
    assert(body.last() == description.last());
    assert(trim_end(body) == body);
    lemma_word_is_solid(u);
    lemma_trim_solid(u);
    lemma_trim_solid(description);
    assert forall|i: int| 0 <= i < u.len() implies #[trigger] u[i] != ' ' by {
        assert(!is_space(u[i]));
    }
    lemma_before(u, " "@ + description, ' ');
    assert(u + (" "@ + description) =~= body);
    assert((" "@ + description).skip(1) =~= description);
    let none = Seq::<char>::empty();
    lemma_before(u, none, ' ');
    assert(u + none =~= u);
    assert(trim(none) =~= none);
}

/// A line of the group log tells the groups of a drive, and one of the remote log its settings.
pub proof fn law_word_lines_are_read_back(u: Text, rest: Text, n: nat)
    requires
        is_word(u),
        !contains_text(u + " "@ + rest, "timestamp="@),
        n <= i64::MAX,
    ensures
        group_entry(u + " "@ + rest + " timestamp="@ + (decimal(n) + "s"@)) == Some(
            (Entry { uuid: u, time: n as i64, value: groups_of(words(rest)) }),
        ),
        remote_entry(u + " "@ + rest + " timestamp="@ + (decimal(n) + "s"@)) == Some(
            (Entry { uuid: u, time: n as i64, value: settings(words(rest)) }),
        ),
{
    reveal_strlit(" ");
    let body = u + " "@ + rest;
    law_time_is_read_back(n, Seq::empty());
    law_time_ends_a_line(body, decimal(n) + "s"@);
    lemma_words_trim_end(body);
    assert(is_gap(" "@));
    lemma_words_of_spaces(" "@);
    lemma_word(u);
    assert((u + " "@).last() == ' ');
    lemma_words_add(u, " "@);
    lemma_words_add(u + " "@, rest);
    assert(words(body) =~= seq![u] + words(rest));
    assert(words(body).drop_first() =~= words(rest));
}

/// A line of the activity log about a check tells which drive was checked when; a line about
/// anything else, or without a time, tells of no check.
#[verifier::rlimit(40)]
pub proof fn law_check_line_is_read_back(u: Text, what: Text, n: nat)
    requires
        is_word(u),
        is_word(what),
        !contains_text(u + " "@ + what, "timestamp="@),
        n <= i64::MAX,
    ensures
        ({
            let line = u + " "@ + what + " timestamp="@ + (decimal(n) + "s"@);
            &&& contains_text(line, "Fsck"@) ==> fsck_of(line) == Some((u, n as i64))
            &&& !contains_text(line, "Fsck"@) ==> fsck_of(line) is None
            &&& what == "Fsck"@ ==> contains_text(line, "Fsck"@)
        }),
        fsck_of(u + " "@ + what) is None,
{
    let body = u + " "@ + what;
    let stamp = decimal(n) + "s"@;
    law_time_is_read_back(n, Seq::empty());
    law_time_ends_a_line(body, stamp);
    lemma_two_words(u, what);
    lemma_first_word_of_line(body, stamp);
    if what == "Fsck"@ {
        lemma_line_holds(u, what, stamp);
    }
}

/// The words of a line begin with those before the time.
proof fn lemma_first_word_of_line(body: Text, stamp: Text)
    requires
        words(body).len() > 0,
    ensures
        words(body + " timestamp="@ + stamp).len() > 0,
        words(body + " timestamp="@ + stamp)[0] == words(body)[0],
{
    reveal_strlit(" timestamp=");
    let tail = " timestamp="@ + stamp;
    assert(body + " timestamp="@ + stamp =~= body + tail);
    assert(tail[0] == ' ');
    lemma_words_add(body, tail);
}

/// A line holds what is written on it.
proof fn lemma_line_holds(u: Text, what: Text, stamp: Text)
    ensures
        contains_text(u + " "@ + what + " timestamp="@ + stamp, what),
{
    reveal_strlit(" ");
    let line = u + " "@ + what + " timestamp="@ + stamp;
    let i = u.len() as int + 1;
    law_contains_text(line, what);
    assert(line.subrange(i, i + what.len()) =~= what);
    assert(stands_at(line, what, i));
}

/// A line of the copies log tells how many copies there are to be, and since when.
pub proof fn law_copies_line_is_read_back(n: nat, copies: u32)
    requires
        n <= i64::MAX,
    ensures
        count_of((decimal(n) + "s"@) + " "@ + decimal(copies as nat)) == Some((n as i64, copies)),
{
    reveal_strlit("s");
    let a = decimal(n) + "s"@;
    let b = decimal(copies as nat);
    law_time_is_read_back(n, Seq::empty());
    law_numbers_are_read_back(copies as nat);
    law_decimal_read_back(n);
    law_decimal_read_back(copies as nat);
    assert forall|i: int| 0 <= i < a.len() implies !is_space(#[trigger] a[i]) by {
        if i < decimal(n).len() {
            assert(is_digit(decimal(n)[i]));
            assert(a[i] == decimal(n)[i]);
        } else {
            assert(a[i] == 's');
        }
    }
    assert forall|i: int| 0 <= i < b.len() implies !is_space(#[trigger] b[i]) by {
        assert(is_digit(b[i]));
    }
    lemma_two_words(a, b);
}

// ---------------------------------------------------------------------------------------
// The logs

/// Whether the latest line about `u` says `v`.
pub open spec fn latest_says<T>(
    log: Seq<Text>,
    entry: spec_fn(Text) -> Option<Entry<T>>,
    u: Text,
    v: T,
) -> bool {
    exists|i: int| #[trigger] is_latest(log, entry, u, i) && entry(log[i])->0.value == v
}

/// Whether a line tells of `u`.
pub open spec fn tells_of<T>(log: Seq<Text>, entry: spec_fn(Text) -> Option<Entry<T>>, u: Text) -> bool {
    exists|i: int|
        0 <= i < log.len() && (#[trigger] entry(log[i])) is Some && entry(log[i])->0.uuid == u
}

proof fn lemma_latest_says<T>(log: Seq<Text>, entry: spec_fn(Text) -> Option<Entry<T>>, u: Text)
    ensures
        records(newest(log, entry)).contains_key(u) <==> tells_of(log, entry, u),
        records(newest(log, entry)).contains_key(u) ==> latest_says(
            log,
            entry,
            u,
            records(newest(log, entry))[u],
        ),
        newest(log, entry).contains_key(u) ==> records(newest(log, entry))[u] == newest(
            log,
            entry,
        )[u].1,
        newest(log, entry).contains_key(u) == records(newest(log, entry)).contains_key(u),
{
    law_last_write_wins(log, entry, u);
    if newest(log, entry).contains_key(u) {
        let i = choose|i: int| #[trigger]
            is_latest(log, entry, u, i) && newest(log, entry)[u] == (
                entry(log[i])->0.time,
                entry(log[i])->0.value,
            );
        assert(is_latest(log, entry, u, i));
    }
}

/// Each log holds of a drive what its latest line about the drive says, and holds nothing of a
/// drive that no line tells of.
#[verifier::rlimit(40)]
pub proof fn law_logs_hold_the_latest(text: Text, u: Text)
    ensures
        ({
            let log = log_lines(text);
            &&& trust_log(text).contains_key(u) <==> tells_of(log, |l: Text| trust_entry(l), u)
            &&& trust_log(text).contains_key(u) ==> latest_says(
                log,
                |l: Text| trust_entry(l),
                u,
                trust_log(text)[u],
            )
            &&& group_log(text).contains_key(u) <==> tells_of(log, |l: Text| group_entry(l), u)
            &&& group_log(text).contains_key(u) ==> latest_says(
                log,
                |l: Text| group_entry(l),
                u,
                group_log(text)[u],
            )
            &&& content_log(text).contains_key(u) <==> tells_of(log, |l: Text| content_entry(l), u)
            &&& content_log(text).contains_key(u) ==> latest_says(
                log,
                |l: Text| content_entry(l),
                u,
                content_log(text)[u],
            )
            &&& remote_log(text).contains_key(u) <==> tells_of(log, |l: Text| remote_entry(l), u)
            &&& remote_log(text).contains_key(u) ==> latest_says(
                log,
                |l: Text| remote_entry(l),
                u,
                remote_log(text)[u],
            )
            &&& uuid_log(text).contains_key(u) <==> tells_of(log, |l: Text| uuid_entry(l), u)
            &&& uuid_log(text).contains_key(u) ==> latest_says(
                log,
                |l: Text| uuid_entry(l),
                u,
                uuid_log(text)[u].1,
            )
        }),
{
    let log = log_lines(text);
    lemma_latest_says(log, |l: Text| trust_entry(l), u);
    lemma_latest_says(log, |l: Text| group_entry(l), u);
    lemma_latest_says(log, |l: Text| content_entry(l), u);
    lemma_latest_says(log, |l: Text| remote_entry(l), u);
    lemma_latest_says(log, |l: Text| uuid_entry(l), u);
}

/// The activity log holds of a drive the time of its last check.
pub proof fn law_activity_log_holds_the_last_check(text: Text, u: Text)
    ensures
        ({
            let log = log_lines(text);
            let held = activity_log(text);
            &&& held.contains_key(u) ==> exists|i: int|
                0 <= i < log.len() && #[trigger] fsck_of(log[i]) == Some((u, held[u]))
            &&& forall|i: int|
                0 <= i < log.len() && (#[trigger] fsck_of(log[i])) is Some && (fsck_of(log[i])->0).0
                    == u ==> held.contains_key(u) && (fsck_of(log[i])->0).1 <= held[u]
        }),
{
    law_fsck_is_latest(log_lines(text), u);
}

// ---------------------------------------------------------------------------------------
// Settings

/// Whether the token at `i` is the last that sets `k`, and sets it to `v`.
pub open spec fn sets_last(tokens: Seq<Text>, i: int, k: Text, v: Text) -> bool {
    &&& 0 <= i < tokens.len()
    &&& tokens[i] == k + seq!['='] + v
    &&& forall|j: int| i < j < tokens.len() ==> !starts_with(#[trigger] tokens[j], k + seq!['='])
}

proof fn lemma_set_key(t: Text, k: Text)
    requires
        split_once(t, '=') is Some,
        (split_once(t, '=')->0).0 == k,
    ensures
        starts_with(t, k + seq!['=']),
        t == k + seq!['='] + (split_once(t, '=')->0).1,
        forall|i: int| 0 <= i < k.len() ==> #[trigger] k[i] != '=',
{
    lemma_next_of(t, '=', 0);
    let j = next_of(t, '=', 0);
    assert(t =~= k + seq!['='] + t.skip(j + 1));
    assert(t.subrange(0, (k + seq!['=']).len() as int) =~= k + seq!['=']);
    assert forall|i: int| 0 <= i < k.len() implies #[trigger] k[i] != '=' by {
        assert(k[i] == t[i]);
    }
}

/// A setting has the value of the last token that sets it; a secret one has none.
pub proof fn law_settings_are_read(tokens: Seq<Text>, i: int, k: Text, v: Text)
    requires
        sets_last(tokens, i, k, v),
        forall|j: int| 0 <= j < k.len() ==> #[trigger] k[j] != '=',
    ensures
        settings(tokens).contains_key(k),
        !is_secret(k) ==> settings(tokens)[k] == v,
        is_secret(k) ==> settings(tokens)[k] == "[redacted]"@,
    decreases tokens.len(),
{
    let n = tokens.len() - 1;
    let last = tokens[n];
    if i == n {
        lemma_before(k, seq!['='] + v, '=');
        assert(k + (seq!['='] + v) =~= last);
        assert((seq!['='] + v).skip(1) =~= v);
    } else {
        let rest = tokens.drop_last();
        assert(rest[i] == tokens[i]);
        assert forall|j: int| i < j < rest.len() implies !starts_with(
            #[trigger] rest[j],
            k + seq!['='],
        ) by {
            assert(rest[j] == tokens[j]);
        }
        law_settings_are_read(rest, i, k, v);
        assert(!starts_with(last, k + seq!['=']));
        if split_once(last, '=') is Some && (split_once(last, '=')->0).0 == k {
            lemma_set_key(last, k);
        }
    }
}

/// Nothing is set that no token sets.
pub proof fn law_settings_come_from_tokens(tokens: Seq<Text>, k: Text)
    requires
        settings(tokens).contains_key(k),
    ensures
        exists|i: int|
            0 <= i < tokens.len() && starts_with(#[trigger] tokens[i], k + seq!['=']),
    decreases tokens.len(),
{
    let rest = tokens.drop_last();
    let last = tokens[tokens.len() - 1];
    if split_once(last, '=') is Some && (split_once(last, '=')->0).0 == k {
        lemma_set_key(last, k);
    } else {
        law_settings_come_from_tokens(rest, k);
        let i = choose|i: int|
            0 <= i < rest.len() && starts_with(#[trigger] rest[i], k + seq!['=']);
        assert(tokens[i] == rest[i]);
    }
}

/// The secret settings are those that hold a cipher, credentials, a key or a password.
pub proof fn law_secret_settings(k: Text, v: Text)
    ensures
        k == "cipher"@ || k == "embedcreds"@ || k == "encryptionkey"@ || k == "secret"@ || k
            == "password"@ || k == "keyid"@ ==> kept_value(k, v) == "[redacted]"@,
        kept_value(k, v) == v || kept_value(k, v) == "[redacted]"@,
        kept_value("name"@, v) == v,
        kept_value("type"@, v) == v,
        kept_value("directory"@, v) == v,
{
    reveal_strlit("cipher");
    reveal_strlit("embedcreds");
    reveal_strlit("encryptionkey");
    reveal_strlit("secret");
    reveal_strlit("password");
    reveal_strlit("keyid");
    reveal_strlit("name");
    reveal_strlit("type");
    reveal_strlit("directory");
    assert("cipher"@.len() == 6 && "embedcreds"@.len() == 10 && "encryptionkey"@.len() == 13
        && "secret"@.len() == 6 && "password"@.len() == 8 && "keyid"@.len() == 5);
    assert("name"@.len() == 4 && "type"@.len() == 4 && "directory"@.len() == 9);
}

// ---------------------------------------------------------------------------------------
// Locations

/// Whether the record at `i` is the last about `key`.
pub open spec fn is_last_record(answer: Seq<Option<WhereisView>>, key: Text, i: int) -> bool {
    &&& 0 <= i < answer.len()
    &&& is_about(answer[i], key)
    &&& forall|j: int| i < j < answer.len() ==> !is_about(#[trigger] answer[j], key)
}

/// Whether a line holds a record about `key`.
pub open spec fn is_about(line: Option<WhereisView>, key: Text) -> bool {
    line matches Some(w) && w.key == Some(key)
}

/// A key is on the drives that the last record about it names, trusted or not, and on no
/// other; a key that no record is about is not known.
#[verifier::rlimit(40)]
pub proof fn law_locations_are_recorded(answer: Seq<Option<WhereisView>>, key: Text)
    ensures
        locations_of(answer).contains_key(key) <==> exists|i: int|
            0 <= i < answer.len() && is_about(#[trigger] answer[i], key),
        forall|i: int, u: Text| #[trigger]
            is_last_record(answer, key, i) ==> (#[trigger] locations_of(answer)[key].contains(u)
                <==> u.len() > 0 && (answer[i]->0.whereis.contains(u)
                || answer[i]->0.untrusted.contains(u))),
    decreases answer.len(),
{
    if answer.len() > 0 {
        let rest = answer.drop_last();
        let n = answer.len() - 1;
        law_locations_are_recorded(rest, key);
        if is_about(answer[n], key) {
        } else {
            assert(locations_of(answer).contains_key(key) == locations_of(rest).contains_key(key));
            if locations_of(rest).contains_key(key) {
                let i = choose|i: int| 0 <= i < rest.len() && is_about(#[trigger] rest[i], key);
                assert(is_about(answer[i], key));
            }
            if exists|i: int| 0 <= i < answer.len() && is_about(#[trigger] answer[i], key) {
                let i = choose|i: int|
                    0 <= i < answer.len() && is_about(#[trigger] answer[i], key);
                assert(is_about(rest[i], key));
            }
        }
        assert forall|i: int, u: Text| #[trigger]
            is_last_record(answer, key, i) implies (#[trigger] locations_of(answer)[key].contains(u)
            <==> u.len() > 0 && (answer[i]->0.whereis.contains(u)
            || answer[i]->0.untrusted.contains(u))) by {
            if i < n {
                assert(!is_about(answer[n], key));
                assert(rest[i] == answer[i]);
                assert forall|j: int| i < j < rest.len() implies !is_about(
                    #[trigger] rest[j],
                    key,
                ) by {
                    assert(rest[j] == answer[j]);
                }
                assert(is_last_record(rest, key, i));
                assert(locations_of(answer)[key] == locations_of(rest)[key]);
            } else {
                assert(i == n);
            }
        }
    }
}

// ---------------------------------------------------------------------------------------
// Keys

/// Whether the text can be a field of a key.
pub open spec fn is_field(t: Text) -> bool {
    t.len() > 0 && forall|i: int| 0 <= i < t.len() ==> #[trigger] t[i] != '-'
}

proof fn lemma_no_dashes(fields: Seq<Text>)
    requires
        fields.len() > 0,
        forall|k: int| 0 <= k < fields.len() ==> is_field(#[trigger] fields[k]),
    ensures
        ({
            let s = join(fields, seq!['-']);
            &&& s.len() > 0
            &&& s.last() != '-'
            &&& forall|i: int| 0 <= i < s.len() - 1 && #[trigger] s[i] == '-' ==> s[i + 1] != '-'
        }),
    decreases fields.len(),
{
    let last = fields[fields.len() - 1];
    assert(is_field(last));
    assert(last[0] != '-');
    assert(last[last.len() - 1] != '-');
    let s = join(fields, seq!['-']);
    if fields.len() > 1 {
        let rest = fields.drop_last();
        assert forall|k: int| 0 <= k < rest.len() implies is_field(#[trigger] rest[k]) by {
            assert(fields[k] == rest[k]);
        }
        lemma_no_dashes(rest);
        let r = join(rest, seq!['-']);
        assert(s =~= r + seq!['-'] + last);
        assert forall|i: int| 0 <= i < s.len() - 1 && #[trigger] s[i] == '-' implies s[i + 1]
            != '-' by {
            if i < r.len() - 1 {
                assert(s[i] == r[i]);
                assert(s[i + 1] == r[i + 1]);
            } else if i == r.len() - 1 {
                assert(s[i] == r[i]);
            } else if i == r.len() {
                assert(s[i + 1] == last[0]);
            } else {
                assert(s[i] == last[i - r.len() - 1]);
            }
        }
        assert(s.last() == last.last());
    } else {
        assert forall|i: int| 0 <= i < s.len() - 1 && #[trigger] s[i] == '-' implies s[i + 1]
            != '-' by {
            assert(s[i] == last[i]);
        }
    }
}

proof fn lemma_key_fields(fields: Seq<Text>, hash: Text)
    requires
        fields.len() > 0,
        forall|k: int| 0 <= k < fields.len() ==> is_field(#[trigger] fields[k]),
    ensures
        split_on(key_prefix(join(fields, seq!['-']) + "--"@ + hash), '-') == fields,
{
    reveal_strlit("--");
    lemma_no_dashes(fields);
    let s = join(fields, seq!['-']);
    let key = s + "--"@ + hash;
    let n = s.len() as int;
    assert(key.subrange(n, n + "--"@.len()) =~= "--"@);
    assert forall|j: int| 0 <= j < n implies !#[trigger] stands_at(key, "--"@, j) by {
        if stands_at(key, "--"@, j) {
            let p = key.subrange(j, j + "--"@.len());
            assert(p[0] == '-' && p[1] == '-');
            assert(key[j] == s[j]);
            if j < n - 1 {
                assert(key[j + 1] == s[j + 1]);
            }
        }
    }
    lemma_find_is(key, "--"@, n);
    assert(key.take(n) =~= s);
    assert forall|k: int, i: int| 0 <= k < fields.len() && 0 <= i < fields[k].len() implies #[trigger] fields[k][i]
        != '-' by {
        assert(is_field(fields[k]));
    }
    law_joined_pieces_are_read_back(fields, '-');
}

proof fn lemma_first_size(fields: Seq<Text>, k: int)
    requires
        0 <= k <= fields.len(),
        forall|i: int| 0 <= i < k ==> (#[trigger] fields[i])[0] != 's',
    ensures
        first_size(fields) == first_size(fields.skip(k)),
    decreases k,
{
    if k > 0 {
        assert(fields[0][0] != 's');
        let rest = fields.drop_first();
        assert forall|i: int| 0 <= i < k - 1 implies (#[trigger] rest[i])[0] != 's' by {
            assert(rest[i] == fields[i + 1]);
        }
        lemma_first_size(rest, k - 1);
        assert(rest.skip(k - 1) =~= fields.skip(k));
    } else {
        assert(fields.skip(0) =~= fields);
    }
}

/// The size that is written into a key is read from it, whatever other fields the key has
/// before and after it. A key without such a field records no size.
#[verifier::rlimit(40)]
pub proof fn law_key_size_is_read_back(
    before: Seq<Text>,
    n: nat,
    after: Seq<Text>,
    hash: Text,
)
    requires
        before.len() > 0,
        forall|k: int| 0 <= k < before.len() ==> is_field(#[trigger] before[k]),
        forall|k: int| 1 <= k < before.len() ==> (#[trigger] before[k])[0] != 's',
        forall|k: int| 0 <= k < after.len() ==> is_field(#[trigger] after[k]),
        n <= u64::MAX,
    ensures
        key_size(
            join(before.push(seq!['s'] + decimal(n)) + after, seq!['-']) + "--"@ + hash,
        ) == Some(n as u64),
        key_size(join(before, seq!['-']) + "--"@ + hash) is None,
{
    let size = seq!['s'] + decimal(n);
    let fields = before.push(size) + after;
    law_numbers_are_read_back(n);
    law_decimal_read_back(n);
    assert(is_field(size)) by {
        assert forall|i: int| 0 <= i < size.len() implies #[trigger] size[i] != '-' by {
            if i > 0 {
                assert(is_digit(decimal(n)[i - 1]));
                assert(size[i] == decimal(n)[i - 1]);
            }
        }
    }
    assert forall|k: int| 0 <= k < fields.len() implies is_field(#[trigger] fields[k]) by {
        if k < before.len() {
            assert(fields[k] == before[k]);
        } else if k > before.len() {
            assert(fields[k] == after[k - before.len() - 1]);
        }
    }
    lemma_key_fields(fields, hash);
    let rest = fields.skip(1);
    let m = before.len() - 1;
    assert forall|i: int| 0 <= i < m implies (#[trigger] rest[i])[0] != 's' by {
        assert(rest[i] == before[i + 1]);
    }
    lemma_first_size(rest, m);
    let tail = rest.skip(m);
    assert(tail[0] == size);
    assert(size.skip(1) =~= decimal(n));
    lemma_key_fields(before, hash);
    let only = before.skip(1);
    assert forall|i: int| 0 <= i < only.len() implies (#[trigger] only[i])[0] != 's' by {
        assert(only[i] == before[i + 1]);
    }
    lemma_first_size(only, only.len() as int);
    assert(only.skip(only.len() as int).len() == 0);
}

/// The drives of several records are those of each of them.
pub proof fn law_locations_of_all_records(s: Seq<(Text, Set<Text>)>, u: Text)
    ensures
        all_locations(s).contains(u) <==> exists|i: int|
            0 <= i < s.len() && (#[trigger] s[i]).1.contains(u),
    decreases s.len(),
{
    if s.len() > 0 {
        let rest = s.drop_last();
        law_locations_of_all_records(rest, u);
        if all_locations(rest).contains(u) {
            let i = choose|i: int| 0 <= i < rest.len() && (#[trigger] rest[i]).1.contains(u);
            assert(s[i].1.contains(u));
        }
        if exists|i: int| 0 <= i < s.len() && (#[trigger] s[i]).1.contains(u) {
            let i = choose|i: int| 0 <= i < s.len() && (#[trigger] s[i]).1.contains(u);
            if i < rest.len() {
                assert(rest[i].1.contains(u));
            } else {
                assert(s.last().1.contains(u));
            }
        }
        if s.last().1.contains(u) {
            assert(s[s.len() - 1].1.contains(u));
        }
    }
}

/// The rows of the uuid log are its drives, by ascending uuid, each with its description and
/// the time of that.
pub proof fn law_rows_of_the_uuid_log(text: Text, u: Text, description: Text, t: i64)
    ensures
        uuid_rows(text).contains((u, description, Some(t))) <==> uuid_log(text).contains_key(u)
            && uuid_log(text)[u] == (t, description),
        uuid_rows(text).len() == uuid_log(text).len(),
        forall|i: int, j: int|
            0 <= i < j < uuid_rows(text).len() ==> text_less(
                (#[trigger] uuid_rows(text)[i]).0,
                (#[trigger] uuid_rows(text)[j]).0,
            ),
{
    let m = uuid_log(text);
    let p = pairs_of(m);
    let rows = uuid_rows(text);
    lemma_newest_finite(log_lines(text), |l: Text| uuid_entry(l));
    lemma_pairs_of_finite(m);
    lemma_ordered_distinct(p);
    lemma_map_of(p);
    if rows.contains((u, description, Some(t))) {
        let i = choose|i: int| 0 <= i < rows.len() && rows[i] == (u, description, Some(t));
        assert(map_of(p).contains_key(p[i].0) && map_of(p)[p[i].0] == p[i].1);
    }
    if m.contains_key(u) && m[u] == (t, description) {
        assert(map_of(p).contains_key(u));
        let i = choose|i: int| 0 <= i < p.len() && (#[trigger] p[i]).0 == u;
        assert(map_of(p)[p[i].0] == p[i].1);
        assert(rows[i] == (u, description, Some(t)));
    }
    assert forall|i: int, j: int| 0 <= i < j < rows.len() implies text_less(
        (#[trigger] rows[i]).0,
        (#[trigger] rows[j]).0,
    ) by {
        assert(text_less(p[i].0, p[j].0));
    }
}

/// White space, among the characters of ASCII, is the blank, the tab, and what ends a line or
/// a page.
pub proof fn law_white_space_of_ascii(c: char)
    requires
        (c as u32) < 0x80,
    ensures
        is_space(c) <==> c == ' ' || c == '\t' || c == '\n' || c == '\r' || c as u32 == 0xb || c as u32
            == 0xc,
{
}

/// A time that follows without a blank is told from what stands before it, too.
#[verifier::rlimit(40)]
pub proof fn law_time_without_a_blank(body: Text, stamp: Text)
    requires
        body.len() == 0 || body.last() != ' ',
        !contains_text(body, "timestamp="@),
        !contains_text(stamp, " timestamp="@),
    ensures
        split_time(body + "timestamp="@ + stamp) == (trim_end(body), timestamp_of(stamp)),
{
    reveal_strlit(" timestamp=");
    reveal_strlit("timestamp=");
    let pat = " timestamp="@;
    let bare = "timestamp="@;
    let line = body + bare + stamp;
    let n = body.len() as int;
    law_contains_text(body, bare);
    law_contains_text(stamp, pat);
    assert(line.subrange(n, n + bare.len()) =~= bare);
    assert forall|j: int| 0 <= j < n implies !#[trigger] stands_at(line, bare, j) by {
        if stands_at(line, bare, j) {
            let at = line.subrange(j, j + bare.len());
            if j + bare.len() <= n {
                assert(body.subrange(j, j + bare.len()) =~= bare) by {
                    assert forall|k: int| 0 <= k < bare.len() implies body[j + k] == bare[k] by {
                        assert(at[k] == bare[k]);
                    }
                }
                assert(stands_at(body, bare, j));
            } else {
                assert(at[n - j] == bare[n - j]);
                assert(line[n] == bare[0]);
                assert(bare[0] == 't');
                if n - j == 5 {
                    assert(at[n - j + 1] == bare[6]);
                    assert(line[n + 1] == bare[1]);
                }
            }
        }
    }
    lemma_find_is(line, bare, n);
    assert(find(line, pat) is None) by {
        lemma_find_from(line, pat, 0);
        if let Some(p) = find(line, pat) {
            let at = line.subrange(p, p + pat.len());
            assert(at[0] == ' ');
            assert(line[p] == ' ');
            if p < n {
                assert(at[1] == 't');
                assert(stands_at(line, bare, p + 1)) by {
                    assert(line.subrange(p + 1, p + 1 + bare.len()) =~= bare) by {
                        assert forall|k: int| 0 <= k < bare.len() implies line[p + 1 + k]
                            == bare[k] by {
                            assert(at[k + 1] == pat[k + 1]);
                        }
                    }
                }
                assert(p + 1 == n);
                assert(body[n - 1] == line[p]);
            } else if p < n + bare.len() {
                assert(line[p] == bare[p - n]);
            } else {
                let q = p - n - bare.len();
                assert(stamp.subrange(q, q + pat.len()) =~= pat) by {
                    assert forall|k: int| 0 <= k < pat.len() implies stamp[q + k] == pat[k] by {
                        assert(at[k] == pat[k]);
                    }
                }
                assert(stands_at(stamp, pat, q));
            }
        }
    }
    assert(line.take(n) =~= body);
    assert(line.skip(n + bare.len()) =~= stamp);
}

/// Of two counts of one time the later line holds.
pub proof fn law_last_count_of_a_time_holds(log: Seq<Text>)
    ensures
        latest_count(log) matches Some(best) ==> exists|i: int|
            0 <= i < log.len() && #[trigger] count_of(log[i]) == Some(best) && forall|j: int|
                i < j < log.len() && (#[trigger] count_of(log[j])) is Some ==> (count_of(
                    log[j],
                )->0).0 < best.0,
    decreases log.len(),
{
    if log.len() > 0 {
        let rest = log.drop_last();
        let n = log.len() - 1;
        law_last_count_of_a_time_holds(rest);
        if let Some(best) = latest_count(log) {
            if count_of(log[n]) == Some(best) {
                assert(count_of(log[n]) == Some(best));
            } else {
                let i = choose|i: int|
                    0 <= i < rest.len() && #[trigger] count_of(rest[i]) == Some(best) && forall|
                        j: int,
                    |
                        i < j < rest.len() && (#[trigger] count_of(rest[j])) is Some ==> (count_of(
                            rest[j],
                        )->0).0 < best.0;
                assert(count_of(log[i]) == Some(best));
                assert forall|j: int| i < j < log.len() && (#[trigger] count_of(
                    log[j],
                )) is Some implies (count_of(log[j])->0).0 < best.0 by {
                    if j < n {
                        assert(count_of(rest[j]) is Some);
                    }
                }
            }
        }
    }
}

/// The copies log holds the count of its latest line.
pub proof fn law_copies_log_holds_the_latest(text: Text)
    ensures
        count_log(text) is Some <==> latest_count(log_lines(text)) is Some,
        latest_count(log_lines(text)) matches Some(best) ==> count_log(text) == Some(best.1),
{
}

} // verus!
