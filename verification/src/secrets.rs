//! What is read from `remote.log` does not depend on the values of secrets.

use vstd::prelude::*;
use crate::logs::{first_word, is_secret, newest, remote_entry, remote_log, settings, timestamp_of, Entry};
use crate::text::{all_digits, before_char, contains_text, find, law_contains_text, lemma_find_from, lemma_next_of, lemma_next_space, lemma_trim_start, lines, next_of, next_space, parse_i64, split_on, split_once, stands_at, strip_cr, trim, trim_end, trim_end_char, trim_start, words, is_digit, is_space, Text};

verus! {

// ---------------------------------------------------------------------------------------
// Where a secret stands

/// A place in a log where a secret stands: `key=value`, in a line that begins with another
/// word.
pub ghost struct SecretPlace {
    /// The lines before that line.
    pub head: Text,
    /// What stands on the line before the key.
    pub before: Text,
    pub key: Text,
    /// What stands on the line after the value.
    pub after: Text,
    /// What follows the line.
    pub tail: Text,
}

/// Whether the text can be the value of a setting: it has no white space in it, and no time.
pub open spec fn is_value(v: Text) -> bool {
    &&& forall|i: int| 0 <= i < v.len() ==> !is_space(#[trigger] v[i])
    &&& !contains_text(v, "timestamp="@)
}

impl SecretPlace {
    /// Whether there is such a place.
    pub open spec fn fits(self) -> bool {
        &&& is_secret(self.key)
        &&& self.head.len() == 0 || self.head.last() == '\n'
        &&& self.tail.len() == 0 || self.tail[0] == '\n'
        &&& forall|i: int| 0 <= i < self.before.len() ==> #[trigger] self.before[i] != '\n'
        &&& forall|i: int| 0 <= i < self.after.len() ==> #[trigger] self.after[i] != '\n'
        &&& trim_start(self.before).len() > 0
        &&& is_space(self.before.last())
        &&& self.after.len() == 0 || is_space(self.after[0])
    }

    /// The line, with the value `v`.
    pub open spec fn line(self, v: Text) -> Text {
        self.before + (self.key + "="@ + v) + self.after
    }

    /// The log, with the value `v`.
    pub open spec fn log(self, v: Text) -> Text {
        self.head + self.line(v) + self.tail
    }
}

/// Whether the logs differ in the value of one secret.
pub open spec fn one_secret_apart(a: Text, b: Text) -> bool {
    exists|s: SecretPlace, v: Text, w: Text|
        s.fits() && is_value(v) && is_value(w) && a == #[trigger] s.log(v) && b == #[trigger] s.log(
            w,
        )
}

/// The value of a secret makes no difference to what is read from the log.
pub proof fn law_secret_value_makes_no_difference(s: SecretPlace, v: Text, w: Text)
    requires
        s.fits(),
        is_value(v),
        is_value(w),
    ensures
        remote_log(s.log(v)) == remote_log(s.log(w)),
{
    let entry = |l: Text| remote_entry(l);
    let a = lines(s.log(v));
    let b = lines(s.log(w));
    let h = (split_on(s.head, '\n').len() - 1) as int;
    lemma_lines(s, v);
    lemma_lines(s, w);
    let ta = a.map_values(|l: Text| trim(l));
    let tb = b.map_values(|l: Text| trim(l));
    lemma_same_entry(s, v, w);
    assert forall|i: int| 0 <= i < ta.len() implies ta[i] == tb[i] || (ta[i].len() > 0
        && tb[i].len() > 0 && entry(#[trigger] ta[i]) == entry(tb[i])) by {
        if i == h {
            lemma_trimmed_line(s, v, a[h]);
            lemma_trimmed_line(s, w, b[h]);
        } else {
            assert(a[i] == frame(s)[i]);
            assert(b[i] == frame(s)[i]);
        }
    }
    lemma_same_newest(ta, tb, entry);
}

/// Two logs that differ only in the values of secrets, one after the other, are read the same.
pub proof fn law_secret_values_make_no_difference(logs: Seq<Text>)
    requires
        logs.len() > 0,
        forall|i: int|
            0 <= i < logs.len() - 1 ==> one_secret_apart(#[trigger] logs[i], logs[i + 1]),
    ensures
        remote_log(logs[0]) == remote_log(logs.last()),
    decreases logs.len(),
{
    if logs.len() > 1 {
        let rest = logs.drop_last();
        assert forall|i: int| 0 <= i < rest.len() - 1 implies one_secret_apart(
            #[trigger] rest[i],
            rest[i + 1],
        ) by {
            assert(one_secret_apart(logs[i], logs[i + 1]));
        }
        law_secret_values_make_no_difference(rest);
        let n = logs.len() - 2;
        assert(one_secret_apart(logs[n], logs[n + 1]));
        let (s, v, w) = choose|s: SecretPlace, v: Text, w: Text|
            s.fits() && is_value(v) && is_value(w) && logs[n] == #[trigger] s.log(v) && logs[n + 1]
                == #[trigger] s.log(w);
        law_secret_value_makes_no_difference(s, v, w);
    }
}

// ---------------------------------------------------------------------------------------
// White space

/// A text that begins with no white space loses nothing at its start.
pub proof fn lemma_trim_start_solid(y: Text)
    requires
        y.len() > 0,
        !is_space(y[0]),
    ensures
        trim_start(y) == y,
{
}

/// White space is taken from the start up to what is none.
pub proof fn lemma_trim_start_add(x: Text, y: Text)
    ensures
        trim_start(x).len() > 0 ==> trim_start(x + y) == trim_start(x) + y,
        trim_start(x).len() == 0 ==> trim_start(x + y) == trim_start(y),
    decreases x.len(),
{
    if x.len() == 0 {
        assert(x + y =~= y);
    } else if is_space(x[0]) {
        lemma_trim_start_add(x.drop_first(), y);
        assert((x + y).drop_first() =~= x.drop_first() + y);
        assert((x + y)[0] == x[0]);
    } else {
        assert((x + y)[0] == x[0]);
    }
}

/// White space is taken from the end up to what is none.
pub proof fn lemma_trim_end_add(x: Text, y: Text)
    requires
        x.len() > 0,
        !is_space(x.last()),
    ensures
        trim_end(x + y) == x + trim_end(y),
    decreases y.len(),
{
    if y.len() == 0 {
        assert(x + y =~= x);
        assert(x + trim_end(y) =~= x);
    } else {
        assert((x + y).last() == y.last());
        if is_space(y.last()) {
            lemma_trim_end_add(x, y.drop_last());
            assert((x + y).drop_last() =~= x + y.drop_last());
        }
    }
}

/// A character is taken from the end up to another one.
pub proof fn lemma_trim_end_char_add(x: Text, y: Text, c: char)
    requires
        x.len() > 0,
        x.last() != c,
    ensures
        trim_end_char(x + y, c) == x + trim_end_char(y, c),
    decreases y.len(),
{
    if y.len() == 0 {
        assert(x + y =~= x);
        assert(x + trim_end_char(y, c) =~= x);
    } else {
        assert((x + y).last() == y.last());
        if y.last() == c {
            lemma_trim_end_char_add(x, y.drop_last(), c);
            assert((x + y).drop_last() =~= x + y.drop_last());
        }
    }
}

proof fn lemma_trim_end_prefix(y: Text)
    ensures
        trim_end(y).len() <= y.len(),
        trim_end(y) == y.take(trim_end(y).len() as int),
        forall|i: int| trim_end(y).len() <= i < y.len() ==> is_space(#[trigger] y[i]),
    decreases y.len(),
{
    if y.len() > 0 && is_space(y.last()) {
        let z = y.drop_last();
        lemma_trim_end_prefix(z);
        assert(z.take(trim_end(z).len() as int) =~= y.take(trim_end(z).len() as int));
        assert forall|i: int| trim_end(y).len() <= i < y.len() implies is_space(#[trigger] y[i]) by {
            if i < z.len() {
                assert(z[i] == y[i]);
            }
        }
    } else {
        assert(y.take(y.len() as int) =~= y);
    }
}

proof fn lemma_next_space_add(t: Text, y: Text, i: int)
    requires
        0 <= i <= t.len(),
    ensures
        next_space(t, i) < t.len() ==> next_space(t + y, i) == next_space(t, i),
        next_space(t, i) >= t.len() && (y.len() == 0 || is_space(y[0])) ==> next_space(t + y, i)
            == t.len(),
    decreases t.len() - i,
{
    lemma_next_space(t, i);
    if i < t.len() {
        assert((t + y)[i] == t[i]);
        if !is_space(t[i]) {
            lemma_next_space_add(t, y, i + 1);
        }
    } else if y.len() > 0 {
        assert((t + y)[i] == y[0]);
    }
}

proof fn lemma_no_space_before(t: Text, i: int)
    requires
        0 <= i <= t.len(),
        next_space(t, i) >= t.len(),
    ensures
        forall|j: int| i <= j < t.len() ==> !is_space(#[trigger] t[j]),
    decreases t.len() - i,
{
    if i < t.len() {
        lemma_next_space(t, i + 1);
        lemma_no_space_before(t, i + 1);
    }
}

/// Words are read on both sides of white space.
pub proof fn lemma_words_add(x: Text, y: Text)
    requires
        x.len() == 0 || is_space(x.last()) || y.len() == 0 || is_space(y[0]),
    ensures
        words(x + y) == words(x) + words(y),
    decreases x.len(),
{
    let t = trim_start(x);
    lemma_trim_start(x);
    lemma_trim_start_add(x, y);
    if t.len() == 0 {
        assert(words(x) =~= Seq::<Text>::empty());
        assert(words(x + y) =~= words(y)) by {
            lemma_words_by_trimmed(x + y, y);
        }
        assert(words(x) + words(y) =~= words(y));
    } else {
        let s = t + y;
        let j = next_space(t, 0);
        lemma_next_space(t, 0);
        lemma_next_space_add(t, y, 0);
        assert(t.last() == x.last());
        assert(words(x) == seq![t.take(j)] + words(t.skip(j)));
        if j < t.len() {
            assert(s.take(j) =~= t.take(j));
            assert(s.skip(j) =~= t.skip(j) + y);
            assert(t.skip(j).last() == x.last());
            lemma_words_add(t.skip(j), y);
            assert(words(x + y) == seq![s.take(j)] + words(s.skip(j)));
            assert(words(x + y) =~= words(x) + words(y));
        } else {
            lemma_no_space_before(t, 0);
            assert(!is_space(t[t.len() - 1]));
            assert(s.take(j) =~= t);
            assert(t.take(j) =~= t);
            assert(s.skip(j) =~= y);
            assert(t.skip(j) =~= Seq::<char>::empty());
            assert(words(t.skip(j)) =~= Seq::<Text>::empty());
            assert(words(x + y) == seq![s.take(j)] + words(s.skip(j)));
            assert(words(x + y) =~= words(x) + words(y));
        }
    }
}

proof fn lemma_words_by_trimmed(x: Text, y: Text)
    requires
        trim_start(x) == trim_start(y),
    ensures
        words(x) == words(y),
{
}

/// White space holds no word.
pub proof fn lemma_words_of_spaces(x: Text)
    requires
        forall|i: int| 0 <= i < x.len() ==> is_space(#[trigger] x[i]),
    ensures
        trim_start(x).len() == 0,
        words(x) == Seq::<Text>::empty(),
    decreases x.len(),
{
    if x.len() > 0 {
        assert(is_space(x[0]));
        assert forall|i: int| 0 <= i < x.drop_first().len() implies is_space(
            #[trigger] x.drop_first()[i],
        ) by {
            assert(x[i + 1] == x.drop_first()[i]);
        }
        lemma_words_of_spaces(x.drop_first());
    }
}

/// White space at the end makes no difference to the words.
pub proof fn lemma_words_trim_end(x: Text)
    ensures
        words(trim_end(x)) == words(x),
{
    lemma_trim_end_prefix(x);
    let n = trim_end(x).len() as int;
    let y = x.skip(n);
    assert forall|i: int| 0 <= i < y.len() implies is_space(#[trigger] y[i]) by {
        assert(y[i] == x[n + i]);
    }
    lemma_words_of_spaces(y);
    assert(x =~= trim_end(x) + y);
    lemma_words_add(trim_end(x), y);
    assert(words(trim_end(x)) + words(y) =~= words(trim_end(x)));
}

/// A text without white space is one word.
pub proof fn lemma_word(m: Text)
    requires
        m.len() > 0,
        forall|i: int| 0 <= i < m.len() ==> !is_space(#[trigger] m[i]),
    ensures
        words(m) == seq![m],
{
    assert(!is_space(m[0]));
    lemma_trim_start_solid(m);
    lemma_next_space(m, 0);
    lemma_solid_has_no_space(m, 0);
    assert(m.take(m.len() as int) =~= m);
    assert(m.skip(m.len() as int) =~= Seq::<char>::empty());
    assert(words(m.skip(m.len() as int)) =~= Seq::<Text>::empty());
    assert(words(m) =~= seq![m]);
}

proof fn lemma_solid_has_no_space(m: Text, i: int)
    requires
        0 <= i <= m.len(),
        forall|k: int| 0 <= k < m.len() ==> !is_space(#[trigger] m[k]),
    ensures
        next_space(m, i) == m.len(),
    decreases m.len() - i,
{
    if i < m.len() {
        assert(!is_space(m[i]));
        lemma_solid_has_no_space(m, i + 1);
    }
}

// ---------------------------------------------------------------------------------------
// The token

/// The names of secret settings are made of letters.
proof fn lemma_secret_key(k: Text)
    requires
        is_secret(k),
    ensures
        k.len() > 0,
        forall|i: int| 0 <= i < k.len() ==> 'a' <= #[trigger] k[i] && k[i] <= 'z',
        k[0] != 't',
        k.last() != 'p',
{
    reveal_strlit("cipher");
    reveal_strlit("embedcreds");
    reveal_strlit("encryptionkey");
    reveal_strlit("secret");
    reveal_strlit("password");
    reveal_strlit("keyid");
}

/// What holds of `key=value`.
proof fn lemma_token(k: Text, v: Text)
    requires
        is_secret(k),
        is_value(v),
    ensures
        ({
            let m = k + "="@ + v;
            &&& m.len() > k.len()
            &&& m[0] != 't'
            &&& m[k.len() as int] == '='
            &&& forall|i: int| 0 <= i < m.len() ==> !is_space(#[trigger] m[i])
            &&& forall|i: int| !#[trigger] stands_at(m, "timestamp="@, i)
            &&& split_once(m, '=') == Some((k, v))
        }),
{
    let m = k + "="@ + v;
    let pat = "timestamp="@;
    let n = k.len() as int;
    lemma_secret_key(k);
    reveal_strlit("=");
    reveal_strlit("timestamp=");
    assert forall|i: int| 0 <= i < n implies #[trigger] m[i] == k[i] by {}
    assert(m[n] == '=');
    assert forall|i: int| n < i < m.len() implies #[trigger] m[i] == v[i - n - 1] by {}
    assert forall|i: int| 0 <= i < m.len() implies !is_space(#[trigger] m[i]) by {
        if i < n {
            assert('a' <= k[i] && k[i] <= 'z');
        } else if i > n {
            assert(!is_space(v[i - n - 1]));
        }
    }
    law_contains_text(v, pat);
    assert forall|i: int| !#[trigger] stands_at(m, pat, i) by {
        if stands_at(m, pat, i) {
            let sub = m.subrange(i, i + pat.len());
            assert(sub[9] == '=' && sub[9] == m[i + 9]);
            assert(sub[8] == 'p' && sub[8] == m[i + 8]);
            if i + 9 < n {
                assert('a' <= k[i + 9]);
            } else if i + 9 == n {
                assert(m[i + 8] == k[n - 1]);
            } else if i > n {
                assert(v.subrange(i - n - 1, i - n - 1 + pat.len()) =~= sub);
                assert(stands_at(v, pat, i - n - 1));
            } else {
                assert(sub[n - i] == m[n]);
                assert(sub[n - i] == pat[n - i]);
            }
        }
    }
    lemma_next_of(m, '=', 0);
    let j = next_of(m, '=', 0);
    if j < n {
        assert('a' <= k[j]);
    }
    assert(j == n);
    assert(m.take(n) =~= k);
    assert(m.skip(n + 1) =~= v);
}

/// Settings do not depend on the value of a secret.
proof fn lemma_settings_swap(x: Seq<Text>, a: Text, b: Text, y: Seq<Text>)
    requires
        split_once(a, '=') is Some,
        split_once(b, '=') is Some,
        (split_once(a, '=')->0).0 == (split_once(b, '=')->0).0,
        is_secret((split_once(a, '=')->0).0),
    ensures
        settings(x + seq![a] + y) == settings(x + seq![b] + y),
    decreases y.len(),
{
    let s = x + seq![a] + y;
    let t = x + seq![b] + y;
    if y.len() == 0 {
        assert(s.drop_last() =~= x);
        assert(t.drop_last() =~= x);
    } else {
        lemma_settings_swap(x, a, b, y.drop_last());
        assert(s.drop_last() =~= x + seq![a] + y.drop_last());
        assert(t.drop_last() =~= x + seq![b] + y.drop_last());
        assert(s.last() == y.last() && t.last() == y.last());
    }
}

// ---------------------------------------------------------------------------------------
// Times

/// Whether the text is one that a time begins with.
spec fn marks_time(pat: Text) -> bool {
    pat == " timestamp="@ || pat == "timestamp="@
}

/// Around a token, a time begins before it or after it.
proof fn lemma_time_beside(p: Text, m: Text, q: Text, pat: Text, i: int)
    requires
        marks_time(pat),
        p.len() > 0,
        is_space(p.last()),
        q.len() == 0 || is_space(q[0]),
        m.len() > 0,
        m[0] != 't',
        forall|k: int| 0 <= k < m.len() ==> !is_space(#[trigger] m[k]),
        forall|k: int| !#[trigger] stands_at(m, "timestamp="@, k),
    ensures
        stands_at(p + m + q, pat, i) <==> stands_at(p, pat, i) || stands_at(
            q,
            pat,
            i - p.len() - m.len(),
        ),
{
    let line = p + m + q;
    let n = p.len() as int;
    let e = n + m.len();
    let l = pat.len() as int;
    reveal_strlit(" timestamp=");
    reveal_strlit("timestamp=");
    assert(forall|k: int| 1 <= k < l ==> !is_space(#[trigger] pat[k]));
    if stands_at(p, pat, i) {
        assert(line.subrange(i, i + l) =~= p.subrange(i, i + l));
    }
    if stands_at(q, pat, i - e) {
        assert(line.subrange(i, i + l) =~= q.subrange(i - e, i - e + l));
    }
    if stands_at(line, pat, i) {
        let sub = line.subrange(i, i + l);
        assert forall|k: int| i <= k < i + l implies #[trigger] line[k] == pat[k - i] by {
            assert(sub[k - i] == line[k]);
        }
        if i + l <= n {
            assert(p.subrange(i, i + l) =~= sub);
        } else if i >= e {
            assert(q.subrange(i - e, i - e + l) =~= sub);
        } else if i < n {
            assert(line[n - 1] == p.last());
            assert(line[n - 1] == pat[n - 1 - i]);
            assert(i == n - 1);
            assert(line[n] == m[0]);
            assert(line[n] == pat[1]);
            assert(pat[0] == ' ' || !is_space(pat[0]));
        } else if i + l <= e {
            assert(m.subrange(i - n, i - n + l) =~= sub);
            assert(line[i] == m[i - n]);
            assert(line[i] == pat[0]);
            assert(stands_at(m, pat, i - n));
        } else {
            assert(line[e] == q[0]);
            assert(line[e] == pat[e - i]);
        }
    }
}

/// The first place of a text is the one before which there is none.
pub proof fn lemma_find_is(s: Text, pat: Text, x: int)
    requires
        stands_at(s, pat, x),
        forall|j: int| 0 <= j < x ==> !#[trigger] stands_at(s, pat, j),
    ensures
        find(s, pat) == Some(x),
{
    lemma_find_from(s, pat, 0);
}

/// Where a time begins on a line with a token.
spec fn find_beside(p: Text, n: int, q: Text, pat: Text) -> Option<int> {
    match find(p, pat) {
        Some(x) => Some(x),
        None => match find(q, pat) {
            Some(y) => Some(n + y),
            None => None,
        },
    }
}

proof fn lemma_find_beside(p: Text, m: Text, q: Text, pat: Text)
    requires
        marks_time(pat),
        p.len() > 0,
        is_space(p.last()),
        q.len() == 0 || is_space(q[0]),
        m.len() > 0,
        m[0] != 't',
        forall|k: int| 0 <= k < m.len() ==> !is_space(#[trigger] m[k]),
        forall|k: int| !#[trigger] stands_at(m, "timestamp="@, k),
    ensures
        find(p + m + q, pat) == find_beside(p, (p.len() + m.len()) as int, q, pat),
{
    let line = p + m + q;
    let e = (p.len() + m.len()) as int;
    reveal_strlit(" timestamp=");
    reveal_strlit("timestamp=");
    lemma_find_from(p, pat, 0);
    lemma_find_from(q, pat, 0);
    lemma_find_from(line, pat, 0);
    assert forall|i: int| #[trigger] stands_at(line, pat, i) <==> stands_at(p, pat, i)
        || stands_at(q, pat, i - e) by {
        lemma_time_beside(p, m, q, pat, i);
    }
    match find(p, pat) {
        Some(x) => {
            assert(stands_at(line, pat, x));
            assert forall|j: int| 0 <= j < x implies !#[trigger] stands_at(line, pat, j) by {}
            lemma_find_is(line, pat, x);
        },
        None => match find(q, pat) {
            Some(y) => {
                assert(stands_at(q, pat, e + y - e));
                assert(stands_at(line, pat, e + y));
                assert forall|j: int| 0 <= j < e + y implies !#[trigger] stands_at(line, pat, j) by {
                    if j >= e {
                        assert(!stands_at(q, pat, j - e));
                    }
                }
                lemma_find_is(line, pat, e + y);
            },
            None => {
                if let Some(x) = find(line, pat) {
                    assert(stands_at(line, pat, x));
                }
            },
        },
    }
}

/// What follows does not change the next place of a character.
pub proof fn lemma_next_of_add(t: Text, y: Text, c: char, i: int)
    requires
        0 <= i <= t.len(),
    ensures
        next_of(t, c, i) < t.len() ==> next_of(t + y, c, i) == next_of(t, c, i),
        next_of(t, c, i) >= t.len() ==> next_of(t + y, c, i) >= t.len(),
    decreases t.len() - i,
{
    lemma_next_of(t, c, i);
    if i < t.len() {
        assert((t + y)[i] == t[i]);
        if t[i] != c {
            lemma_next_of_add(t, y, c, i + 1);
        }
    } else {
        lemma_next_of(t + y, c, i);
    }
}

/// A text with an equals sign after its first character is no number.
proof fn lemma_no_number(s: Text, i: int)
    requires
        0 < i < s.len(),
        s[i] == '=',
    ensures
        parse_i64(s) is None,
{
    assert(s.skip(1)[i - 1] == '=');
    assert(!is_digit(s[i]));
    assert(!all_digits(s)) by {
        if all_digits(s) {
            assert(is_digit(s[i]));
        }
    }
    assert(!all_digits(s.skip(1))) by {
        if all_digits(s.skip(1)) {
            assert(is_digit(s.skip(1)[i - 1]));
        }
    }
}

/// The time that `r` gives where a setting follows it.
spec fn time_before(r: Text) -> Option<i64> {
    let t = trim_start(r);
    if next_of(t, '.', 0) < t.len() {
        parse_i64(before_char(t, '.'))
    } else {
        None
    }
}

/// A time does not depend on a value that follows it.
proof fn lemma_time_before(r: Text, k: Text, v: Text, q: Text)
    requires
        is_secret(k),
    ensures
        timestamp_of(r + (k + "="@ + v) + q) == time_before(r),
{
    lemma_secret_key(k);
    reveal_strlit("=");
    let m = k + "="@ + v;
    let raw = r + m + q;
    let t = trim_start(r);
    let a = t + k + "="@;
    let z = v + q;
    lemma_trim_start(r);
    assert('a' <= k[0] && k[0] <= 'z');
    assert(m[0] == k[0]);
    lemma_trim_start_add(r, m + q);
    assert(r + (m + q) =~= raw);
    if t.len() == 0 {
        assert((m + q)[0] == k[0]);
        lemma_trim_start_solid(m + q);
    }
    assert(trim_start(raw) =~= a + z);
    assert(a.last() == '=');
    assert(a[0] == if t.len() > 0 {
        t[0]
    } else {
        k[0]
    });
    assert(!is_space(a[0]));
    lemma_trim_end_add(a, z);
    let z1 = trim_end(z);
    lemma_trim_end_char_add(a, z1, 's');
    let z2 = trim_end_char(z1, 's');
    assert((a + z2)[0] == a[0]);
    lemma_trim_start_solid(a + z2);
    lemma_trim_end_add(a, z2);
    let z3 = trim_end(z2);
    let s = a + z3;
    assert(trim(trim_end_char(trim(raw), 's')) == s);
    assert(s.len() > 0);
    let y = k + "="@ + z3;
    assert(s =~= t + y);
    lemma_next_of(t, '.', 0);
    lemma_next_of_add(t, y, '.', 0);
    let j = next_of(s, '.', 0);
    lemma_next_of(s, '.', 0);
    if next_of(t, '.', 0) < t.len() {
        assert(s.take(j) =~= t.take(j));
    } else {
        let e = (t.len() + k.len()) as int;
        assert(s[e] == '=');
        if j <= e {
            if j < e {
                assert(s[j] == k[j - t.len()]);
                assert('a' <= k[j - t.len()]);
            }
            assert(false);
        }
        let b = before_char(s, '.');
        assert(b[e] == '=');
        lemma_no_number(b, e);
    }
}

// ---------------------------------------------------------------------------------------
// The line

/// What is left of the line, trimmed.
spec fn front(s: SecretPlace) -> Text {
    trim_start(s.before)
}

spec fn back(s: SecretPlace) -> Text {
    trim_end(s.after)
}

spec fn token(s: SecretPlace, v: Text) -> Text {
    s.key + "="@ + v
}

proof fn lemma_sides(s: SecretPlace)
    requires
        s.fits(),
    ensures
        front(s).len() > 0,
        !is_space(front(s)[0]),
        is_space(front(s).last()),
        back(s).len() == 0 || is_space(back(s)[0]),
{
    lemma_trim_start(s.before);
    lemma_trim_end_prefix(s.after);
    assert(front(s).last() == s.before.last());
}

proof fn lemma_trim_around(before: Text, m: Text, after: Text)
    requires
        trim_start(before).len() > 0,
        m.len() > 0,
        !is_space(m.last()),
    ensures
        trim(before + m + after) == trim_start(before) + m + trim_end(after),
{
    let p = trim_start(before);
    assert(before + m + after =~= before + (m + after));
    lemma_trim_start_add(before, m + after);
    assert(p + (m + after) =~= (p + m) + after);
    assert((p + m).last() == m.last());
    lemma_trim_end_add(p + m, after);
}

/// What the line is, trimmed, be it with or without the end of the line.
proof fn lemma_trimmed_line(s: SecretPlace, v: Text, l: Text)
    requires
        s.fits(),
        is_value(v),
        l == s.line(v) || l == strip_cr(s.line(v)),
    ensures
        trim(l) == front(s) + token(s, v) + back(s),
        trim(l).len() > 0,
{
    let m = token(s, v);
    let x = s.line(v);
    lemma_token(s.key, v);
    lemma_sides(s);
    assert(!is_space(m[m.len() - 1]));
    if l == x {
        lemma_trim_around(s.before, m, s.after);
    } else {
        assert(x.last() == '\r');
        assert(is_space('\r'));
        lemma_ends_in_after(s, m);
        let after = s.after.drop_last();
        assert(l =~= s.before + m + after);
        assert(trim_end(s.after) == trim_end(after));
        lemma_trim_around(s.before, m, after);
    }
}

/// White space at the end of the line is behind the value.
proof fn lemma_ends_in_after(s: SecretPlace, m: Text)
    requires
        m.len() > 0,
        !is_space(m.last()),
        is_space((s.before + m + s.after).last()),
    ensures
        s.after.len() > 0,
        s.after.last() == (s.before + m + s.after).last(),
{
    if s.after.len() == 0 {
        assert((s.before + m + s.after).last() == m.last());
    }
}

/// The words around a token.
proof fn lemma_words_around(p: Text, m: Text, q: Text)
    requires
        p.len() > 0,
        is_space(p.last()),
        m.len() > 0,
        forall|i: int| 0 <= i < m.len() ==> !is_space(#[trigger] m[i]),
        q.len() == 0 || is_space(q[0]),
    ensures
        words(p + m + q) == words(p) + seq![m] + words(q),
        words(trim_end(p + m + q)) == words(p) + seq![m] + words(q),
{
    lemma_word(m);
    lemma_words_add(p, m);
    lemma_words_add(p + m, q);
    lemma_words_trim_end(p + m + q);
}

/// What is recorded by words that differ in the value of a secret.
proof fn lemma_recorded(p: Text, k: Text, v: Text, w: Text, rest: Seq<Text>)
    requires
        is_secret(k),
        is_value(v),
        is_value(w),
        p.len() > 0,
        !is_space(p[0]),
    ensures
        ({
            let x = words(p) + seq![k + "="@ + v] + rest;
            let y = words(p) + seq![k + "="@ + w] + rest;
            &&& first_word(x) == first_word(y)
            &&& settings(x.drop_first()) == settings(y.drop_first())
        }),
{
    let a = k + "="@ + v;
    let b = k + "="@ + w;
    let x = words(p) + seq![a] + rest;
    let y = words(p) + seq![b] + rest;
    lemma_token(k, v);
    lemma_token(k, w);
    lemma_trim_start_solid(p);
    assert(words(p).len() > 0);
    assert(x[0] == words(p)[0] && y[0] == words(p)[0]);
    let d = words(p).drop_first();
    assert(x.drop_first() =~= d + seq![a] + rest);
    assert(y.drop_first() =~= d + seq![b] + rest);
    lemma_settings_swap(d, a, b, rest);
}

/// What the line says does not depend on the value.
proof fn lemma_same_entry(s: SecretPlace, v: Text, w: Text)
    requires
        s.fits(),
        is_value(v),
        is_value(w),
    ensures
        remote_entry(front(s) + token(s, v) + back(s)) == remote_entry(
            front(s) + token(s, w) + back(s),
        ),
{
    let p = front(s);
    let q = back(s);
    let mv = token(s, v);
    let mw = token(s, w);
    lemma_sides(s);
    lemma_token(s.key, v);
    lemma_token(s.key, w);
    lemma_find_beside(p, mv, q, " timestamp="@);
    lemma_find_beside(p, mw, q, " timestamp="@);
    lemma_find_beside(p, mv, q, "timestamp="@);
    lemma_find_beside(p, mw, q, "timestamp="@);
    if find(p, " timestamp="@) is Some {
        lemma_time_in_front(s, v, w, " timestamp="@);
    } else if find(q, " timestamp="@) is Some {
        lemma_time_in_back(s, v, w, " timestamp="@);
    } else if find(p, "timestamp="@) is Some {
        lemma_time_in_front(s, v, w, "timestamp="@);
    } else if find(q, "timestamp="@) is Some {
        lemma_time_in_back(s, v, w, "timestamp="@);
    } else {
        lemma_words_around(p, mv, q);
        lemma_words_around(p, mw, q);
        lemma_recorded(p, s.key, v, w, words(q));
    }
}

/// Where the time begins before the token.
proof fn lemma_time_in_front(s: SecretPlace, v: Text, w: Text, pat: Text)
    requires
        s.fits(),
        find(front(s), pat) is Some,
    ensures
        ({
            let a = front(s) + token(s, v) + back(s);
            let b = front(s) + token(s, w) + back(s);
            let x = find(front(s), pat)->0;
            &&& a.take(x) == b.take(x)
            &&& timestamp_of(a.skip(x + pat.len())) == timestamp_of(b.skip(x + pat.len()))
        }),
{
    let p = front(s);
    let q = back(s);
    let a = p + token(s, v) + q;
    let b = p + token(s, w) + q;
    let x = find(p, pat)->0;
    let n = x + pat.len();
    lemma_find_from(p, pat, 0);
    assert(a.take(x) =~= p.take(x));
    assert(b.take(x) =~= p.take(x));
    assert(a.skip(n) =~= p.skip(n) + token(s, v) + q);
    assert(b.skip(n) =~= p.skip(n) + token(s, w) + q);
    lemma_time_before(p.skip(n), s.key, v, q);
    lemma_time_before(p.skip(n), s.key, w, q);
}

/// Where the time begins after the token.
proof fn lemma_time_in_back(s: SecretPlace, v: Text, w: Text, pat: Text)
    requires
        s.fits(),
        is_value(v),
        is_value(w),
        find(back(s), pat) is Some,
    ensures
        ({
            let a = front(s) + token(s, v) + back(s);
            let b = front(s) + token(s, w) + back(s);
            let y = find(back(s), pat)->0;
            let na = front(s).len() + token(s, v).len() + y;
            let nb = front(s).len() + token(s, w).len() + y;
            let wa = words(trim_end(a.take(na)));
            let wb = words(trim_end(b.take(nb)));
            &&& a.skip(na + pat.len()) == b.skip(nb + pat.len())
            &&& first_word(wa) == first_word(wb)
            &&& settings(wa.drop_first()) == settings(wb.drop_first())
        }),
{
    let p = front(s);
    let q = back(s);
    let mv = token(s, v);
    let mw = token(s, w);
    let a = p + mv + q;
    let b = p + mw + q;
    let y = find(q, pat)->0;
    let na = p.len() + mv.len() + y;
    let nb = p.len() + mw.len() + y;
    let q1 = q.take(y);
    lemma_sides(s);
    lemma_token(s.key, v);
    lemma_token(s.key, w);
    lemma_find_from(q, pat, 0);
    assert(a.take(na) =~= p + mv + q1);
    assert(b.take(nb) =~= p + mw + q1);
    assert(a.skip(na + pat.len()) =~= q.skip(y + pat.len()));
    assert(b.skip(nb + pat.len()) =~= q.skip(y + pat.len()));
    lemma_words_around(p, mv, q1);
    lemma_words_around(p, mw, q1);
    lemma_recorded(p, s.key, v, w, words(q1));
}

// ---------------------------------------------------------------------------------------
// The lines

/// There is always a piece.
pub proof fn lemma_split_some(s: Text, c: char)
    ensures
        split_on(s, c).len() > 0,
{
    lemma_next_of(s, c, 0);
}

/// What ends with a separator is split off.
pub proof fn lemma_split_head(h: Text, y: Text, c: char)
    requires
        h.len() == 0 || h.last() == c,
    ensures
        split_on(h + y, c) == split_on(h, c).drop_last() + split_on(y, c),
    decreases h.len(),
{
    lemma_next_of(h, c, 0);
    lemma_next_of_add(h, y, c, 0);
    let j = next_of(h, c, 0);
    if h.len() == 0 {
        assert(h + y =~= y);
        assert(split_on(h, c) =~= seq![h]);
        assert(split_on(h, c).drop_last() + split_on(y, c) =~= split_on(y, c));
    } else {
        assert(j < h.len()) by {
            if j >= h.len() {
                assert(h[h.len() - 1] != c);
            }
        }
        let r = h.skip(j + 1);
        assert((h + y).take(j) =~= h.take(j));
        assert((h + y).skip(j + 1) =~= r + y);
        lemma_split_head(r, y, c);
        lemma_split_some(r, c);
        assert(split_on(h + y, c) == seq![h.take(j)] + split_on(r + y, c));
        assert(split_on(h, c) == seq![h.take(j)] + split_on(r, c));
        assert(split_on(h + y, c) =~= split_on(h, c).drop_last() + split_on(y, c));
    }
}

/// A line without a separator is split off from what follows it.
pub proof fn lemma_split_line(x: Text, tail: Text, c: char)
    requires
        forall|i: int| 0 <= i < x.len() ==> #[trigger] x[i] != c,
        tail.len() == 0 || tail[0] == c,
    ensures
        split_on(x + tail, c) == seq![x] + (if tail.len() == 0 {
            Seq::<Text>::empty()
        } else {
            split_on(tail.skip(1), c)
        }),
{
    let s = x + tail;
    let j = next_of(s, c, 0);
    lemma_next_of(s, c, 0);
    if j < x.len() {
        assert(s[j] == x[j]);
    }
    if tail.len() == 0 {
        assert(s =~= x);
        assert(split_on(s, c) =~= seq![x] + Seq::<Text>::empty());
    } else {
        assert(s[x.len() as int] == c);
        assert(j == x.len());
        assert(s.take(j) =~= x);
        assert(s.skip(j + 1) =~= tail.skip(1));
    }
}

/// The lines of the log, with nothing in the place of the one with the secret.
spec fn frame(s: SecretPlace) -> Seq<Text> {
    split_on(s.head, '\n').drop_last().map_values(|p: Text| strip_cr(p)) + seq![Seq::empty()] + (
    if s.tail.len() == 0 {
        Seq::<Text>::empty()
    } else {
        lines(s.tail.skip(1))
    })
}

/// The lines of the log, with the value `v`.
proof fn lemma_lines(s: SecretPlace, v: Text)
    requires
        s.fits(),
        is_value(v),
    ensures
        ({
            let l = lines(s.log(v));
            let h = split_on(s.head, '\n').len() - 1;
            &&& l.len() == frame(s).len()
            &&& 0 <= h < l.len()
            &&& l[h] == s.line(v) || l[h] == strip_cr(s.line(v))
            &&& forall|i: int| 0 <= i < l.len() && i != h ==> #[trigger] l[i] == frame(s)[i]
        }),
{
    let x = s.line(v);
    let m = token(s, v);
    let all = s.log(v);
    let strip = |p: Text| strip_cr(p);
    let hs = split_on(s.head, '\n').drop_last();
    let h = hs.len() as int;
    lemma_token(s.key, v);
    lemma_split_some(s.head, '\n');
    assert forall|i: int| 0 <= i < x.len() implies #[trigger] x[i] != '\n' by {
        let n = s.before.len() as int;
        if i < n {
            assert(x[i] == s.before[i]);
        } else if i < n + m.len() {
            assert(x[i] == m[i - n]);
            assert(!is_space(m[i - n]));
            assert(is_space('\n'));
        } else {
            assert(x[i] == s.after[i - n - m.len()]);
        }
    }
    assert(all =~= s.head + (x + s.tail));
    lemma_split_head(s.head, x + s.tail, '\n');
    lemma_split_line(x, s.tail, '\n');
    let parts = split_on(all, '\n');
    let l = lines(all);
    if s.tail.len() == 0 {
        assert(parts =~= hs.push(x));
        assert(parts.drop_last() =~= hs);
        assert(parts.last() == x);
        assert(l =~= hs.map_values(strip).push(x));
    } else {
        let r = split_on(s.tail.skip(1), '\n');
        lemma_split_some(s.tail.skip(1), '\n');
        assert(parts =~= hs + seq![x] + r);
        assert(parts.drop_last() =~= hs + seq![x] + r.drop_last());
        assert(parts.last() == r.last());
        let ended = parts.drop_last().map_values(strip);
        assert(ended =~= hs.map_values(strip) + seq![strip_cr(x)] + r.drop_last().map_values(strip));
        assert(l =~= hs.map_values(strip) + seq![strip_cr(x)] + lines(s.tail.skip(1)));
    }
}

/// Lines that say the same come to the same.
proof fn lemma_same_newest<T>(a: Seq<Text>, b: Seq<Text>, entry: spec_fn(Text) -> Option<Entry<T>>)
    requires
        a.len() == b.len(),
        forall|i: int|
            0 <= i < a.len() ==> a[i] == b[i] || (a[i].len() > 0 && b[i].len() > 0 && entry(
                #[trigger] a[i],
            ) == entry(b[i])),
    ensures
        newest(a.filter(|l: Text| l.len() > 0), entry) == newest(
            b.filter(|l: Text| l.len() > 0),
            entry,
        ),
    decreases a.len(),
{
    reveal(Seq::filter);
    let keep = |l: Text| l.len() > 0;
    if a.len() > 0 {
        let x = a.drop_last();
        let y = b.drop_last();
        assert forall|i: int| 0 <= i < x.len() implies x[i] == y[i] || (x[i].len() > 0
            && y[i].len() > 0 && entry(#[trigger] x[i]) == entry(y[i])) by {
            assert(x[i] == a[i] && y[i] == b[i]);
        }
        lemma_same_newest(x, y, entry);
        assert(a[a.len() - 1] == a.last());
        if a.last().len() > 0 {
            assert(a.filter(keep) == x.filter(keep).push(a.last()));
            assert(b.filter(keep) == y.filter(keep).push(b.last()));
            assert(a.filter(keep).drop_last() =~= x.filter(keep));
            assert(b.filter(keep).drop_last() =~= y.filter(keep));
        }
    }
}

} // verus!
