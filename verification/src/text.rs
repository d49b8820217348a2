//! Text as sequences of characters: trimming, splitting, searching, and decimal numbers.
//!
//! Every function is stated over the characters of its argument, so the parsers built on
//! top of them can be stated the same way.

use vstd::prelude::*;
use vstd::slice::slice_subrange;

verus! {

/// `String::push` appends one character to the end of the string.
pub assume_specification[ String::push ](s: &mut String, c: char)
    ensures
        final(s)@ == old(s)@.push(c),
;

/// A piece of text.
pub type Text = Seq<char>;

// ---------------------------------------------------------------------------------------
// Conversions

/// The characters of `s`.
pub fn chars_of(s: &str) -> (r: Vec<char>)
    ensures
        r@ == s@,
{
    let mut v: Vec<char> = Vec::new();
    for c in it: s.chars()
        invariant
            v@ == s@.take(it.index()),
            it.seq() == s@,
    {
        v.push(c);
    }
    v
}

/// The string made of the characters `v`.
pub fn string_of(v: &[char]) -> (r: String)
    ensures
        r@ == v@,
{
    let mut s: String = String::new();
    let mut i: usize = 0;
    while i < v.len()
        invariant
            i <= v@.len(),
            s@ == v@.take(i as int),
        decreases v@.len() - i,
    {
        s.push(v[i]);
        i += 1;
        assert(v@.take(i as int) == v@.take(i - 1).push(v@[i - 1]));
    }
    assert(v@.take(i as int) == v@);
    s
}

/// The characters of a vector, seen through or not, are the same.
pub proof fn lemma_chars_deep(v: Vec<char>)
    ensures
        v.deep_view() == v@,
{
    assert(v.deep_view() =~= v@);
}

/// An owned copy of a slice of characters.
pub fn copy_chars(v: &[char]) -> (r: Vec<char>)
    ensures
        r@ == v@,
{
    let mut out: Vec<char> = Vec::new();
    let mut i: usize = 0;
    while i < v.len()
        invariant
            i <= v@.len(),
            out@ == v@.take(i as int),
        decreases v@.len() - i,
    {
        out.push(v[i]);
        i += 1;
        assert(v@.take(i as int) == v@.take(i - 1).push(v@[i - 1]));
    }
    assert(v@.take(i as int) == v@);
    out
}

/// Whether two slices hold the same characters.
pub fn same_chars(a: &[char], b: &[char]) -> (r: bool)
    ensures
        r == (a@ == b@),
{
    if a.len() != b.len() {
        return false;
    }
    let mut i: usize = 0;
    while i < a.len()
        invariant
            i <= a@.len(),
            a@.len() == b@.len(),
            a@.take(i as int) == b@.take(i as int),
        decreases a@.len() - i,
    {
        if a[i] != b[i] {
            assert(a@[i as int] != b@[i as int]);
            return false;
        }
        i += 1;
        assert(a@.take(i as int) == a@.take(i - 1).push(a@[i - 1]));
        assert(b@.take(i as int) == b@.take(i - 1).push(b@[i - 1]));
    }
    assert(a@.take(i as int) == a@);
    assert(b@.take(i as int) == b@);
    true
}

/// Whether two strings hold the same characters.
pub fn same_text(a: &str, b: &str) -> (r: bool)
    ensures
        r == (a@ == b@),
{
    let x = chars_of(a);
    let y = chars_of(b);
    same_chars(x.as_slice(), y.as_slice())
}

/// Whether the optional strings are both absent, or hold the same characters.
pub fn same_optional(a: &Option<String>, b: &Option<String>) -> (r: bool)
    ensures
        r == (a.deep_view() == b.deep_view()),
{
    match (a, b) {
        (None, None) => true,
        (Some(x), Some(y)) => *x == *y,
        _ => false,
    }
}

/// Whether two lists hold the same strings in the same order.
pub fn same_list(a: &Vec<String>, b: &Vec<String>) -> (r: bool)
    ensures
        r == (a.deep_view() == b.deep_view()),
{
    if a.len() != b.len() {
        assert(a.deep_view().len() != b.deep_view().len());
        return false;
    }
    let mut i: usize = 0;
    while i < a.len()
        invariant
            i <= a@.len(),
            a@.len() == b@.len(),
            forall|j: int| 0 <= j < i ==> a.deep_view()[j] == b.deep_view()[j],
        decreases a@.len() - i,
    {
        if a[i] != b[i] {
            assert(a.deep_view()[i as int] != b.deep_view()[i as int]);
            return false;
        }
        i += 1;
    }
    assert(a.deep_view() =~= b.deep_view());
    true
}

// ---------------------------------------------------------------------------------------
// Whitespace

/// The characters with the Unicode property `White_Space`.
pub open spec fn is_space(c: char) -> bool {
    let n = c as u32;
    ||| 0x9 <= n <= 0xD
    ||| n == 0x20
    ||| n == 0x85
    ||| n == 0xA0
    ||| n == 0x1680
    ||| 0x2000 <= n <= 0x200A
    ||| n == 0x2028
    ||| n == 0x2029
    ||| n == 0x202F
    ||| n == 0x205F
    ||| n == 0x3000
}

/// Whether `c` is whitespace.
pub fn is_white(c: char) -> (r: bool)
    ensures
        r == is_space(c),
{
    let n: u32 = c as u32;
    (0x9 <= n && n <= 0xD) || n == 0x20 || n == 0x85 || n == 0xA0 || n == 0x1680
        || (0x2000 <= n && n <= 0x200A) || n == 0x2028 || n == 0x2029 || n == 0x202F || n
        == 0x205F || n == 0x3000
}

/// `s` without its leading whitespace.
pub open spec fn trim_start(s: Text) -> Text
    decreases s.len(),
{
    if s.len() > 0 && is_space(s[0]) {
        trim_start(s.drop_first())
    } else {
        s
    }
}

/// `s` without its trailing whitespace.
pub open spec fn trim_end(s: Text) -> Text
    decreases s.len(),
{
    if s.len() > 0 && is_space(s.last()) {
        trim_end(s.drop_last())
    } else {
        s
    }
}

/// `s` without leading and trailing whitespace.
pub open spec fn trim(s: Text) -> Text {
    trim_end(trim_start(s))
}

/// `s` without the run of `c` at its end.
pub open spec fn trim_end_char(s: Text, c: char) -> Text
    decreases s.len(),
{
    if s.len() > 0 && s.last() == c {
        trim_end_char(s.drop_last(), c)
    } else {
        s
    }
}

/// `s` without the white space at its start.
pub fn trim_start_of(s: &[char]) -> (r: &[char])
    ensures
        r@ == trim_start(s@),
{
    let mut i: usize = 0;
    assert(s@.skip(0) == s@);
    while i < s.len() && is_white(s[i])
        invariant
            i <= s@.len(),
            trim_start(s@) == trim_start(s@.skip(i as int)),
        decreases s@.len() - i,
    {
        assert(s@.skip(i as int).drop_first() == s@.skip(i + 1));
        i += 1;
    }
    assert(s@.skip(i as int) == s@.subrange(i as int, s@.len() as int));
    slice_subrange(s, i, s.len())
}

/// `s` without the white space at its end.
pub fn trim_end_of(s: &[char]) -> (r: &[char])
    ensures
        r@ == trim_end(s@),
{
    let mut n: usize = s.len();
    assert(s@.take(n as int) == s@);
    while n > 0 && is_white(s[n - 1])
        invariant
            n <= s@.len(),
            trim_end(s@) == trim_end(s@.take(n as int)),
        decreases n,
    {
        assert(s@.take(n as int).drop_last() == s@.take(n - 1));
        n -= 1;
    }
    assert(s@.take(n as int) == s@.subrange(0, n as int));
    slice_subrange(s, 0, n)
}

/// `s` without the white space at its ends.
pub fn trim_of(s: &[char]) -> (r: &[char])
    ensures
        r@ == trim(s@),
{
    trim_end_of(trim_start_of(s))
}

/// `s` without the run of `c` at its end.
pub fn trim_end_char_of(s: &[char], c: char) -> (r: &[char])
    ensures
        r@ == trim_end_char(s@, c),
{
    let mut n: usize = s.len();
    assert(s@.take(n as int) == s@);
    while n > 0 && s[n - 1] == c
        invariant
            n <= s@.len(),
            trim_end_char(s@, c) == trim_end_char(s@.take(n as int), c),
        decreases n,
    {
        assert(s@.take(n as int).drop_last() == s@.take(n - 1));
        n -= 1;
    }
    assert(s@.take(n as int) == s@.subrange(0, n as int));
    slice_subrange(s, 0, n)
}

// ---------------------------------------------------------------------------------------
// Searching

/// The first position at or after `i` that holds `c`; the length of `s` where there is none.
pub open spec fn next_of(s: Text, c: char, i: int) -> int
    decreases s.len() - i,
{
    if i < 0 || i >= s.len() {
        s.len() as int
    } else if s[i] == c {
        i
    } else {
        next_of(s, c, i + 1)
    }
}

/// What the next place of a character is.
pub proof fn lemma_next_of(s: Text, c: char, i: int)
    requires
        0 <= i <= s.len(),
    ensures
        i <= next_of(s, c, i) <= s.len(),
        next_of(s, c, i) < s.len() ==> s[next_of(s, c, i)] == c,
        forall|j: int| i <= j < next_of(s, c, i) ==> s[j] != c,
    decreases s.len() - i,
{
    if i < s.len() && s[i] != c {
        lemma_next_of(s, c, i + 1);
    }
}

/// The first place of `c` from `i` on; the length where there is none.
pub fn next_index(s: &[char], c: char, i: usize) -> (r: usize)
    requires
        i <= s@.len(),
    ensures
        r == next_of(s@, c, i as int),
        i <= r <= s@.len(),
{
    let mut j: usize = i;
    while j < s.len() && s[j] != c
        invariant
            i <= j <= s@.len(),
            next_of(s@, c, i as int) == next_of(s@, c, j as int),
        decreases s@.len() - j,
    {
        j += 1;
    }
    j
}

/// `pat` stands in `s` at position `i`.
pub open spec fn stands_at(s: Text, pat: Text, i: int) -> bool {
    &&& 0 <= i
    &&& i + pat.len() <= s.len()
    &&& s.subrange(i, i + pat.len()) == pat
}

/// The first position at or after `i` where `pat` stands in `s`.
pub open spec fn find_from(s: Text, pat: Text, i: int) -> Option<int>
    decreases s.len() + 1 - i,
{
    if i < 0 || i + pat.len() > s.len() {
        None
    } else if stands_at(s, pat, i) {
        Some(i)
    } else {
        find_from(s, pat, i + 1)
    }
}

/// The first position where `pat` stands in `s`.
pub open spec fn find(s: Text, pat: Text) -> Option<int> {
    find_from(s, pat, 0)
}

/// The last position at or before `i` where `pat` stands in `s`.
pub open spec fn rfind_from(s: Text, pat: Text, i: int) -> Option<int>
    decreases i + 1,
{
    if i < 0 {
        None
    } else if stands_at(s, pat, i) {
        Some(i)
    } else {
        rfind_from(s, pat, i - 1)
    }
}

/// The last position where `pat` stands in `s`.
pub open spec fn rfind(s: Text, pat: Text) -> Option<int> {
    rfind_from(s, pat, s.len() - pat.len())
}

/// `pat` stands somewhere in `s`.
pub open spec fn contains_text(s: Text, pat: Text) -> bool {
    find(s, pat) is Some
}

/// `s` begins with `pat`.
pub open spec fn starts_with(s: Text, pat: Text) -> bool {
    stands_at(s, pat, 0)
}

/// What the first place of a text is.
pub proof fn lemma_find_from(s: Text, pat: Text, i: int)
    requires
        0 <= i,
    ensures
        find_from(s, pat, i) matches Some(p) ==> i <= p && stands_at(s, pat, p) && (forall|j: int|
            i <= j < p ==> !stands_at(s, pat, j)),
        find_from(s, pat, i) is None ==> forall|j: int| i <= j ==> !stands_at(s, pat, j),
    decreases s.len() + 1 - i,
{
    if i + pat.len() <= s.len() && !stands_at(s, pat, i) {
        lemma_find_from(s, pat, i + 1);
    }
}

/// A text contains `pat` exactly when it is `pat` with something before and after it.
pub proof fn law_contains_text(s: Text, pat: Text)
    ensures
        contains_text(s, pat) <==> exists|i: int| stands_at(s, pat, i),
{
    lemma_find_from(s, pat, 0);
    if contains_text(s, pat) {
        assert(stands_at(s, pat, find(s, pat)->0));
    }
}

/// Whether `pat` stands in `s` at `i`.
pub fn stands_here(s: &[char], pat: &[char], i: usize) -> (r: bool)
    ensures
        r == stands_at(s@, pat@, i as int),
{
    if i > s.len() || pat.len() > s.len() - i {
        return false;
    }
    assert(i + pat@.len() <= s@.len());
    same_chars(slice_subrange(s, i, i + pat.len()), pat)
}

/// The first place of `pat` in `s`.
pub fn find_index(s: &[char], pat: &[char]) -> (r: Option<usize>)
    ensures
        r is Some == find(s@, pat@) is Some,
        r matches Some(p) ==> p == find(s@, pat@)->0 && p + pat@.len() <= s@.len(),
{
    let mut i: usize = 0;
    while pat.len() <= s.len() - i
        invariant
            i <= s@.len(),
            find(s@, pat@) == find_from(s@, pat@, i as int),
        decreases s@.len() - i,
    {
        if stands_here(s, pat, i) {
            return Some(i);
        }
        if i == s.len() {
            assert(find_from(s@, pat@, i + 1) is None);
            return None;
        }
        i += 1;
    }
    None
}

/// The last place of `pat` in `s`.
pub fn rfind_index(s: &[char], pat: &[char]) -> (r: Option<usize>)
    ensures
        r is Some == rfind(s@, pat@) is Some,
        r matches Some(p) ==> p == rfind(s@, pat@)->0 && p + pat@.len() <= s@.len(),
{
    if pat.len() > s.len() {
        return None;
    }
    let mut i: usize = s.len() - pat.len();
    loop
        invariant
            i + pat@.len() <= s@.len(),
            rfind(s@, pat@) == rfind_from(s@, pat@, i as int),
        decreases i,
    {
        if stands_here(s, pat, i) {
            return Some(i);
        }
        if i == 0 {
            assert(rfind_from(s@, pat@, -1) is None);
            return None;
        }
        i -= 1;
    }
}

/// Whether `pat` stands somewhere in `s`.
pub fn has_text(s: &[char], pat: &str) -> (r: bool)
    ensures
        r == contains_text(s@, pat@),
{
    let p = chars_of(pat);
    find_index(s, p.as_slice()).is_some()
}

/// Whether `s` begins with `pat`.
pub fn begins_with(s: &[char], pat: &str) -> (r: bool)
    ensures
        r == starts_with(s@, pat@),
{
    let p = chars_of(pat);
    stands_here(s, p.as_slice(), 0)
}

// ---------------------------------------------------------------------------------------
// Splitting

/// The pieces of `s` between the occurrences of `c`: one more than there are occurrences.
pub open spec fn split_on(s: Text, c: char) -> Seq<Text>
    decreases s.len(),
    via split_on_shrinks
{
    let j = next_of(s, c, 0);
    if 0 <= j < s.len() {
        seq![s.take(j)] + split_on(s.skip(j + 1), c)
    } else {
        seq![s]
    }
}

/// No piece between separators holds one.
pub proof fn lemma_split_on_free(s: Text, c: char)
    ensures
        forall|i: int, j: int|
            0 <= i < split_on(s, c).len() && 0 <= j < split_on(s, c)[i].len() ==> #[trigger] split_on(
                s,
                c,
            )[i][j] != c,
    decreases s.len(),
{
    lemma_next_of(s, c, 0);
    let k = next_of(s, c, 0);
    if k < s.len() {
        let rest = s.skip(k + 1);
        lemma_split_on_free(rest, c);
        assert forall|i: int, j: int|
            0 <= i < split_on(s, c).len() && 0 <= j < split_on(s, c)[i].len() implies #[trigger] split_on(
            s,
            c,
        )[i][j] != c by {
            if i == 0 {
                assert(split_on(s, c)[0] == s.take(k));
            } else {
                assert(split_on(s, c)[i] == split_on(rest, c)[i - 1]);
            }
        }
    }
}

#[via_fn]
proof fn split_on_shrinks(s: Text, c: char) {
    lemma_next_of(s, c, 0);
}

/// A line without the carriage return that ends it.
pub open spec fn strip_cr(s: Text) -> Text {
    if s.len() > 0 && s.last() == '\r' {
        s.drop_last()
    } else {
        s
    }
}

/// The lines of `s`. A line ends with `\n` or `\r\n`; the last one needs no end.
pub open spec fn lines(s: Text) -> Seq<Text> {
    let parts = split_on(s, '\n');
    let ended = parts.drop_last().map_values(|p: Text| strip_cr(p));
    if parts.last().len() == 0 {
        ended
    } else {
        ended.push(parts.last())
    }
}

/// The first position at or after `i` that holds whitespace; the length of `s` where there
/// is none.
pub open spec fn next_space(s: Text, i: int) -> int
    decreases s.len() - i,
{
    if i < 0 || i >= s.len() {
        s.len() as int
    } else if is_space(s[i]) {
        i
    } else {
        next_space(s, i + 1)
    }
}

/// The runs of non-whitespace characters in `s`.
pub open spec fn words(s: Text) -> Seq<Text>
    decreases s.len(),
    via words_shrink
{
    let t = trim_start(s);
    if t.len() == 0 {
        Seq::empty()
    } else {
        let j = next_space(t, 0);
        seq![t.take(j)] + words(t.skip(j))
    }
}

/// What is left without the white space at the start.
pub proof fn lemma_trim_start(s: Text)
    ensures
        trim_start(s).len() <= s.len(),
        trim_start(s) == s.skip(s.len() - trim_start(s).len()),
        trim_start(s).len() > 0 ==> !is_space(trim_start(s)[0]),
    decreases s.len(),
{
    if s.len() > 0 && is_space(s[0]) {
        lemma_trim_start(s.drop_first());
        assert(s.drop_first().skip(s.drop_first().len() - trim_start(s).len()) == s.skip(
            s.len() - trim_start(s).len(),
        ));
    } else {
        assert(s.skip(0) == s);
    }
}

/// Where the next white space is.
pub proof fn lemma_next_space(s: Text, i: int)
    requires
        0 <= i <= s.len(),
    ensures
        i <= next_space(s, i) <= s.len(),
        i < s.len() && !is_space(s[i]) ==> next_space(s, i) > i,
    decreases s.len() - i,
{
    if i < s.len() && !is_space(s[i]) {
        lemma_next_space(s, i + 1);
    }
}

#[via_fn]
proof fn words_shrink(s: Text) {
    let t = trim_start(s);
    lemma_trim_start(s);
    if t.len() > 0 {
        lemma_next_space(t, 0);
    }
}

/// The pieces of `s` between the occurrences of `c`.
pub fn split_chars(s: &[char], c: char) -> (r: Vec<Vec<char>>)
    ensures
        r.deep_view() == split_on(s@, c),
        r@.len() > 0,
{
    let mut out: Vec<Vec<char>> = Vec::new();
    let mut i: usize = 0;
    assert(s@.skip(0) == s@);
    assert(out.deep_view() + split_on(s@.skip(0), c) =~= split_on(s@, c));
    loop
        invariant
            i <= s@.len(),
            split_on(s@, c) == out.deep_view() + split_on(s@.skip(i as int), c),
        decreases s@.len() - i,
    {
        let j = next_index(s, c, i);
        let piece = copy_chars(slice_subrange(s, i, j));
        let ghost rest = s@.skip(i as int);
        let ghost before = out.deep_view();
        proof {
            lemma_next_of_skip(s@, c, i as int);
            assert(rest.take(j - i) == piece@);
            if j < s@.len() {
                assert(rest.skip(j - i + 1) =~= s@.skip(j + 1));
            }
            lemma_chars_deep(piece);
        }
        out.push(piece);
        assert(out.deep_view() =~= before.push(rest.take(j - i)));
        if j == s.len() {
            assert(rest == rest.take(j - i));
            assert(before + seq![rest] =~= out.deep_view());
            return out;
        }
        assert(before + (seq![rest.take(j - i)] + split_on(s@.skip(j + 1), c))
            =~= out.deep_view() + split_on(s@.skip(j + 1), c));
        i = j + 1;
    }
}

/// To look from a place on is to look in what follows it.
pub proof fn lemma_next_of_skip(s: Text, c: char, i: int)
    requires
        0 <= i <= s.len(),
    ensures
        next_of(s.skip(i), c, 0) == next_of(s, c, i) - i,
{
    lemma_next_of_shift(s, c, i, 0);
}

proof fn lemma_next_of_shift(s: Text, c: char, i: int, k: int)
    requires
        0 <= i,
        0 <= k,
        i + k <= s.len(),
    ensures
        next_of(s.skip(i), c, k) == next_of(s, c, i + k) - i,
    decreases s.len() - i - k,
{
    if i + k < s.len() && s[i + k] != c {
        lemma_next_of_shift(s, c, i, k + 1);
    }
}

/// The lines of `s`.
pub fn lines_of(s: &[char]) -> (r: Vec<Vec<char>>)
    ensures
        r.deep_view() == lines(s@),
{
    let parts = split_chars(s, '\n');
    let ghost p = parts.deep_view();
    let mut out: Vec<Vec<char>> = Vec::new();
    let n: usize = parts.len() - 1;
    let mut i: usize = 0;
    while i < n
        invariant
            i <= n,
            n == parts@.len() - 1,
            p == parts.deep_view(),
            out.deep_view() == p.take(i as int).map_values(|q: Text| strip_cr(q)),
        decreases n - i,
    {
        let part = &parts[i];
        let m: usize = part.len();
        let keep: usize = if m > 0 && part[m - 1] == '\r' {
            m - 1
        } else {
            m
        };
        let line = copy_chars(slice_subrange(part.as_slice(), 0, keep));
        proof {
            lemma_chars_deep(parts@[i as int]);
            lemma_chars_deep(line);
            assert(line@ == strip_cr(p[i as int]));
            assert(p.take(i + 1) =~= p.take(i as int).push(p[i as int]));
        }
        let ghost before = out.deep_view();
        out.push(line);
        assert(out.deep_view() =~= before.push(strip_cr(p[i as int])));
        assert(p.take(i + 1).map_values(|q: Text| strip_cr(q)) =~= p.take(i as int).map_values(
            |q: Text| strip_cr(q),
        ).push(strip_cr(p[i as int])));
        i += 1;
    }
    assert(p.take(n as int) =~= p.drop_last());
    proof {
        lemma_chars_deep(parts@[n as int]);
    }
    if parts[n].len() > 0 {
        let ghost before = out.deep_view();
        let last = copy_chars(parts[n].as_slice());
        proof {
            lemma_chars_deep(last);
        }
        out.push(last);
        assert(out.deep_view() =~= before.push(p.last()));
    }
    out
}

/// The runs of non-whitespace characters in `s`.
pub fn words_of(s: &[char]) -> (r: Vec<Vec<char>>)
    ensures
        r.deep_view() == words(s@),
{
    let mut out: Vec<Vec<char>> = Vec::new();
    let mut rest: &[char] = trim_start_of(s);
    proof {
        lemma_words_trimmed(s@);
        assert(out.deep_view() + words(rest@) =~= words(s@));
    }
    while rest.len() > 0
        invariant
            words(s@) == out.deep_view() + words(rest@),
            trim_start(rest@) == rest@,
        decreases rest@.len(),
    {
        let ghost before = out.deep_view();
        let ghost t = rest@;
        let mut j: usize = 0;
        while j < rest.len() && !is_white(rest[j])
            invariant
                j <= rest@.len(),
                next_space(rest@, 0) == next_space(rest@, j as int),
            decreases rest@.len() - j,
        {
            j += 1;
        }
        let word = copy_chars(slice_subrange(rest, 0, j));
        let after = slice_subrange(rest, j, rest.len());
        proof {
            lemma_trim_start(t);
            lemma_next_space(t, 0);
            assert(word@ == t.take(j as int));
            assert(after@ == t.skip(j as int));
            lemma_chars_deep(word);
            lemma_words_trimmed(after@);
            lemma_trim_start(after@);
        }
        out.push(word);
        rest = trim_start_of(after);
        assert(out.deep_view() =~= before.push(t.take(j as int)));
        assert(before + (seq![t.take(j as int)] + words(rest@)) =~= out.deep_view() + words(
            rest@,
        ));
    }
    assert(words(rest@) =~= Seq::<Text>::empty());
    assert(out.deep_view() =~= words(s@));
    out
}

proof fn lemma_words_trimmed(s: Text)
    ensures
        words(trim_start(s)) == words(s),
        trim_start(trim_start(s)) == trim_start(s),
{
    lemma_trim_start(s);
}

/// `s` cut at the first `c`: what stands before it and what stands after it.
pub open spec fn split_once(s: Text, c: char) -> Option<(Text, Text)> {
    let j = next_of(s, c, 0);
    if j < s.len() {
        Some((s.take(j), s.skip(j + 1)))
    } else {
        None
    }
}

/// What stands before the first `c` in `s`: all of `s` where there is none.
pub open spec fn before_char(s: Text, c: char) -> Text {
    s.take(next_of(s, c, 0))
}

/// What stands after the first `c` in `s`: nothing where there is none.
pub open spec fn after_char(s: Text, c: char) -> Text {
    let j = next_of(s, c, 0);
    if j < s.len() {
        s.skip(j + 1)
    } else {
        Seq::empty()
    }
}

/// What stands before and after the first `c` in `s`.
pub fn cut_at_char(s: &[char], c: char) -> (r: (&[char], &[char]))
    ensures
        r.0@ == before_char(s@, c),
        r.1@ == after_char(s@, c),
{
    let j = next_index(s, c, 0);
    let n: usize = s.len();
    let head = slice_subrange(s, 0, j);
    let tail = if j < n {
        slice_subrange(s, j + 1, n)
    } else {
        slice_subrange(s, n, n)
    };
    assert(head@ =~= before_char(s@, c));
    assert(tail@ =~= after_char(s@, c));
    (head, tail)
}

/// The parts of `s` before and after the first `c`, where there is one.
pub fn split_once_of(s: &[char], c: char) -> (r: Option<(&[char], &[char])>)
    ensures
        match r {
            Some((a, b)) => split_once(s@, c) == Some((a@, b@)),
            None => split_once(s@, c) is None,
        },
{
    let j = next_index(s, c, 0);
    let n: usize = s.len();
    if j < n {
        let head = slice_subrange(s, 0, j);
        let tail = slice_subrange(s, j + 1, n);
        assert(head@ =~= s@.take(j as int));
        assert(tail@ =~= s@.skip(j + 1));
        Some((head, tail))
    } else {
        None
    }
}

// ---------------------------------------------------------------------------------------
// Decimal numbers

/// `c` is one of the ten decimal digits.
pub open spec fn is_digit(c: char) -> bool {
    '0' <= c <= '9'
}

/// The number that a digit stands for.
pub open spec fn digit_value(c: char) -> int {
    c as int - '0' as int
}

/// `s` consists of digits.
pub open spec fn all_digits(s: Text) -> bool {
    forall|i: int| 0 <= i < s.len() ==> is_digit(s[i])
}

/// The number that a run of digits stands for.
pub open spec fn digits_value(s: Text) -> int
    decreases s.len(),
{
    if s.len() == 0 {
        0
    } else {
        digits_value(s.drop_last()) * 10 + digit_value(s.last())
    }
}

/// The number that `s` spells: digits with or without a plus sign before them.
pub open spec fn unsigned_value(s: Text) -> Option<int> {
    let body = if s.len() > 0 && s[0] == '+' {
        s.skip(1)
    } else {
        s
    };
    if body.len() > 0 && all_digits(body) {
        Some(digits_value(body))
    } else {
        None
    }
}

/// The number that `s` spells: digits with or without a sign before them.
pub open spec fn signed_value(s: Text) -> Option<int> {
    if s.len() > 0 && s[0] == '-' {
        let body = s.skip(1);
        if body.len() > 0 && all_digits(body) {
            Some(-digits_value(body))
        } else {
            None
        }
    } else {
        unsigned_value(s)
    }
}

/// The `u64` that `s` spells.
pub open spec fn parse_u64(s: Text) -> Option<u64> {
    match unsigned_value(s) {
        Some(n) if n <= u64::MAX => Some(n as u64),
        _ => None,
    }
}

/// The `u32` that `s` spells.
pub open spec fn parse_u32(s: Text) -> Option<u32> {
    match unsigned_value(s) {
        Some(n) if n <= u32::MAX => Some(n as u32),
        _ => None,
    }
}

/// The `i64` that `s` spells.
pub open spec fn parse_i64(s: Text) -> Option<i64> {
    match signed_value(s) {
        Some(n) if i64::MIN <= n <= i64::MAX => Some(n as i64),
        _ => None,
    }
}

proof fn lemma_digits_value_bound(s: Text, i: int)
    requires
        all_digits(s),
        0 <= i <= s.len(),
    ensures
        0 <= digits_value(s.take(i)) <= digits_value(s),
    decreases s.len(),
{
    if i == s.len() {
        assert(s.take(i) == s);
        if s.len() > 0 {
            lemma_digits_value_bound(s.drop_last(), s.len() - 1);
            assert(s.drop_last().take(s.len() - 1) == s.drop_last());
        }
    } else {
        lemma_digits_value_bound(s.drop_last(), i);
        assert(s.drop_last().take(i) == s.take(i));
    }
}

/// The value of a non-empty run of digits, where it does not exceed `max`.
fn digits_up_to(s: &[char], max: u64) -> (r: Option<u64>)
    ensures
        r == (if s@.len() > 0 && all_digits(s@) && digits_value(s@) <= max {
            Some(digits_value(s@) as u64)
        } else {
            None
        }),
{
    if s.len() == 0 {
        return None;
    }
    let mut total: u128 = 0;
    let mut i: usize = 0;
    assert(s@.take(0) =~= Seq::<char>::empty());
    while i < s.len()
        invariant
            i <= s@.len(),
            forall|j: int| 0 <= j < i ==> is_digit(s@[j]),
            total == digits_value(s@.take(i as int)),
            total <= max,
        decreases s@.len() - i,
    {
        let c = s[i];
        if !('0' <= c && c <= '9') {
            assert(!is_digit(s@[i as int]));
            return None;
        }
        let d: u128 = (c as u32 - '0' as u32) as u128;
        assert(s@.take(i + 1).drop_last() == s@.take(i as int));
        total = total * 10 + d;
        i += 1;
        if total > max as u128 {
            proof {
                if all_digits(s@) {
                    lemma_digits_value_bound(s@, i as int);
                }
            }
            return None;
        }
    }
    assert(s@.take(i as int) == s@);
    Some(total as u64)
}

fn unsigned_body(s: &[char]) -> (r: &[char])
    ensures
        r@ == (if s@.len() > 0 && s@[0] == '+' {
            s@.skip(1)
        } else {
            s@
        }),
{
    if s.len() > 0 && s[0] == '+' {
        slice_subrange(s, 1, s.len())
    } else {
        s
    }
}

/// The number that the digits stand for.
pub fn u64_of(s: &[char]) -> (r: Option<u64>)
    ensures
        r == parse_u64(s@),
{
    digits_up_to(unsigned_body(s), u64::MAX)
}

/// The number that the digits stand for.
pub fn u32_of(s: &[char]) -> (r: Option<u32>)
    ensures
        r == parse_u32(s@),
{
    let body = unsigned_body(s);
    proof {
        if all_digits(body@) {
            lemma_digits_value_bound(body@, body@.len() as int);
        }
    }
    match digits_up_to(body, u32::MAX as u64) {
        Some(n) => Some(n as u32),
        None => None,
    }
}

/// The number that the digits stand for, with its sign.
pub fn i64_of(s: &[char]) -> (r: Option<i64>)
    ensures
        r == parse_i64(s@),
{
    if s.len() > 0 && s[0] == '-' {
        let body = slice_subrange(s, 1, s.len());
        assert(body@ == s@.skip(1));
        proof {
            if all_digits(body@) {
                lemma_digits_value_bound(body@, body@.len() as int);
            }
        }
        match digits_up_to(body, 0x8000_0000_0000_0000) {
            Some(n) => {
                if n == 0x8000_0000_0000_0000 {
                    Some(i64::MIN)
                } else {
                    Some(-(n as i64))
                }
            },
            None => None,
        }
    } else {
        let body = unsigned_body(s);
        proof {
            if all_digits(body@) {
                lemma_digits_value_bound(body@, body@.len() as int);
            }
        }
        match digits_up_to(body, i64::MAX as u64) {
            Some(n) => Some(n as i64),
            None => None,
        }
    }
}

/// The digit for `d`.
pub open spec fn digit_char(d: int) -> char {
    if d == 0 {
        '0'
    } else if d == 1 {
        '1'
    } else if d == 2 {
        '2'
    } else if d == 3 {
        '3'
    } else if d == 4 {
        '4'
    } else if d == 5 {
        '5'
    } else if d == 6 {
        '6'
    } else if d == 7 {
        '7'
    } else if d == 8 {
        '8'
    } else {
        '9'
    }
}

/// `n` in decimal digits, without leading zeros.
pub open spec fn decimal(n: nat) -> Text
    decreases n,
{
    if n < 10 {
        seq![digit_char(n as int)]
    } else {
        decimal(n / 10).push(digit_char((n % 10) as int))
    }
}

/// Reading back the digits of `n` gives `n`.
pub proof fn law_decimal_read_back(n: nat)
    ensures
        decimal(n).len() > 0,
        all_digits(decimal(n)),
        digits_value(decimal(n)) == n,
        unsigned_value(decimal(n)) == Some(n as int),
    decreases n,
{
    if n < 10 {
        assert(decimal(n).drop_last() =~= Seq::<char>::empty());
        assert(digits_value(decimal(n).drop_last()) == 0);
    } else {
        law_decimal_read_back(n / 10);
        assert(decimal(n).drop_last() =~= decimal(n / 10));
    }
}

fn digit_of(d: u64) -> (r: char)
    requires
        d < 10,
    ensures
        r == digit_char(d as int),
{
    match d {
        0 => '0',
        1 => '1',
        2 => '2',
        3 => '3',
        4 => '4',
        5 => '5',
        6 => '6',
        7 => '7',
        8 => '8',
        _ => '9',
    }
}

/// `n` in decimal.
pub fn decimal_of(n: u64) -> (r: String)
    ensures
        r@ == decimal(n as nat),
    decreases n,
{
    if n < 10 {
        let mut s: String = String::new();
        s.push(digit_of(n));
        assert(s@ =~= decimal(n as nat));
        s
    } else {
        let mut s = decimal_of(n / 10);
        s.push(digit_of(n % 10));
        s
    }
}

/// `n` in decimal.
pub fn count_text(n: usize) -> (r: String)
    ensures
        r@ == decimal(n as nat),
{
    decimal_of(n as u64)
}

// ---------------------------------------------------------------------------------------
// Order

/// `a` stands before `b` in the order of their first differing character, a text before
/// every longer text that it begins.
pub open spec fn text_less(a: Text, b: Text) -> bool
    decreases a.len(),
{
    if b.len() == 0 {
        false
    } else if a.len() == 0 {
        true
    } else if a[0] != b[0] {
        (a[0] as int) < (b[0] as int)
    } else {
        text_less(a.drop_first(), b.drop_first())
    }
}

/// No text is less than itself.
pub proof fn lemma_text_less_irreflexive(a: Text)
    ensures
        !text_less(a, a),
    decreases a.len(),
{
    if a.len() > 0 {
        lemma_text_less_irreflexive(a.drop_first());
    }
}

/// Of two texts one is less, or they are the same.
pub proof fn lemma_text_less_total(a: Text, b: Text)
    ensures
        a == b || text_less(a, b) || text_less(b, a),
    decreases a.len(),
{
    if a.len() == 0 && b.len() == 0 {
        assert(a =~= b);
    } else if a.len() > 0 && b.len() > 0 && a[0] == b[0] {
        lemma_text_less_total(a.drop_first(), b.drop_first());
        if a.drop_first() == b.drop_first() {
            assert(a =~= seq![a[0]] + a.drop_first());
            assert(b =~= seq![b[0]] + b.drop_first());
        }
    }
}

/// The order of texts is transitive.
pub proof fn lemma_text_less_transitive(a: Text, b: Text, c: Text)
    requires
        text_less(a, b),
        text_less(b, c),
    ensures
        text_less(a, c),
    decreases a.len(),
{
    if a.len() > 0 && a[0] == b[0] && b[0] == c[0] {
        lemma_text_less_transitive(a.drop_first(), b.drop_first(), c.drop_first());
    }
}

/// Whether `a` stands before `b`.
pub fn chars_less(a: &[char], b: &[char]) -> (r: bool)
    ensures
        r == text_less(a@, b@),
{
    let mut i: usize = 0;
    assert(a@.skip(0) == a@);
    assert(b@.skip(0) == b@);
    loop
        invariant
            i <= a@.len(),
            i <= b@.len(),
            text_less(a@, b@) == text_less(a@.skip(i as int), b@.skip(i as int)),
        decreases a@.len() - i,
    {
        if i == b.len() {
            return false;
        }
        if i == a.len() {
            return true;
        }
        let x: char = a[i];
        let y: char = b[i];
        if x != y {
            return x < y;
        }
        assert(a@.skip(i as int).drop_first() == a@.skip(i + 1));
        assert(b@.skip(i as int).drop_first() == b@.skip(i + 1));
        i += 1;
    }
}

/// Whether `a` stands before `b`.
pub fn str_less(a: &str, b: &str) -> (r: bool)
    ensures
        r == text_less(a@, b@),
{
    let x = chars_of(a);
    let y = chars_of(b);
    chars_less(x.as_slice(), y.as_slice())
}

// ---------------------------------------------------------------------------------------
// Joining

/// The texts of `list` with `sep` between each two of them.
pub open spec fn join(list: Seq<Text>, sep: Text) -> Text
    decreases list.len(),
{
    if list.len() == 0 {
        Seq::empty()
    } else if list.len() == 1 {
        list[0]
    } else {
        join(list.drop_last(), sep) + sep + list.last()
    }
}

/// The strings of `list` with `sep` between each two of them.
pub fn join_of(list: &Vec<String>, sep: &str) -> (r: String)
    ensures
        r@ == join(list.deep_view(), sep@),
{
    let mut out: String = String::new();
    let mut i: usize = 0;
    let ghost l = list.deep_view();
    while i < list.len()
        invariant
            i <= list@.len(),
            l == list.deep_view(),
            out@ == join(l.take(i as int), sep@),
        decreases list@.len() - i,
    {
        if i > 0 {
            out.append(sep);
        }
        out.append(list[i].as_str());
        assert(l.take(i + 1).drop_last() =~= l.take(i as int));
        assert(out@ =~= join(l.take(i + 1), sep@));
        i += 1;
    }
    assert(l.take(i as int) =~= l);
    out
}

/// `c` repeated `n` times.
pub open spec fn repeated(c: Text, n: nat) -> Text
    decreases n,
{
    if n == 0 {
        Seq::empty()
    } else {
        repeated(c, (n - 1) as nat) + c
    }
}

/// `c` repeated `n` times.
pub fn repeat_of(c: &str, n: usize) -> (r: String)
    ensures
        r@ == repeated(c@, n as nat),
{
    let mut out: String = String::new();
    let mut i: usize = 0;
    while i < n
        invariant
            i <= n,
            out@ == repeated(c@, i as nat),
        decreases n - i,
    {
        out.append(c);
        i += 1;
    }
    out
}

// ---------------------------------------------------------------------------------------
// Rows

/// Adds a row.
pub fn push_row(d: &mut Vec<String>, row: String)
    ensures
        final(d).deep_view() == old(d).deep_view().push(row@),
{
    let ghost before = d.deep_view();
    d.push(row);
    assert(d.deep_view() =~= before.push(row@));
}

/// `label` followed by `value`.
pub fn labelled(label: &str, value: &str) -> (r: String)
    ensures
        r@ == label@ + value@,
{
    label.to_string().concat(value)
}

/// The rows with one for `value`, if there is one.
pub open spec fn with_optional(d: Seq<Text>, label: Text, value: Option<Text>) -> Seq<Text> {
    match value {
        Some(v) => d.push(label + v),
        None => d,
    }
}

/// Adds a row for `value`, if there is one.
pub fn push_optional(d: &mut Vec<String>, label: &str, value: &Option<String>)
    ensures
        final(d).deep_view() == with_optional(old(d).deep_view(), label@, value.deep_view()),
{
    if let Some(v) = value {
        push_row(d, labelled(label, v.as_str()));
    }
}

/// The rows with one for `list`, if it is not empty.
pub open spec fn with_list(d: Seq<Text>, label: Text, list: Seq<Text>) -> Seq<Text> {
    if list.len() > 0 {
        d.push(label + join(list, ", "@))
    } else {
        d
    }
}

/// Adds a row for `list`, if it is not empty.
pub fn push_list(d: &mut Vec<String>, label: &str, list: &Vec<String>)
    ensures
        final(d).deep_view() == with_list(old(d).deep_view(), label@, list.deep_view()),
{
    if list.len() > 0 {
        push_row(d, labelled(label, join_of(list, ", ").as_str()));
    }
}

/// No rows.
pub fn no_rows() -> (r: Vec<String>)
    ensures
        r.deep_view() == Seq::<Text>::empty(),
{
    let r: Vec<String> = Vec::new();
    assert(r.deep_view() =~= Seq::<Text>::empty());
    r
}

/// A text that is repeated has its characters over and over.
pub proof fn law_repeated(c: Text, n: nat)
    ensures
        repeated(c, n).len() == n * c.len(),
        forall|i: int|
            0 <= i < repeated(c, n).len() ==> #[trigger] repeated(c, n)[i] == c[i % (
            c.len() as int)],
    decreases n,
{
    if n > 0 {
        let m = (n - 1) as nat;
        law_repeated(c, m);
        let k = c.len() as int;
        let r = repeated(c, m);
        assert(n * c.len() == m * c.len() + c.len()) by (nonlinear_arith)
            requires
                n == m + 1,
        ;
        assert forall|i: int| 0 <= i < repeated(c, n).len() implies #[trigger] repeated(c, n)[i]
            == c[i % k] by {
            if i >= r.len() {
                let j = i - r.len();
                assert(repeated(c, n)[i] == c[j]);
                assert(i % k == j) by {
                    assert(i == m * k + j);
                    vstd::arithmetic::div_mod::lemma_fundamental_div_mod_converse(
                        i,
                        k,
                        m as int,
                        j,
                    );
                }
            } else {
                assert(repeated(c, n)[i] == r[i]);
            }
        }
    } else {
        assert(n * c.len() == 0) by (nonlinear_arith)
            requires
                n == 0,
        ;
    }
}

} // verus!
