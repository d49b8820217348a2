//! Stable sorting by a number and a text.

use vstd::prelude::*;
use crate::text::{chars_less, chars_of, lemma_text_less_irreflexive, lemma_text_less_total, lemma_text_less_transitive, same_chars, text_less, Text};

verus! {

/// What an item is sorted by: first the rank, smallest first, then the text.
pub type Key = (int, Text);

/// What an item is sorted by.
pub struct SortKey {
    pub rank: i128,
    pub text: Vec<char>,
}

impl DeepView for SortKey {
    type V = Key;

    open spec fn deep_view(&self) -> Key {
        (self.rank as int, self.text@)
    }
}

impl SortKey {
    /// The key of that rank and text.
    pub fn new(rank: i128, text: &str) -> (r: SortKey)
        ensures
            r.deep_view() == (rank as int, text@),
    {
        SortKey { rank, text: chars_of(text) }
    }
}

/// Key `a` comes before key `b`.
pub open spec fn key_less(a: Key, b: Key) -> bool {
    a.0 < b.0 || (a.0 == b.0 && text_less(a.1, b.1))
}

/// Item `i` comes before item `j`: by key, and items with equal keys as they were given.
pub open spec fn before(keys: Seq<Key>, i: int, j: int) -> bool {
    key_less(keys[i], keys[j]) || (keys[i] == keys[j] && i < j)
}

/// Each index in `s` comes before those after it.
pub open spec fn ascending(keys: Seq<Key>, s: Seq<int>) -> bool {
    forall|a: int, b: int| 0 <= a < b < s.len() ==> before(keys, #[trigger] s[a], #[trigger] s[b])
}

/// `s` with `x` put at its place.
pub open spec fn insert_index(keys: Seq<Key>, s: Seq<int>, x: int) -> Seq<int>
    decreases s.len(),
{
    if s.len() == 0 || !before(keys, x, s.last()) {
        s.push(x)
    } else {
        insert_index(keys, s.drop_last(), x).push(s.last())
    }
}

/// The first `n` indices in sorted order.
pub open spec fn order_of_first(keys: Seq<Key>, n: nat) -> Seq<int>
    decreases n,
{
    if n == 0 {
        Seq::empty()
    } else {
        insert_index(keys, order_of_first(keys, (n - 1) as nat), n - 1)
    }
}

/// The indices of `keys` in sorted order.
pub open spec fn order(keys: Seq<Key>) -> Seq<int> {
    order_of_first(keys, keys.len())
}

/// The items of `s` in the sorted order of their keys.
pub open spec fn arranged<A>(s: Seq<A>, keys: Seq<Key>) -> Seq<A> {
    Seq::new(order(keys).len(), |i: int| s[order(keys)[i]])
}

/// The items of `s`, each sorted by what `key` gives for it.
pub open spec fn sorted_by<A>(s: Seq<A>, key: spec_fn(A) -> Key) -> Seq<A> {
    arranged(s, s.map_values(key))
}

/// The texts of `s` in ascending order.
pub open spec fn sorted_texts(s: Seq<Text>) -> Seq<Text> {
    sorted_by(s, |t: Text| (0int, t))
}

/// The order of keys is transitive.
pub proof fn lemma_key_less_transitive(a: Key, b: Key, c: Key)
    requires
        key_less(a, b),
        key_less(b, c),
    ensures
        key_less(a, c),
{
    if a.0 == b.0 && b.0 == c.0 {
        lemma_text_less_transitive(a.1, b.1, c.1);
    }
}

/// Of two keys one is less, or they are the same.
pub proof fn lemma_key_less_total(a: Key, b: Key)
    ensures
        a == b || key_less(a, b) || key_less(b, a),
        !key_less(a, a),
{
    lemma_text_less_total(a.1, b.1);
    lemma_text_less_irreflexive(a.1);
}

proof fn lemma_before_transitive(keys: Seq<Key>, i: int, j: int, k: int)
    requires
        before(keys, i, j),
        before(keys, j, k),
    ensures
        before(keys, i, k),
{
    if key_less(keys[i], keys[j]) && key_less(keys[j], keys[k]) {
        lemma_key_less_transitive(keys[i], keys[j], keys[k]);
    }
}

proof fn lemma_before_total(keys: Seq<Key>, i: int, j: int)
    ensures
        i == j || before(keys, i, j) || before(keys, j, i),
        !before(keys, i, i),
        before(keys, i, j) ==> !before(keys, j, i),
{
    lemma_key_less_total(keys[i], keys[j]);
    lemma_key_less_total(keys[j], keys[i]);
    if before(keys, i, j) && before(keys, j, i) {
        lemma_before_transitive(keys, i, j, i);
        lemma_key_less_total(keys[i], keys[i]);
    }
}

proof fn lemma_insert_index(keys: Seq<Key>, s: Seq<int>, x: int)
    requires
        ascending(keys, s),
        !s.contains(x),
    ensures
        ascending(keys, insert_index(keys, s, x)),
        insert_index(keys, s, x).len() == s.len() + 1,
        forall|y: int| #[trigger] insert_index(keys, s, x).contains(y) <==> y == x || s.contains(y),
    decreases s.len(),
{
    let r = insert_index(keys, s, x);
    if s.len() == 0 || !before(keys, x, s.last()) {
        if s.len() > 0 {
            assert(s.contains(s.last()));
            lemma_before_total(keys, x, s.last());
        }
        assert forall|a: int, b: int| 0 <= a < b < r.len() implies before(
            keys,
            #[trigger] r[a],
            #[trigger] r[b],
        ) by {
            if b == s.len() && a < s.len() - 1 {
                assert(before(keys, s[a], s[s.len() - 1]));
                lemma_before_transitive(keys, s[a], s.last(), x);
            }
        }
        assert forall|y: int| #[trigger] r.contains(y) <==> y == x || s.contains(y) by {
            if y == x {
                assert(r[s.len() as int] == x);
            }
            if s.contains(y) {
                let k = choose|k: int| 0 <= k < s.len() && s[k] == y;
                assert(r[k] == y);
            }
        }
    } else {
        let t = s.drop_last();
        assert forall|y: int| #[trigger] t.contains(y) implies s.contains(y) by {
            let k = choose|k: int| 0 <= k < t.len() && t[k] == y;
            assert(s[k] == y);
        }
        lemma_insert_index(keys, t, x);
        let q = insert_index(keys, t, x);
        assert forall|a: int, b: int| 0 <= a < b < r.len() implies before(
            keys,
            #[trigger] r[a],
            #[trigger] r[b],
        ) by {
            if b == q.len() {
                assert(q.contains(q[a]));
                if q[a] != x {
                    let k = choose|k: int| 0 <= k < t.len() && t[k] == q[a];
                    assert(before(keys, s[k], s[s.len() - 1]));
                }
            }
        }
        assert forall|y: int| #[trigger] r.contains(y) <==> y == x || s.contains(y) by {
            if r.contains(y) {
                let k = choose|k: int| 0 <= k < r.len() && r[k] == y;
                if k < q.len() {
                    assert(q.contains(y));
                } else {
                    assert(s[s.len() - 1] == y);
                }
            }
            if y == x || s.contains(y) {
                if y == x || t.contains(y) {
                    assert(q.contains(y));
                    let k = choose|k: int| 0 <= k < q.len() && q[k] == y;
                    assert(r[k] == y);
                } else {
                    let k = choose|k: int| 0 <= k < s.len() && s[k] == y;
                    if k < t.len() {
                        assert(t[k] == y);
                    }
                    assert(r[q.len() as int] == y);
                }
            }
        }
    }
}

proof fn lemma_order_of_first(keys: Seq<Key>, n: nat)
    ensures
        ascending(keys, order_of_first(keys, n)),
        order_of_first(keys, n).len() == n,
        forall|y: int| #[trigger] order_of_first(keys, n).contains(y) <==> 0 <= y < n,
    decreases n,
{
    if n > 0 {
        lemma_order_of_first(keys, (n - 1) as nat);
        lemma_insert_index(keys, order_of_first(keys, (n - 1) as nat), n - 1);
    }
}

/// The sorted order names every index once, each before those that come after it by key or,
/// where the keys are equal, by position.
pub proof fn lemma_order(keys: Seq<Key>)
    ensures
        order(keys).len() == keys.len(),
        forall|y: int| #[trigger] order(keys).contains(y) <==> 0 <= y < keys.len(),
        order(keys).no_duplicates(),
        forall|a: int, b: int|
            0 <= a < b < keys.len() ==> before(
                keys,
                #[trigger] order(keys)[a],
                #[trigger] order(keys)[b],
            ),
        forall|a: int| 0 <= a < keys.len() ==> 0 <= #[trigger] order(keys)[a] < keys.len(),
{
    lemma_order_of_first(keys, keys.len());
    let r = order(keys);
    assert forall|a: int, b: int| 0 <= a < r.len() && 0 <= b < r.len() && a != b implies r[a]
        != r[b] by {
        if a < b {
            assert(before(keys, r[a], r[b]));
        } else {
            assert(before(keys, r[b], r[a]));
        }
        lemma_before_total(keys, r[a], r[a]);
    }
    assert forall|a: int| 0 <= a < keys.len() implies 0 <= #[trigger] r[a] < keys.len() by {
        assert(r.contains(r[a]));
    }
}

/// Two ascending sequences with the same members are the same.
proof fn lemma_ascending_unique(keys: Seq<Key>, s: Seq<int>, t: Seq<int>)
    requires
        ascending(keys, s),
        ascending(keys, t),
        forall|y: int| #[trigger] s.contains(y) <==> t.contains(y),
    ensures
        s == t,
    decreases s.len(),
{
    if s.len() == 0 {
        if t.len() > 0 {
            assert(t.contains(t[0]));
            assert(s.contains(t[0]));
        }
        assert(s =~= t);
    } else {
        assert(s.contains(s.last()));
        assert(t.contains(s.last()));
        assert(t.contains(t.last()));
        assert(s.contains(t.last()));
        let k = choose|k: int| 0 <= k < t.len() && t[k] == s.last();
        let m = choose|m: int| 0 <= m < s.len() && s[m] == t.last();
        if k != t.len() - 1 {
            assert(before(keys, t[k], t[t.len() - 1]));
            if m != s.len() - 1 {
                assert(before(keys, s[m], s[s.len() - 1]));
            }
            lemma_before_total(keys, s.last(), t.last());
        }
        let s1 = s.drop_last();
        let t1 = t.drop_last();
        assert forall|y: int| #[trigger] s1.contains(y) <==> t1.contains(y) by {
            if s1.contains(y) {
                let a = choose|a: int| 0 <= a < s1.len() && s1[a] == y;
                assert(s[a] == y);
                assert(before(keys, s[a], s[s.len() - 1]));
                lemma_before_total(keys, y, y);
                assert(s.contains(y));
                assert(t.contains(y));
                let b = choose|b: int| 0 <= b < t.len() && t[b] == y;
                assert(t1[b] == y);
            }
            if t1.contains(y) {
                let a = choose|a: int| 0 <= a < t1.len() && t1[a] == y;
                assert(t[a] == y);
                assert(before(keys, t[a], t[t.len() - 1]));
                lemma_before_total(keys, y, y);
                assert(t.contains(y));
                assert(s.contains(y));
                let b = choose|b: int| 0 <= b < s.len() && s[b] == y;
                assert(s1[b] == y);
            }
        }
        lemma_ascending_unique(keys, s1, t1);
        assert(s =~= s1.push(s.last()));
        assert(t =~= t1.push(t.last()));
    }
}

/// The indices in `s` as numbers.
pub open spec fn ints(s: Seq<usize>) -> Seq<int> {
    s.map_values(|x: usize| x as int)
}

fn comes_before(keys: &Vec<SortKey>, i: usize, j: usize) -> (r: bool)
    requires
        i < keys@.len(),
        j < keys@.len(),
    ensures
        r == before(keys.deep_view(), i as int, j as int),
{
    let a = &keys[i];
    let b = &keys[j];
    if a.rank != b.rank {
        a.rank < b.rank
    } else if same_chars(a.text.as_slice(), b.text.as_slice()) {
        proof {
            lemma_text_less_irreflexive(a.text@);
        }
        i < j
    } else {
        chars_less(a.text.as_slice(), b.text.as_slice())
    }
}

/// The two ascending lists brought into one.
fn merge(keys: &Vec<SortKey>, a: &Vec<usize>, b: &Vec<usize>) -> (r: Vec<usize>)
    requires
        ascending(keys.deep_view(), ints(a@)),
        ascending(keys.deep_view(), ints(b@)),
        forall|k: int| 0 <= k < a@.len() ==> (#[trigger] a@[k]) < keys@.len(),
        forall|k: int| 0 <= k < b@.len() ==> (#[trigger] b@[k]) < keys@.len(),
        forall|k: int, m: int|
            0 <= k < a@.len() && 0 <= m < b@.len() ==> #[trigger] a@[k] != #[trigger] b@[m],
    ensures
        ascending(keys.deep_view(), ints(r@)),
        forall|y: usize| #[trigger] r@.contains(y) <==> a@.contains(y) || b@.contains(y),
{
    let ghost ks = keys.deep_view();
    let mut out: Vec<usize> = Vec::new();
    let mut i: usize = 0;
    let mut j: usize = 0;
    while i < a.len() || j < b.len()
        invariant
            ks == keys.deep_view(),
            i <= a@.len(),
            j <= b@.len(),
            ascending(ks, ints(a@)),
            ascending(ks, ints(b@)),
            forall|k: int| 0 <= k < a@.len() ==> (#[trigger] a@[k]) < keys@.len(),
            forall|k: int| 0 <= k < b@.len() ==> (#[trigger] b@[k]) < keys@.len(),
            forall|k: int, m: int|
                0 <= k < a@.len() && 0 <= m < b@.len() ==> #[trigger] a@[k] != #[trigger] b@[m],
            ascending(ks, ints(out@)),
            forall|k: int, m: int|
                0 <= k < out@.len() && i <= m < a@.len() ==> before(
                    ks,
                    #[trigger] out@[k] as int,
                    #[trigger] a@[m] as int,
                ),
            forall|k: int, m: int|
                0 <= k < out@.len() && j <= m < b@.len() ==> before(
                    ks,
                    #[trigger] out@[k] as int,
                    #[trigger] b@[m] as int,
                ),
            forall|y: usize|
                #[trigger] out@.contains(y) <==> a@.take(i as int).contains(y) || b@.take(
                    j as int,
                ).contains(y),
        decreases a@.len() - i + b@.len() - j,
    {
        let from_a: bool = if i == a.len() {
            false
        } else if j == b.len() {
            true
        } else {
            comes_before(keys, a[i], b[j])
        };
        let x: usize = if from_a {
            a[i]
        } else {
            b[j]
        };
        proof {
            if i < a@.len() && j < b@.len() {
                lemma_before_total(ks, a@[i as int] as int, b@[j as int] as int);
            }
            assert forall|m: int| (if from_a { i + 1 } else { i as int }) <= m < a@.len() implies before(
                ks,
                x as int,
                #[trigger] a@[m] as int,
            ) by {
                if from_a {
                    assert(before(ks, ints(a@)[i as int], ints(a@)[m]));
                } else if m > i {
                    assert(before(ks, ints(a@)[i as int], ints(a@)[m]));
                    lemma_before_transitive(ks, x as int, a@[i as int] as int, a@[m] as int);
                }
            }
            assert forall|m: int| (if from_a { j as int } else { j + 1 }) <= m < b@.len() implies before(
                ks,
                x as int,
                #[trigger] b@[m] as int,
            ) by {
                if !from_a {
                    assert(before(ks, ints(b@)[j as int], ints(b@)[m]));
                } else if m > j {
                    assert(before(ks, ints(b@)[j as int], ints(b@)[m]));
                    lemma_before_transitive(ks, x as int, b@[j as int] as int, b@[m] as int);
                }
            }
        }
        let ghost prev = out@;
        let ghost i0 = i as int;
        let ghost j0 = j as int;
        out.push(x);
        if from_a {
            i += 1;
        } else {
            j += 1;
        }
        proof {
            assert forall|p: int, q: int| 0 <= p < q < ints(out@).len() implies before(
                ks,
                #[trigger] ints(out@)[p],
                #[trigger] ints(out@)[q],
            ) by {
                if q < prev.len() {
                    assert(before(ks, ints(prev)[p], ints(prev)[q]));
                } else if from_a {
                    assert(before(ks, prev[p] as int, a@[i0] as int));
                } else {
                    assert(before(ks, prev[p] as int, b@[j0] as int));
                }
            }
            assert(out@ =~= prev.push(x));
            if from_a {
                assert(a@.take(i as int) =~= a@.take(i0).push(x));
                assert(b@.take(j as int) =~= b@.take(j0));
            } else {
                assert(b@.take(j as int) =~= b@.take(j0).push(x));
                assert(a@.take(i as int) =~= a@.take(i0));
            }
            assert forall|y: usize| #[trigger] out@.contains(y) <==> a@.take(i as int).contains(y)
                || b@.take(j as int).contains(y) by {
                lemma_push_contains(prev, x, y);
                lemma_push_contains(a@.take(i0), x, y);
                lemma_push_contains(b@.take(j0), x, y);
            }
        }
    }
    assert(a@.take(i as int) =~= a@);
    assert(b@.take(j as int) =~= b@);
    out
}

proof fn lemma_push_contains<A>(s: Seq<A>, x: A, y: A)
    ensures
        s.push(x).contains(y) <==> s.contains(y) || y == x,
{
    if s.contains(y) {
        let k = choose|k: int| 0 <= k < s.len() && s[k] == y;
        assert(s.push(x)[k] == y);
    }
    if y == x {
        assert(s.push(x)[s.len() as int] == y);
    }
}

/// The indices from `lo` to `hi` in sorted order.
fn sort_range(keys: &Vec<SortKey>, lo: usize, hi: usize) -> (r: Vec<usize>)
    requires
        lo <= hi <= keys@.len(),
    ensures
        ascending(keys.deep_view(), ints(r@)),
        forall|y: usize| #[trigger] r@.contains(y) <==> lo <= y < hi,
    decreases hi - lo,
{
    if hi == lo {
        return Vec::new();
    }
    if hi - lo == 1 {
        let mut out: Vec<usize> = Vec::new();
        out.push(lo);
        assert(out@[0] == lo);
        return out;
    }
    let mid: usize = lo + (hi - lo) / 2;
    let a = sort_range(keys, lo, mid);
    let b = sort_range(keys, mid, hi);
    proof {
        assert forall|k: int| 0 <= k < a@.len() implies (#[trigger] a@[k]) < mid by {
            assert(a@.contains(a@[k]));
        }
        assert forall|k: int| 0 <= k < b@.len() implies mid <= (#[trigger] b@[k]) < hi by {
            assert(b@.contains(b@[k]));
        }
    }
    merge(keys, &a, &b)
}

/// The indices of `keys` in sorted order.
pub fn order_of(keys: &Vec<SortKey>) -> (r: Vec<usize>)
    ensures
        ints(r@) == order(keys.deep_view()),
        r@.len() == keys@.len(),
        forall|k: int| 0 <= k < r@.len() ==> (#[trigger] r@[k]) < keys@.len(),
        r@.no_duplicates(),
{
    let r = sort_range(keys, 0, keys.len());
    proof {
        let ks = keys.deep_view();
        lemma_order(ks);
        assert forall|y: int| #[trigger] ints(r@).contains(y) <==> order(ks).contains(y) by {
            if ints(r@).contains(y) {
                let k = choose|k: int| 0 <= k < ints(r@).len() && ints(r@)[k] == y;
                assert(r@.contains(r@[k]));
            }
            if order(ks).contains(y) {
                assert(r@.contains(y as usize));
                let k = choose|k: int| 0 <= k < r@.len() && r@[k] == y as usize;
                assert(ints(r@)[k] == y);
            }
        }
        lemma_ascending_unique(ks, ints(r@), order(ks));
        assert(ints(r@).len() == ks.len());
        assert forall|k: int| 0 <= k < r@.len() implies (#[trigger] r@[k]) < keys@.len() by {
            assert(r@.contains(r@[k]));
        }
        assert forall|p: int, q: int| 0 <= p < r@.len() && 0 <= q < r@.len() && p != q implies r@[p]
            != r@[q] by {
            assert(ints(r@)[p] != ints(r@)[q]);
        }
    }
    r
}

/// The items of `v` in the sorted order of their keys.
pub fn arrange<T>(v: Vec<T>, keys: &Vec<SortKey>) -> (r: Vec<T>)
    requires
        v@.len() == keys@.len(),
    ensures
        r@ == arranged(v@, keys.deep_view()),
        r@.len() == v@.len(),
{
    let ord = order_of(keys);
    let ghost items = v@;
    let mut slots: Vec<Option<T>> = Vec::new();
    let n: usize = v.len();
    let mut rest = v;
    // Emptied from the end, so the slots are filled in reverse.
    while rest.len() > 0
        invariant
            slots@.len() + rest@.len() == n,
            n == items.len(),
            rest@ == items.take(rest@.len() as int),
            forall|k: int|
                0 <= k < slots@.len() ==> #[trigger] slots@[k] == Some(items[items.len() - 1 - k]),
        decreases rest@.len(),
    {
        let ghost prev = rest@;
        let last = rest.pop();
        assert(last == Some(items[prev.len() - 1]));
        slots.push(last);
        assert(rest@ =~= items.take(rest@.len() as int));
    }
    let mut out: Vec<T> = Vec::new();
    let mut i: usize = 0;
    while i < ord.len()
        invariant
            i <= ord@.len(),
            n == slots@.len(),
            n == items.len(),
            ord@.len() == n,
            ord@.no_duplicates(),
            forall|k: int| 0 <= k < ord@.len() ==> (#[trigger] ord@[k]) < n,
            out@.len() == i,
            forall|k: int| 0 <= k < i ==> #[trigger] out@[k] == items[ord@[k] as int],
            forall|k: int|
                #![trigger ord@[k]]
                i <= k < ord@.len() ==> slots@[n - 1 - ord@[k]] == Some(items[ord@[k] as int]),
        decreases ord@.len() - i,
    {
        let p: usize = n - 1 - ord[i];
        let ghost before_slots = slots@;
        assert(slots@[n - 1 - ord@[i as int]] == Some(items[ord@[i as int] as int]));
        let mut taken: Option<T> = None;
        std::mem::swap(&mut slots[p], &mut taken);
        assert(slots@ =~= before_slots.update(p as int, None));
        match taken {
            Some(x) => {
                out.push(x);
            },
            None => {
                assert(false);
            },
        }
        i += 1;
    }
    proof {
        let ks = keys.deep_view();
        assert forall|k: int| 0 <= k < out@.len() implies #[trigger] out@[k] == items[order(ks)[k]] by {
            assert(ints(ord@)[k] == order(ks)[k]);
        }
        assert(ints(ord@).len() == ord@.len());
        assert(out@ =~= arranged(items, ks));
    }
    out
}

/// Sorting keeps what there is, puts nothing before what has a smaller key, and leaves what
/// has the same key in its order.
pub proof fn law_sorted<A>(s: Seq<A>, key: spec_fn(A) -> Key)
    ensures
        sorted_by(s, key).len() == s.len(),
        forall|x: A| #[trigger] sorted_by(s, key).contains(x) <==> s.contains(x),
        forall|i: int, j: int|
            0 <= i < j < s.len() ==> !key_less(
                key(#[trigger] sorted_by(s, key)[j]),
                key(#[trigger] sorted_by(s, key)[i]),
            ),
{
    let keys = s.map_values(key);
    let t = sorted_by(s, key);
    lemma_order(keys);
    assert forall|x: A| #[trigger] t.contains(x) <==> s.contains(x) by {
        if t.contains(x) {
            let i = choose|i: int| 0 <= i < t.len() && t[i] == x;
            assert(s[order(keys)[i]] == x);
        }
        if s.contains(x) {
            let k = choose|k: int| 0 <= k < s.len() && s[k] == x;
            assert(order(keys).contains(k));
            let i = choose|i: int| 0 <= i < order(keys).len() && order(keys)[i] == k;
            assert(t[i] == x);
        }
    }
    assert forall|i: int, j: int| 0 <= i < j < s.len() implies !key_less(
        key(#[trigger] t[j]),
        key(#[trigger] t[i]),
    ) by {
        let a = keys[order(keys)[i]];
        let b = keys[order(keys)[j]];
        assert(before(keys, order(keys)[i], order(keys)[j]));
        lemma_key_less_total(a, b);
        if key_less(a, b) && key_less(b, a) {
            lemma_key_less_transitive(a, b, a);
            lemma_key_less_total(a, a);
        }
    }
}

/// The sum of `f` over `s`.
pub open spec fn total_over<A>(s: Seq<A>, f: spec_fn(A) -> nat) -> nat
    decreases s.len(),
{
    if s.len() == 0 {
        0
    } else {
        total_over(s.drop_last(), f) + f(s.last())
    }
}

proof fn lemma_insert_total(keys: Seq<Key>, o: Seq<int>, x: int, f: spec_fn(int) -> nat)
    ensures
        total_over(insert_index(keys, o, x), f) == total_over(o, f) + f(x),
    decreases o.len(),
{
    let t = insert_index(keys, o, x);
    if o.len() == 0 || !before(keys, x, o.last()) {
        assert(t.drop_last() =~= o);
    } else {
        lemma_insert_total(keys, o.drop_last(), x, f);
        assert(t.drop_last() =~= insert_index(keys, o.drop_last(), x));
    }
}

proof fn lemma_order_total<A>(s: Seq<A>, keys: Seq<Key>, n: nat, f: spec_fn(A) -> nat)
    requires
        n <= s.len(),
    ensures
        total_over(order_of_first(keys, n), |i: int| f(s[i])) == total_over(s.take(n as int), f),
    decreases n,
{
    let g = |i: int| f(s[i]);
    if n == 0 {
        assert(s.take(0) =~= Seq::<A>::empty());
    } else {
        let o = order_of_first(keys, (n - 1) as nat);
        lemma_order_total(s, keys, (n - 1) as nat, f);
        lemma_insert_total(keys, o, n - 1, g);
        assert(s.take(n as int).drop_last() =~= s.take(n - 1));
    }
}

proof fn lemma_total_of_map<A>(o: Seq<int>, s: Seq<A>, f: spec_fn(A) -> nat)
    ensures
        total_over(Seq::new(o.len(), |i: int| s[o[i]]), f) == total_over(o, |i: int| f(s[i])),
    decreases o.len(),
{
    let t = Seq::new(o.len(), |i: int| s[o[i]]);
    if o.len() > 0 {
        lemma_total_of_map(o.drop_last(), s, f);
        assert(t.drop_last() =~= Seq::new(o.drop_last().len(), |i: int| s[o.drop_last()[i]]));
    }
}

/// Sorting does not change a sum.
pub proof fn law_sorting_keeps_totals<A>(s: Seq<A>, key: spec_fn(A) -> Key, f: spec_fn(A) -> nat)
    ensures
        total_over(sorted_by(s, key), f) == total_over(s, f),
{
    let keys = s.map_values(key);
    lemma_order_total(s, keys, s.len(), f);
    lemma_total_of_map(order(keys), s, f);
    assert(s.take(s.len() as int) =~= s);
}

/// Whether the places are those of a list of `n` items, each once.
pub open spec fn is_rearrangement(p: Seq<int>, n: nat) -> bool {
    &&& p.len() == n
    &&& p.no_duplicates()
    &&& forall|i: int| 0 <= i < p.len() ==> 0 <= #[trigger] p[i] < n
}

/// Sorting moves each item to a place of its own, and items with equal keys keep their order.
pub proof fn law_sorting_rearranges<A>(s: Seq<A>, key: spec_fn(A) -> Key)
    ensures
        exists|p: Seq<int>| #[trigger]
            is_rearrangement(p, s.len()) && (forall|i: int|
                0 <= i < s.len() ==> #[trigger] sorted_by(s, key)[i] == s[p[i]]) && (forall|
                i: int,
                j: int,
            |
                0 <= i < j < s.len() && key(s[#[trigger] p[i]]) == key(s[#[trigger] p[j]]) ==> p[i]
                    < p[j]),
{
    let keys = s.map_values(key);
    lemma_order(keys);
    let p = order(keys);
    assert(is_rearrangement(p, s.len()));
    assert forall|i: int, j: int|
        0 <= i < j < s.len() && key(s[#[trigger] p[i]]) == key(s[#[trigger] p[j]]) implies p[i]
        < p[j] by {
        assert(before(keys, p[i], p[j]));
        lemma_key_less_irreflexive(keys[p[i]]);
    }
}

proof fn lemma_key_less_irreflexive(k: Key)
    ensures
        !key_less(k, k),
{
    lemma_text_less_irreflexive(k.1);
}

} // verus!
