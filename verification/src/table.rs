//! Finite maps and sets keyed by text, kept in ascending key order, and tables of counts.

use vstd::prelude::*;
use std::rc::Rc;
use crate::paths::{names_same_path, same_path};
use crate::text::{lemma_text_less_irreflexive, lemma_text_less_total, lemma_text_less_transitive, same_text, str_less, text_less, Text};

verus! {

// ---------------------------------------------------------------------------------------
// Copies

/// A value that can be copied.
pub trait Dup: DeepView + Sized {
    /// A copy of the value.
    fn dup(&self) -> (r: Self)
        ensures
            r.deep_view() == self.deep_view(),
    ;
}

impl Dup for String {
    fn dup(&self) -> (r: Self) {
        self.clone()
    }
}

impl Dup for usize {
    fn dup(&self) -> (r: Self) {
        *self
    }
}

impl Dup for u64 {
    fn dup(&self) -> (r: Self) {
        *self
    }
}

impl Dup for i64 {
    fn dup(&self) -> (r: Self) {
        *self
    }
}

impl Dup for () {
    fn dup(&self) -> (r: Self) {
        ()
    }
}

impl<T: DeepView> Dup for Rc<T> {
    fn dup(&self) -> (r: Self) {
        Rc::clone(self)
    }
}

impl<T: Dup> Dup for Option<T> {
    fn dup(&self) -> (r: Self) {
        match self {
            Some(x) => Some(x.dup()),
            None => None,
        }
    }
}

impl<A: Dup, B: Dup> Dup for (A, B) {
    fn dup(&self) -> (r: Self) {
        (self.0.dup(), self.1.dup())
    }
}

impl<T: Dup> Dup for Vec<T> {
    fn dup(&self) -> (r: Self) {
        let mut out: Vec<T> = Vec::new();
        let mut i: usize = 0;
        while i < self.len()
            invariant
                i <= self@.len(),
                out.deep_view() == self.deep_view().take(i as int),
            decreases self@.len() - i,
        {
            let ghost before = out.deep_view();
            let x = self[i].dup();
            out.push(x);
            assert(out.deep_view() =~= before.push(self.deep_view()[i as int]));
            assert(self.deep_view().take(i + 1) =~= before.push(self.deep_view()[i as int]));
            i += 1;
        }
        assert(self.deep_view().take(i as int) =~= self.deep_view());
        out
    }
}

// ---------------------------------------------------------------------------------------
// Pairs

/// Some pair of `s` has the key `k`.
pub open spec fn has_key<A, B>(s: Seq<(A, B)>, k: A) -> bool {
    exists|i: int| 0 <= i < s.len() && (#[trigger] s[i]).0 == k
}

/// The position of a pair of `s` with the key `k`.
pub open spec fn key_index<A, B>(s: Seq<(A, B)>, k: A) -> int {
    choose|i: int| 0 <= i < s.len() && (#[trigger] s[i]).0 == k
}

/// The map from the keys of `s` to their values.
pub open spec fn map_of<A, B>(s: Seq<(A, B)>) -> Map<A, B> {
    Map::new(|k: A| has_key(s, k), |k: A| s[key_index(s, k)].1)
}

/// No two pairs of `s` have the same key.
pub open spec fn distinct_keys<A, B>(s: Seq<(A, B)>) -> bool {
    forall|i: int, j: int|
        0 <= i < s.len() && 0 <= j < s.len() && i != j ==> (#[trigger] s[i]).0 != (#[trigger] s[j]).0
}

/// The keys of `s` ascend.
pub open spec fn ordered<B>(s: Seq<(Text, B)>) -> bool {
    forall|i: int, j: int|
        0 <= i < j < s.len() ==> text_less((#[trigger] s[i]).0, (#[trigger] s[j]).0)
}

/// The pairs of `m` in ascending order of their keys.
pub open spec fn pairs_of<B>(m: Map<Text, B>) -> Seq<(Text, B)> {
    choose|s: Seq<(Text, B)>| ordered(s) && map_of(s) == m
}

/// The members of a finite set in ascending order.
pub open spec fn members_of(s: Set<Text>) -> Seq<Text> {
    pairs_of(s.mk_map(|k: Text| ())).map_values(|p: (Text, ())| p.0)
}

/// Keys that ascend differ.
pub proof fn lemma_ordered_distinct<B>(s: Seq<(Text, B)>)
    requires
        ordered(s),
    ensures
        distinct_keys(s),
{
    assert forall|i: int, j: int| 0 <= i < s.len() && 0 <= j < s.len() && i != j implies (
    #[trigger] s[i]).0 != (#[trigger] s[j]).0 by {
        lemma_text_less_irreflexive(s[i].0);
        if i < j {
            assert(text_less(s[i].0, s[j].0));
        } else {
            assert(text_less(s[j].0, s[i].0));
        }
    }
}

/// What the map of pairs with different keys holds.
pub proof fn lemma_map_of<A, B>(s: Seq<(A, B)>)
    requires
        distinct_keys(s),
    ensures
        forall|i: int|
            0 <= i < s.len() ==> map_of(s).contains_key((#[trigger] s[i]).0) && map_of(s)[s[i].0]
                == s[i].1,
        forall|k: A| #[trigger] map_of(s).contains_key(k) <==> has_key(s, k),
{
    assert forall|i: int| 0 <= i < s.len() implies map_of(s).contains_key((#[trigger] s[i]).0)
        && map_of(s)[s[i].0] == s[i].1 by {
        let k = s[i].0;
        assert(has_key(s, k));
        let j = key_index(s, k);
        assert(0 <= j < s.len() && s[j].0 == k);
        assert(i == j);
    }
}

/// Ascending pairs are determined by the map that they make.
pub proof fn lemma_pairs_unique<B>(s: Seq<(Text, B)>, t: Seq<(Text, B)>)
    requires
        ordered(s),
        ordered(t),
        map_of(s) == map_of(t),
    ensures
        s == t,
    decreases s.len(),
{
    lemma_ordered_distinct(s);
    lemma_ordered_distinct(t);
    lemma_map_of(s);
    lemma_map_of(t);
    if s.len() == 0 {
        if t.len() > 0 {
            assert(map_of(t).contains_key(t[0].0));
            assert(has_key(s, t[0].0));
        }
        assert(s =~= t);
    } else {
        let a = s.last();
        assert(map_of(s).contains_key(s[s.len() - 1].0));
        assert(has_key(t, a.0));
        let k = key_index(t, a.0);
        assert(0 <= k < t.len() && t[k].0 == a.0);
        let b = t.last();
        assert(map_of(t).contains_key(t[t.len() - 1].0));
        assert(has_key(s, b.0));
        let m = key_index(s, b.0);
        assert(0 <= m < s.len() && s[m].0 == b.0);
        if k != t.len() - 1 {
            assert(text_less(t[k].0, t[t.len() - 1].0));
            lemma_text_less_irreflexive(a.0);
            if m != s.len() - 1 {
                assert(text_less(s[m].0, s[s.len() - 1].0));
                lemma_text_less_transitive(a.0, b.0, a.0);
            }
        }
        assert(a.0 == b.0);
        assert(map_of(s)[s[s.len() - 1].0] == a.1);
        assert(map_of(t)[t[t.len() - 1].0] == b.1);
        let s1 = s.drop_last();
        let t1 = t.drop_last();
        lemma_map_of_drop_last(s);
        lemma_map_of_drop_last(t);
        lemma_pairs_unique(s1, t1);
        assert(s =~= s1.push(a));
        assert(t =~= t1.push(b));
    }
}

/// Leaving out the last pair removes its key from the map.
pub proof fn lemma_map_of_drop_last<A, B>(s: Seq<(A, B)>)
    requires
        s.len() > 0,
        distinct_keys(s),
    ensures
        distinct_keys(s.drop_last()),
        map_of(s.drop_last()) == map_of(s).remove(s.last().0),
        map_of(s) == map_of(s.drop_last()).insert(s.last().0, s.last().1),
        !map_of(s.drop_last()).contains_key(s.last().0),
{
    let t = s.drop_last();
    lemma_map_of(s);
    assert(distinct_keys(t)) by {
        assert forall|i: int, j: int| 0 <= i < t.len() && 0 <= j < t.len() && i != j implies (
        #[trigger] t[i]).0 != (#[trigger] t[j]).0 by {
            assert(s[i].0 != s[j].0);
        }
    }
    lemma_map_of(t);
    assert forall|k: A| #[trigger] map_of(t).contains_key(k) <==> map_of(s).contains_key(k) && k
        != s.last().0 by {
        if has_key(t, k) {
            let i = key_index(t, k);
            assert(s[i].0 == k);
            assert(s[i].0 != s[s.len() - 1].0);
        }
        if has_key(s, k) && k != s.last().0 {
            let i = key_index(s, k);
            assert(t[i].0 == k);
        }
    }
    assert forall|k: A| #[trigger] map_of(t).contains_key(k) implies map_of(t)[k] == map_of(s)[k] by {
        let i = key_index(t, k);
        assert(t[i] == s[i]);
    }
    assert(map_of(s).contains_key(s[s.len() - 1].0));
    assert(map_of(s)[s[s.len() - 1].0] == s.last().1);
    assert(map_of(t) =~= map_of(s).remove(s.last().0));
    assert(map_of(s) =~= map_of(t).insert(s.last().0, s.last().1));
}

/// The pairs of the map that ascending pairs make are those pairs.
pub proof fn lemma_pairs_of<B>(s: Seq<(Text, B)>)
    requires
        ordered(s),
    ensures
        pairs_of(map_of(s)) == s,
{
    let m = map_of(s);
    assert(ordered(s) && map_of(s) == m);
    lemma_pairs_unique(pairs_of(m), s);
}

/// Pairs with different keys make a finite map with as many entries.
pub proof fn lemma_distinct_len<A, B>(s: Seq<(A, B)>)
    requires
        distinct_keys(s),
    ensures
        map_of(s).dom().finite(),
        map_of(s).dom().len() == s.len(),
    decreases s.len(),
{
    if s.len() == 0 {
        assert(map_of(s).dom() =~= Set::<A>::empty());
    } else {
        let t = s.drop_last();
        lemma_map_of_drop_last(s);
        lemma_distinct_len(t);
        assert(map_of(s).dom() =~= map_of(t).dom().insert(s.last().0));
    }
}

// ---------------------------------------------------------------------------------------
// Maps

/// A map from text to values.
#[derive(Debug)]
pub struct StrMap<V> {
    entries: Vec<(String, V)>,
}

/// The pairs of a vector with their keys as text.
pub closed spec fn entry_keys<V>(e: Seq<(String, V)>) -> Seq<(Text, V)> {
    e.map_values(|p: (String, V)| (p.0@, p.1))
}

impl<V> StrMap<V> {
    #[verifier::type_invariant]
    spec fn keys_ascend(self) -> bool {
        ordered(entry_keys(self.entries@))
    }
}

impl<V: DeepView> StrMap<V> {
    /// The pairs of the map.
    pub closed spec fn pairs(self) -> Seq<(Text, V::V)> {
        self.entries.deep_view()
    }

    proof fn lemma_pairs_ordered(e: Seq<(String, V)>, d: Seq<(Text, V::V)>)
        requires
            ordered(entry_keys(e)),
            d.len() == e.len(),
            forall|i: int| 0 <= i < e.len() ==> (#[trigger] d[i]) == (e[i].0@, e[i].1.deep_view()),
        ensures
            ordered(d),
    {
        assert forall|i: int, j: int| 0 <= i < j < d.len() implies text_less(
            (#[trigger] d[i]).0,
            (#[trigger] d[j]).0,
        ) by {
            assert(text_less(entry_keys(e)[i].0, entry_keys(e)[j].0));
        }
    }

    proof fn lemma_keys_ordered(e: Seq<(String, V)>, d: Seq<(Text, V::V)>)
        requires
            ordered(d),
            d.len() == e.len(),
            forall|i: int| 0 <= i < e.len() ==> (#[trigger] d[i]) == (e[i].0@, e[i].1.deep_view()),
        ensures
            ordered(entry_keys(e)),
    {
        let k = entry_keys(e);
        assert forall|i: int, j: int| 0 <= i < j < k.len() implies text_less(
            (#[trigger] k[i]).0,
            (#[trigger] k[j]).0,
        ) by {
            assert(text_less(d[i].0, d[j].0));
        }
    }
}

impl<V: DeepView> View for StrMap<V> {
    type V = Map<Text, V::V>;

    open spec fn view(&self) -> Map<Text, V::V> {
        map_of(self.pairs())
    }
}

impl<V: DeepView> DeepView for StrMap<V> {
    type V = Map<Text, V::V>;

    open spec fn deep_view(&self) -> Map<Text, V::V> {
        self.view()
    }
}

impl<V: DeepView> StrMap<V> {
    /// A map without entries.
    pub fn new() -> (r: Self)
        ensures
            r@ == Map::<Text, V::V>::empty(),
    {
        let r = StrMap { entries: Vec::new() };
        assert(r@ =~= Map::<Text, V::V>::empty());
        r
    }

    /// The pairs of the map are those of its contents, in ascending order.
    proof fn lemma_shape(&self)
        requires
            ordered(entry_keys(self.entries@)),
        ensures
            ordered(self.pairs()),
            distinct_keys(self.pairs()),
            self.pairs() == pairs_of(self@),
            self.pairs().len() == self.entries@.len(),
    {
        Self::lemma_pairs_ordered(self.entries@, self.pairs());
        lemma_ordered_distinct(self.pairs());
        lemma_pairs_of(self.pairs());
    }

    /// The number of entries.
    pub fn len(&self) -> (r: usize)
        ensures
            r == self@.len(),
            r == pairs_of(self@).len(),
            self@.dom().finite(),
            ordered(pairs_of(self@)),
            map_of(pairs_of(self@)) == self@,
    {
        proof {
            use_type_invariant(self);
            self.lemma_shape();
            lemma_distinct_len(self.pairs());
        }
        self.entries.len()
    }

    /// Whether there are no entries.
    pub fn is_empty(&self) -> (r: bool)
        ensures
            r == (self@.len() == 0),
            r == (self@ =~= Map::<Text, V::V>::empty()),
    {
        let n = self.len();
        proof {
            if n == 0 {
                assert(self@.dom() =~= Set::<Text>::empty());
            } else {
                assert(has_key(pairs_of(self@), pairs_of(self@)[0].0));
                assert(self@.contains_key(pairs_of(self@)[0].0));
            }
        }
        n == 0
    }

    /// The key of the entry at position `i`, in ascending order.
    pub fn key_at(&self, i: usize) -> (r: &String)
        requires
            i < pairs_of(self@).len(),
        ensures
            r@ == pairs_of(self@)[i as int].0,
    {
        proof {
            use_type_invariant(self);
            self.lemma_shape();
        }
        &self.entries[i].0
    }

    /// The value of the entry at position `i`, in ascending order of the keys.
    pub fn value_at(&self, i: usize) -> (r: &V)
        requires
            i < pairs_of(self@).len(),
        ensures
            r.deep_view() == pairs_of(self@)[i as int].1,
    {
        proof {
            use_type_invariant(self);
            self.lemma_shape();
        }
        &self.entries[i].1
    }

    /// Where `k` stands, or where it would stand.
    fn place(entries: &Vec<(String, V)>, k: &str) -> (r: (bool, usize))
        requires
            ordered(entries.deep_view()),
        ensures
            r.1 <= entries@.len(),
            r.0 ==> r.1 < entries@.len() && entries.deep_view()[r.1 as int].0 == k@,
            !r.0 ==> !has_key(entries.deep_view(), k@),
            forall|i: int|
                0 <= i < r.1 ==> text_less((#[trigger] entries.deep_view()[i]).0, k@),
            !r.0 ==> forall|i: int|
                r.1 <= i < entries@.len() ==> text_less(k@, (#[trigger] entries.deep_view()[i]).0),
    {
        let ghost d = entries.deep_view();
        let mut lo: usize = 0;
        let mut hi: usize = entries.len();
        while lo < hi
            invariant
                lo <= hi <= entries@.len(),
                d == entries.deep_view(),
                ordered(d),
                forall|i: int| 0 <= i < lo ==> text_less((#[trigger] d[i]).0, k@),
                forall|i: int| hi <= i < d.len() ==> text_less(k@, (#[trigger] d[i]).0),
            decreases hi - lo,
        {
            let mid: usize = lo + (hi - lo) / 2;
            let key = &entries[mid].0;
            assert(d[mid as int].0 == key@);
            if same_text(key.as_str(), k) {
                assert forall|i: int| 0 <= i < mid implies text_less((#[trigger] d[i]).0, k@) by {
                    assert(text_less(d[i].0, d[mid as int].0));
                }
                return (true, mid);
            }
            if str_less(key.as_str(), k) {
                assert forall|i: int| 0 <= i < mid + 1 implies text_less((#[trigger] d[i]).0, k@) by {
                    if i < mid {
                        assert(text_less(d[i].0, d[mid as int].0));
                        lemma_text_less_transitive(d[i].0, d[mid as int].0, k@);
                    }
                }
                lo = mid + 1;
            } else {
                proof {
                    lemma_text_less_total(key@, k@);
                }
                assert forall|i: int| mid <= i < d.len() implies text_less(
                    k@,
                    (#[trigger] d[i]).0,
                ) by {
                    if i > mid {
                        assert(text_less(d[mid as int].0, d[i].0));
                        lemma_text_less_transitive(k@, d[mid as int].0, d[i].0);
                    }
                }
                hi = mid;
            }
        }
        proof {
            if has_key(d, k@) {
                let i = key_index(d, k@);
                lemma_text_less_irreflexive(k@);
                assert(d[i].0 == k@);
                if i < lo {
                    assert(text_less(d[i].0, k@));
                } else {
                    assert(text_less(k@, d[i].0));
                }
            }
        }
        (false, lo)
    }

    /// The value for the key `k`.
    pub fn get(&self, k: &str) -> (r: Option<&V>)
        ensures
            match r {
                Some(v) => self@.contains_key(k@) && v.deep_view() == self@[k@],
                None => !self@.contains_key(k@),
            },
    {
        proof {
            use_type_invariant(self);
            self.lemma_shape();
            lemma_map_of(self.pairs());
        }
        let (found, i) = Self::place(&self.entries, k);
        if found {
            assert(self.pairs()[i as int].0 == k@);
            Some(&self.entries[i].1)
        } else {
            None
        }
    }

    /// Whether there is an entry for the key `k`.
    pub fn contains_key(&self, k: &str) -> (r: bool)
        ensures
            r == self@.contains_key(k@),
    {
        self.get(k).is_some()
    }

    /// Makes `v` the value for the key `k`.
    pub fn insert(&mut self, k: String, v: V)
        ensures
            final(self)@ == old(self)@.insert(k@, v.deep_view()),
    {
        proof {
            use_type_invariant(&*self);
            self.lemma_shape();
            lemma_map_of(self.pairs());
        }
        let ghost kv = k@;
        let ghost vv = v.deep_view();
        let mut e: Vec<(String, V)> = Vec::new();
        std::mem::swap(&mut e, &mut self.entries);
        let ghost d = e.deep_view();
        let (found, i) = Self::place(&e, k.as_str());
        if found {
            e.set(i, (k, v));
            assert(e.deep_view() =~= d.update(i as int, (kv, vv)));
            proof {
                lemma_update_pair(d, i as int, vv);
            }
        } else {
            e.insert(i, (k, v));
            assert(e.deep_view() =~= d.insert(i as int, (kv, vv)));
            proof {
                lemma_insert_pair(d, i as int, kv, vv);
            }
        }
        proof {
            Self::lemma_keys_ordered(e@, e.deep_view());
        }
        self.entries = e;
    }

    /// Takes the entry for the key `k` out of the map.
    pub fn remove(&mut self, k: &str) -> (r: Option<V>)
        ensures
            final(self)@ == old(self)@.remove(k@),
            match r {
                Some(v) => old(self)@.contains_key(k@) && v.deep_view() == old(self)@[k@],
                None => !old(self)@.contains_key(k@),
            },
    {
        proof {
            use_type_invariant(&*self);
            self.lemma_shape();
            lemma_map_of(self.pairs());
        }
        let mut e: Vec<(String, V)> = Vec::new();
        std::mem::swap(&mut e, &mut self.entries);
        let ghost d = e.deep_view();
        let (found, i) = Self::place(&e, k);
        if found {
            let pair = e.remove(i);
            assert(e.deep_view() =~= d.remove(i as int));
            proof {
                lemma_remove_pair(d, i as int);
                Self::lemma_keys_ordered(e@, e.deep_view());
            }
            self.entries = e;
            Some(pair.1)
        } else {
            assert(map_of(d) =~= map_of(d).remove(k@));
            proof {
                Self::lemma_keys_ordered(e@, e.deep_view());
            }
            self.entries = e;
            None
        }
    }

    /// The entries in ascending order of the keys.
    pub fn into_pairs(self) -> (r: Vec<(String, V)>)
        ensures
            r.deep_view() == pairs_of(self@),
            ordered(r.deep_view()),
            map_of(r.deep_view()) == self@,
    {
        proof {
            use_type_invariant(&self);
            self.lemma_shape();
        }
        self.entries
    }
}

impl<V: Dup> Dup for StrMap<V> {
    fn dup(&self) -> (r: Self) {
        proof {
            use_type_invariant(self);
            self.lemma_shape();
        }
        let e = self.entries.dup();
        proof {
            Self::lemma_keys_ordered(e@, e.deep_view());
        }
        StrMap { entries: e }
    }
}

proof fn lemma_update_pair<B>(d: Seq<(Text, B)>, i: int, v: B)
    requires
        ordered(d),
        0 <= i < d.len(),
    ensures
        ordered(d.update(i, (d[i].0, v))),
        map_of(d.update(i, (d[i].0, v))) == map_of(d).insert(d[i].0, v),
{
    let u = d.update(i, (d[i].0, v));
    lemma_ordered_distinct(d);
    lemma_map_of(d);
    assert forall|a: int, b: int| 0 <= a < b < u.len() implies text_less(
        (#[trigger] u[a]).0,
        (#[trigger] u[b]).0,
    ) by {
        assert(text_less(d[a].0, d[b].0));
    }
    lemma_ordered_distinct(u);
    lemma_map_of(u);
    assert forall|k: Text| #[trigger] map_of(u).contains_key(k) <==> map_of(d).contains_key(k) by {
        if has_key(u, k) {
            let j = key_index(u, k);
            assert(d[j].0 == k);
        }
        if has_key(d, k) {
            let j = key_index(d, k);
            assert(u[j].0 == k);
        }
    }
    assert(map_of(d).contains_key(d[i].0));
    assert forall|k: Text| #[trigger] map_of(u).contains_key(k) implies map_of(u)[k] == map_of(
        d,
    ).insert(d[i].0, v)[k] by {
        let j = key_index(u, k);
        assert(u[j].0 == k);
        if j != i {
            assert(d[j] == u[j]);
            assert(d[j].0 != d[i].0);
        }
    }
    assert(map_of(u) =~= map_of(d).insert(d[i].0, v));
}

/// Where a new key has its place among the pairs.
proof fn lemma_place<B>(d: Seq<(Text, B)>, k: Text) -> (i: int)
    requires
        ordered(d),
        !has_key(d, k),
    ensures
        0 <= i <= d.len(),
        forall|j: int| 0 <= j < i ==> text_less((#[trigger] d[j]).0, k),
        forall|j: int| i <= j < d.len() ==> text_less(k, (#[trigger] d[j]).0),
    decreases d.len(),
{
    if d.len() == 0 {
        0
    } else {
        let last = d[d.len() - 1].0;
        lemma_text_less_total(last, k);
        if text_less(last, k) {
            assert forall|j: int| 0 <= j < d.len() implies text_less((#[trigger] d[j]).0, k) by {
                if j < d.len() - 1 {
                    lemma_text_less_transitive(d[j].0, last, k);
                }
            }
            d.len() as int
        } else {
            let rest = d.drop_last();
            assert(!has_key(rest, k)) by {
                if has_key(rest, k) {
                    let j = choose|j: int| 0 <= j < rest.len() && (#[trigger] rest[j]).0 == k;
                    assert(d[j].0 == k);
                }
            }
            let i = lemma_place(rest, k);
            assert forall|j: int| 0 <= j < i implies text_less((#[trigger] d[j]).0, k) by {
                assert(d[j] == rest[j]);
            }
            assert forall|j: int| i <= j < d.len() implies text_less(k, (#[trigger] d[j]).0) by {
                if j < d.len() - 1 {
                    assert(d[j] == rest[j]);
                }
            }
            i
        }
    }
}

/// A finite map has its pairs in ascending order of the keys, each once.
pub proof fn lemma_pairs_of_finite<B>(m: Map<Text, B>)
    requires
        m.dom().finite(),
    ensures
        ordered(pairs_of(m)),
        map_of(pairs_of(m)) == m,
        pairs_of(m).len() == m.len(),
    decreases m.dom().len(),
{
    if m.dom().len() == 0 {
        let s = Seq::<(Text, B)>::empty();
        assert(map_of(s) =~= m);
        assert(ordered(s));
    } else {
        let k = m.dom().choose();
        let rest = m.remove(k);
        lemma_pairs_of_finite(rest);
        let d = pairs_of(rest);
        assert(!has_key(d, k)) by {
            if has_key(d, k) {
                assert(map_of(d).contains_key(k));
            }
        }
        let i = lemma_place(d, k);
        lemma_insert_pair(d, i, k, m[k]);
        assert(rest.insert(k, m[k]) =~= m);
    }
    lemma_ordered_distinct(pairs_of(m));
    lemma_distinct_len(pairs_of(m));
}

/// The sum of `f` over the values of `s`.
pub open spec fn sum_of<A, B>(s: Seq<(A, B)>, f: spec_fn(B) -> nat) -> nat
    decreases s.len(),
{
    if s.len() == 0 {
        0
    } else {
        sum_of(s.drop_last(), f) + f(s.last().1)
    }
}

/// A value that is put in adds to the sum.
proof fn lemma_sum_insert<A, B>(s: Seq<(A, B)>, i: int, x: (A, B), f: spec_fn(B) -> nat)
    requires
        0 <= i <= s.len(),
    ensures
        sum_of(s.insert(i, x), f) == sum_of(s, f) + f(x.1),
    decreases s.len(),
{
    let t = s.insert(i, x);
    if i == s.len() {
        assert(t.drop_last() =~= s);
    } else {
        lemma_sum_insert(s.drop_last(), i, x, f);
        assert(t.drop_last() =~= s.drop_last().insert(i, x));
        assert(t.last() == s.last());
    }
}

/// Where the pair of `k` stands among the others when `k` gets a value.
pub proof fn lemma_pairs_set<B>(m: Map<Text, B>, k: Text, v: B) -> (i: int)
    requires
        m.dom().finite(),
    ensures
        0 <= i <= pairs_of(m.remove(k)).len(),
        pairs_of(m.insert(k, v)) == pairs_of(m.remove(k)).insert(i, (k, v)),
        m.contains_key(k) ==> pairs_of(m) == pairs_of(m.remove(k)).insert(i, (k, m[k])),
{
    let rest = m.remove(k);
    lemma_pairs_of_finite(rest);
    let d = pairs_of(rest);
    assert(!has_key(d, k)) by {
        if has_key(d, k) {
            assert(map_of(d).contains_key(k));
        }
    }
    let i = lemma_place(d, k);
    lemma_insert_pair(d, i, k, v);
    assert(rest.insert(k, v) =~= m.insert(k, v));
    lemma_pairs_of(d.insert(i, (k, v)));
    if m.contains_key(k) {
        lemma_insert_pair(d, i, k, m[k]);
        assert(rest.insert(k, m[k]) =~= m);
        lemma_pairs_of(d.insert(i, (k, m[k])));
    }
    i
}

/// How the sum over a map changes when a key gets a value.
pub proof fn lemma_sum_set<B>(m: Map<Text, B>, k: Text, v: B, f: spec_fn(B) -> nat)
    requires
        m.dom().finite(),
    ensures
        sum_of(pairs_of(m.insert(k, v)), f) + (if m.contains_key(k) {
            f(m[k])
        } else {
            0
        }) == sum_of(pairs_of(m), f) + f(v),
{
    let d = pairs_of(m.remove(k));
    let i = lemma_pairs_set(m, k, v);
    lemma_sum_insert(d, i, (k, v), f);
    if m.contains_key(k) {
        lemma_sum_insert(d, i, (k, m[k]), f);
    } else {
        assert(m.remove(k) =~= m);
    }
}

proof fn lemma_insert_pair<B>(d: Seq<(Text, B)>, i: int, k: Text, v: B)
    requires
        ordered(d),
        0 <= i <= d.len(),
        !has_key(d, k),
        forall|j: int| 0 <= j < i ==> text_less((#[trigger] d[j]).0, k),
        forall|j: int| i <= j < d.len() ==> text_less(k, (#[trigger] d[j]).0),
    ensures
        ordered(d.insert(i, (k, v))),
        map_of(d.insert(i, (k, v))) == map_of(d).insert(k, v),
{
    let u = d.insert(i, (k, v));
    lemma_ordered_distinct(d);
    lemma_map_of(d);
    assert forall|a: int, b: int| 0 <= a < b < u.len() implies text_less(
        (#[trigger] u[a]).0,
        (#[trigger] u[b]).0,
    ) by {
        if a < i && b < i {
            assert(text_less(d[a].0, d[b].0));
        } else if a < i && b > i {
            assert(text_less(d[a].0, d[b - 1].0));
        } else if a > i {
            assert(text_less(d[a - 1].0, d[b - 1].0));
        } else if a == i {
            assert(text_less(k, d[b - 1].0));
        } else {
            assert(text_less(d[a].0, k));
        }
    }
    lemma_ordered_distinct(u);
    lemma_map_of(u);
    assert forall|q: Text| #[trigger] map_of(u).contains_key(q) <==> map_of(d).contains_key(q) || q
        == k by {
        if has_key(u, q) {
            let j = key_index(u, q);
            if j < i {
                assert(d[j].0 == q);
            } else if j > i {
                assert(d[j - 1].0 == q);
            }
        }
        if has_key(d, q) {
            let j = key_index(d, q);
            if j < i {
                assert(u[j].0 == q);
            } else {
                assert(u[j + 1].0 == q);
            }
        }
        if q == k {
            assert(u[i].0 == q);
        }
    }
    assert forall|q: Text| #[trigger] map_of(u).contains_key(q) implies map_of(u)[q] == map_of(
        d,
    ).insert(k, v)[q] by {
        let j = key_index(u, q);
        assert(u[j].0 == q);
        if j < i {
            assert(d[j] == u[j]);
        } else if j > i {
            assert(d[j - 1] == u[j]);
        }
    }
    assert(map_of(u) =~= map_of(d).insert(k, v));
}

proof fn lemma_remove_pair<B>(d: Seq<(Text, B)>, i: int)
    requires
        ordered(d),
        0 <= i < d.len(),
    ensures
        ordered(d.remove(i)),
        map_of(d.remove(i)) == map_of(d).remove(d[i].0),
{
    let u = d.remove(i);
    lemma_ordered_distinct(d);
    lemma_map_of(d);
    assert forall|a: int, b: int| 0 <= a < b < u.len() implies text_less(
        (#[trigger] u[a]).0,
        (#[trigger] u[b]).0,
    ) by {
        let x = if a < i { a } else { a + 1 };
        let y = if b < i { b } else { b + 1 };
        assert(text_less(d[x].0, d[y].0));
    }
    lemma_ordered_distinct(u);
    lemma_map_of(u);
    assert forall|q: Text| #[trigger] map_of(u).contains_key(q) <==> map_of(d).contains_key(q) && q
        != d[i].0 by {
        if has_key(u, q) {
            let j = key_index(u, q);
            let x = if j < i { j } else { j + 1 };
            assert(d[x].0 == q);
            assert(d[x].0 != d[i].0);
        }
        if has_key(d, q) && q != d[i].0 {
            let j = key_index(d, q);
            let x = if j < i { j } else { j - 1 };
            assert(u[x].0 == q);
        }
    }
    assert forall|q: Text| #[trigger] map_of(u).contains_key(q) implies map_of(u)[q] == map_of(
        d,
    )[q] by {
        let j = key_index(u, q);
        let x = if j < i { j } else { j + 1 };
        assert(d[x] == u[j]);
    }
    assert(map_of(u) =~= map_of(d).remove(d[i].0));
}

// ---------------------------------------------------------------------------------------
// Sets

/// A set of texts.
#[derive(Debug)]
pub struct StrSet {
    members: StrMap<()>,
}

impl View for StrSet {
    type V = Set<Text>;

    closed spec fn view(&self) -> Set<Text> {
        self.members@.dom()
    }
}

impl DeepView for StrSet {
    type V = Set<Text>;

    open spec fn deep_view(&self) -> Set<Text> {
        self.view()
    }
}

proof fn lemma_unit_map(m: Map<Text, ()>)
    ensures
        m.dom().mk_map(|k: Text| ()) == m,
{
    assert(m.dom().mk_map(|k: Text| ()) =~= m);
}

impl StrSet {
    /// A set without members.
    pub fn new() -> (r: Self)
        ensures
            r@ == Set::<Text>::empty(),
    {
        let r = StrSet { members: StrMap::new() };
        assert(r@ =~= Set::<Text>::empty());
        r
    }

    /// The number of members.
    pub fn len(&self) -> (r: usize)
        ensures
            r == self@.len(),
            r == members_of(self@).len(),
            self@.finite(),
            forall|k: Text| self@.contains(k) <==> members_of(self@).contains(k),
    {
        let n = self.members.len();
        proof {
            let m = self.members@;
            lemma_unit_map(m);
            lemma_ordered_distinct(pairs_of(m));
            lemma_map_of(pairs_of(m));
            let q = members_of(self@);
            assert forall|k: Text| self@.contains(k) <==> q.contains(k) by {
                if self@.contains(k) {
                    assert(m.contains_key(k));
                    let i = key_index(pairs_of(m), k);
                    assert(q[i] == k);
                }
                if q.contains(k) {
                    let i = choose|i: int| 0 <= i < q.len() && q[i] == k;
                    assert(pairs_of(m)[i].0 == k);
                    assert(m.contains_key(k));
                }
            }
        }
        n
    }

    /// Whether there are no members.
    pub fn is_empty(&self) -> (r: bool)
        ensures
            r == (self@.len() == 0),
            r == (self@ =~= Set::<Text>::empty()),
    {
        let n = self.len();
        proof {
            if n == 0 {
                assert(self@ =~= Set::<Text>::empty());
            }
        }
        n == 0
    }

    /// The member at position `i`, in ascending order.
    pub fn member_at(&self, i: usize) -> (r: &String)
        requires
            i < members_of(self@).len(),
        ensures
            r@ == members_of(self@)[i as int],
            self@.contains(r@),
    {
        proof {
            lemma_unit_map(self.members@);
        }
        let _n: usize = self.members.len();
        let r = self.members.key_at(i);
        proof {
            let m = self.members@;
            lemma_ordered_distinct(pairs_of(m));
            lemma_map_of(pairs_of(m));
            assert(m.contains_key(pairs_of(m)[i as int].0));
        }
        r
    }

    /// Whether `k` is a member.
    pub fn contains(&self, k: &str) -> (r: bool)
        ensures
            r == self@.contains(k@),
    {
        self.members.contains_key(k)
    }

    /// Adds `k` to the members.
    pub fn insert(&mut self, k: String)
        ensures
            final(self)@ == old(self)@.insert(k@),
    {
        let ghost before = self.members@;
        let ghost kv = k@;
        self.members.insert(k, ());
        assert(self.members@.dom() =~= before.dom().insert(kv));
    }

    /// Adds the members of `other`.
    pub fn extend(&mut self, other: &StrSet)
        ensures
            final(self)@ == old(self)@.union(other@),
    {
        let n = other.len();
        let ghost all = members_of(other@);
        let mut i: usize = 0;
        assert(old(self)@.union(all.take(0).to_set()) =~= old(self)@);
        while i < n
            invariant
                i <= n,
                n == all.len(),
                all == members_of(other@),
                self@ == old(self)@.union(all.take(i as int).to_set()),
            decreases n - i,
        {
            let k = other.member_at(i).clone();
            proof {
                assert(all.take(i + 1) =~= all.take(i as int).push(all[i as int]));
                assert(all.take(i + 1).to_set() =~= all.take(i as int).to_set().insert(
                    all[i as int],
                )) by {
                    broadcast use vstd::seq_lib::group_seq_properties;

                }
                assert(old(self)@.union(all.take(i + 1).to_set()) =~= self@.insert(all[i as int]));
            }
            self.insert(k);
            i += 1;
        }
        proof {
            assert(all.take(i as int) =~= all);
            assert forall|k: Text| all.to_set().contains(k) <==> other@.contains(k) by {}
            assert(old(self)@.union(all.to_set()) =~= old(self)@.union(other@));
        }
    }
}

impl Dup for StrSet {
    fn dup(&self) -> (r: Self) {
        StrSet { members: self.members.dup() }
    }
}

// ---------------------------------------------------------------------------------------
// Maps keyed by path

/// No two entries name the same path.
pub open spec fn distinct_paths<B>(s: Seq<(Text, B)>) -> bool {
    forall|i: int, j: int|
        0 <= i < s.len() && 0 <= j < s.len() && i != j ==> !same_path(
            (#[trigger] s[i]).0,
            (#[trigger] s[j]).0,
        )
}

/// Entry `i` is for the path `p`.
pub open spec fn is_entry<B>(s: Seq<(Text, B)>, p: Text, i: int) -> bool {
    0 <= i < s.len() && same_path(s[i].0, p)
}

/// The position of the entry for the path `p`.
pub open spec fn path_index<B>(s: Seq<(Text, B)>, p: Text) -> Option<int> {
    if exists|i: int| is_entry(s, p, i) {
        Some(choose|i: int| is_entry(s, p, i))
    } else {
        None
    }
}

/// The value for the path `p`.
pub open spec fn path_value<B>(s: Seq<(Text, B)>, p: Text) -> Option<B> {
    match path_index(s, p) {
        Some(i) => Some(s[i].1),
        None => None,
    }
}

/// The entries with `v` as the value for the path `p`. An entry that is there keeps the text
/// of its path.
pub open spec fn with_path<B>(s: Seq<(Text, B)>, p: Text, v: B) -> Seq<(Text, B)> {
    match path_index(s, p) {
        Some(i) => s.update(i, (s[i].0, v)),
        None => s.push((p, v)),
    }
}

/// One of `list` names the path `p`.
pub open spec fn path_listed(list: Seq<Text>, p: Text) -> bool {
    exists|i: int| 0 <= i < list.len() && same_path(#[trigger] list[i], p)
}

/// The entries for the paths in `list`.
pub open spec fn entries_listed<B>(s: Seq<(Text, B)>, list: Seq<Text>) -> Seq<(Text, B)> {
    s.filter(|e: (Text, B)| path_listed(list, e.0))
}

/// Whether one of `list` names the path `p`.
pub fn lists_path(list: &Vec<String>, p: &str) -> (r: bool)
    ensures
        r == path_listed(list.deep_view(), p@),
{
    let mut i: usize = 0;
    while i < list.len()
        invariant
            i <= list@.len(),
            forall|j: int| 0 <= j < i ==> !same_path(#[trigger] list.deep_view()[j], p@),
        decreases list@.len() - i,
    {
        if names_same_path(list[i].as_str(), p) {
            assert(same_path(list.deep_view()[i as int], p@));
            return true;
        }
        i += 1;
    }
    false
}

/// A map from paths to values, in the order in which the paths were added.
#[derive(Debug)]
pub struct PathMap<V: DeepView> {
    entries: Vec<(String, V)>,
}

impl<V: DeepView> PathMap<V> {
    #[verifier::type_invariant]
    spec fn paths_differ(self) -> bool {
        distinct_paths(self.entries.deep_view())
    }
}

impl<V: DeepView> View for PathMap<V> {
    type V = Seq<(Text, V::V)>;

    closed spec fn view(&self) -> Seq<(Text, V::V)> {
        self.entries.deep_view()
    }
}

impl<V: DeepView> DeepView for PathMap<V> {
    type V = Seq<(Text, V::V)>;

    open spec fn deep_view(&self) -> Seq<(Text, V::V)> {
        self.view()
    }
}

impl<V: DeepView> PathMap<V> {
    /// A map without entries.
    pub fn new() -> (r: Self)
        ensures
            r@ == Seq::<(Text, V::V)>::empty(),
    {
        let entries: Vec<(String, V)> = Vec::new();
        assert(entries.deep_view() =~= Seq::<(Text, V::V)>::empty());
        PathMap { entries }
    }

    /// The number of entries.
    pub fn len(&self) -> (r: usize)
        ensures
            r == self@.len(),
            distinct_paths(self@),
    {
        proof {
            use_type_invariant(self);
        }
        self.entries.len()
    }

    /// Whether there are no entries.
    pub fn is_empty(&self) -> (r: bool)
        ensures
            r == (self@.len() == 0),
    {
        self.entries.len() == 0
    }

    /// The path of the entry at position `i`.
    pub fn path_at(&self, i: usize) -> (r: &String)
        requires
            i < self@.len(),
        ensures
            r@ == self@[i as int].0,
    {
        &self.entries[i].0
    }

    /// The value of the entry at position `i`.
    pub fn value_at(&self, i: usize) -> (r: &V)
        requires
            i < self@.len(),
        ensures
            r.deep_view() == self@[i as int].1,
    {
        &self.entries[i].1
    }

    fn find(entries: &Vec<(String, V)>, p: &str) -> (r: Option<usize>)
        requires
            distinct_paths(entries.deep_view()),
        ensures
            match r {
                Some(i) => path_index(entries.deep_view(), p@) == Some(i as int) && i < entries@.len(),
                None => path_index(entries.deep_view(), p@) is None,
            },
    {
        let ghost d = entries.deep_view();
        let mut i: usize = 0;
        while i < entries.len()
            invariant
                i <= entries@.len(),
                d == entries.deep_view(),
                distinct_paths(d),
                forall|j: int| 0 <= j < i ==> !same_path((#[trigger] d[j]).0, p@),
            decreases entries@.len() - i,
        {
            if names_same_path(entries[i].0.as_str(), p) {
                proof {
                    assert(same_path(d[i as int].0, p@));
                    assert(is_entry(d, p@, i as int));
                    let k = choose|k: int| is_entry(d, p@, k);
                    if k != i {
                        assert(!same_path(d[k].0, d[i as int].0));
                    }
                }
                return Some(i);
            }
            i += 1;
        }
        None
    }

    /// The value for the path `p`.
    pub fn get(&self, p: &str) -> (r: Option<&V>)
        ensures
            match r {
                Some(v) => path_value(self@, p@) == Some(v.deep_view()),
                None => path_value(self@, p@) is None,
            },
    {
        proof {
            use_type_invariant(self);
        }
        match Self::find(&self.entries, p) {
            Some(i) => Some(&self.entries[i].1),
            None => None,
        }
    }

    /// Makes `v` the value for the path `p`.
    pub fn insert(&mut self, p: String, v: V)
        ensures
            final(self)@ == with_path(old(self)@, p@, v.deep_view()),
    {
        proof {
            use_type_invariant(&*self);
        }
        let ghost pv = p@;
        let ghost vv = v.deep_view();
        let mut e: Vec<(String, V)> = Vec::new();
        assert(e.deep_view() =~= Seq::<(Text, V::V)>::empty());
        std::mem::swap(&mut e, &mut self.entries);
        let ghost d = e.deep_view();
        match Self::find(&e, p.as_str()) {
            Some(i) => {
                let key = e[i].0.clone();
                e.set(i, (key, v));
                assert(e.deep_view() =~= d.update(i as int, (d[i as int].0, vv)));
                assert forall|a: int, b: int|
                    0 <= a < e@.len() && 0 <= b < e@.len() && a != b implies !same_path(
                    (#[trigger] e.deep_view()[a]).0,
                    (#[trigger] e.deep_view()[b]).0,
                ) by {
                    assert(!same_path(d[a].0, d[b].0));
                }
            },
            None => {
                e.push((p, v));
                assert(e.deep_view() =~= d.push((pv, vv)));
                assert forall|a: int, b: int|
                    0 <= a < e@.len() && 0 <= b < e@.len() && a != b implies !same_path(
                    (#[trigger] e.deep_view()[a]).0,
                    (#[trigger] e.deep_view()[b]).0,
                ) by {
                    assert(forall|i: int| !is_entry(d, pv, i));
                    if a < d.len() && b < d.len() {
                        assert(!same_path(d[a].0, d[b].0));
                    } else if a < d.len() {
                        assert(!is_entry(d, pv, a));
                    } else {
                        assert(!is_entry(d, pv, b));
                    }
                }
            },
        }
        self.entries = e;
    }

    /// Drops the entries for paths that are not in `list`.
    pub fn keep_listed(&mut self, list: &Vec<String>)
        ensures
            final(self)@ == entries_listed(old(self)@, list.deep_view()),
    {
        proof {
            use_type_invariant(&*self);
        }
        let ghost keep = |e: (Text, V::V)| path_listed(list.deep_view(), e.0);
        let mut e: Vec<(String, V)> = Vec::new();
        assert(e.deep_view() =~= Seq::<(Text, V::V)>::empty());
        std::mem::swap(&mut e, &mut self.entries);
        let ghost d = e.deep_view();
        let mut out: Vec<(String, V)> = Vec::new();
        proof {
            assert(d.skip(0) =~= d);
            assert(out.deep_view() =~= Seq::<(Text, V::V)>::empty());
            assert(d.skip(d.len() as int).filter(keep) =~= Seq::<(Text, V::V)>::empty()) by {
                reveal(Seq::filter);
            }
        }
        // Taken from the end: `out` holds the kept entries in reverse.
        while e.len() > 0
            invariant
                e@.len() <= d.len(),
                e.deep_view() == d.take(e@.len() as int),
                keep == (|x: (Text, V::V)| path_listed(list.deep_view(), x.0)),
                out.deep_view().reverse() == d.skip(e@.len() as int).filter(keep),
            decreases e@.len(),
        {
            let n: usize = e.len();
            let ghost before = out.deep_view();
            let ghost x = d[n - 1];
            assert(e.deep_view()[n - 1] == x);
            let last = e.pop();
            assert(e.deep_view() =~= d.take(n - 1));
            proof {
                assert(d.skip(n - 1) =~= seq![x] + d.skip(n as int));
                lemma_filter_front(d.skip(n as int), keep, x);
            }
            match last {
                Some(pair) => {
                    assert(x == (pair.0@, pair.1.deep_view()));
                    if lists_path(list, pair.0.as_str()) {
                        out.push(pair);
                        assert(out.deep_view() =~= before.push(x));
                        assert(out.deep_view().reverse() =~= seq![x] + before.reverse());
                    }
                },
                None => {
                    assert(false);
                },
            }
        }
        let mut kept: Vec<(String, V)> = Vec::new();
        let ghost r = out.deep_view();
        assert(kept.deep_view() =~= r.skip(r.len() as int).reverse());
        while out.len() > 0
            invariant
                out@.len() <= r.len(),
                out.deep_view() == r.take(out@.len() as int),
                kept.deep_view() == r.skip(out@.len() as int).reverse(),
            decreases out@.len(),
        {
            let n: usize = out.len();
            let ghost before = kept.deep_view();
            assert(out.deep_view()[n - 1] == r[n - 1]);
            let last = out.pop();
            assert(out.deep_view() =~= r.take(n - 1));
            match last {
                Some(pair) => {
                    assert(r[n - 1] == (pair.0@, pair.1.deep_view()));
                    kept.push(pair);
                    assert(kept.deep_view() =~= before.push(r[n - 1]));
                    assert(r.skip(n - 1).reverse() =~= r.skip(n as int).reverse().push(r[n - 1]));
                },
                None => {
                    assert(false);
                },
            }
        }
        proof {
            assert(r.skip(0).reverse() =~= r.reverse());
            assert(d.skip(0) =~= d);
            assert(kept.deep_view() == d.filter(keep));
            assert(d.filter(keep) == entries_listed(d, list.deep_view()));
            lemma_filter_distinct_paths(d, keep);
        }
        self.entries = kept;
    }
}

impl<V: Dup> Dup for PathMap<V> {
    fn dup(&self) -> (r: Self) {
        proof {
            use_type_invariant(self);
        }
        PathMap { entries: self.entries.dup() }
    }
}

/// Filtering `x` and then `s`, and filtering them one by one, come to the same.
pub proof fn lemma_filter_front<A>(s: Seq<A>, keep: spec_fn(A) -> bool, x: A)
    ensures
        (seq![x] + s).filter(keep) == (if keep(x) {
            seq![x] + s.filter(keep)
        } else {
            s.filter(keep)
        }),
    decreases s.len(),
{
    reveal(Seq::filter);
    let t = seq![x] + s;
    if s.len() == 0 {
        assert(t.drop_last() =~= Seq::<A>::empty());
        assert(t.last() == x);
        assert(s.filter(keep) =~= Seq::<A>::empty());
        assert(t.drop_last().filter(keep) =~= Seq::<A>::empty());
        assert(t.filter(keep) =~= (if keep(x) {
            seq![x] + s.filter(keep)
        } else {
            s.filter(keep)
        }));
    } else {
        lemma_filter_front(s.drop_last(), keep, x);
        assert(t.drop_last() =~= seq![x] + s.drop_last());
        assert(t.last() == s.last());
        assert(t.filter(keep) =~= (if keep(x) {
            seq![x] + s.filter(keep)
        } else {
            s.filter(keep)
        }));
    }
}

/// Each entry that a filter keeps was there, at a position of its own.
proof fn lemma_filter_distinct_paths<B>(s: Seq<(Text, B)>, keep: spec_fn((Text, B)) -> bool)
    requires
        distinct_paths(s),
    ensures
        distinct_paths(s.filter(keep)),
        forall|i: int|
            0 <= i < s.filter(keep).len() ==> s.contains(#[trigger] s.filter(keep)[i]),
    decreases s.len(),
{
    reveal(Seq::filter);
    if s.len() > 0 {
        let t = s.drop_last();
        assert forall|i: int, j: int| 0 <= i < t.len() && 0 <= j < t.len() && i != j implies !same_path(
            (#[trigger] t[i]).0,
            (#[trigger] t[j]).0,
        ) by {
            assert(!same_path(s[i].0, s[j].0));
        }
        lemma_filter_distinct_paths(t, keep);
        let f = t.filter(keep);
        let g = s.filter(keep);
        assert forall|i: int| 0 <= i < f.len() implies exists|k: int|
            0 <= k < t.len() && s[k] == #[trigger] f[i] by {
            assert(t.contains(f[i]));
            let k = choose|k: int| 0 <= k < t.len() && t[k] == f[i];
            assert(s[k] == f[i]);
        }
        assert forall|i: int| 0 <= i < g.len() implies s.contains(#[trigger] g[i]) by {
            if i < f.len() {
                assert(g[i] == f[i]);
            } else {
                assert(g[i] == s[s.len() - 1]);
            }
        }
        assert forall|i: int, j: int| 0 <= i < g.len() && 0 <= j < g.len() && i != j implies !same_path(
            (#[trigger] g[i]).0,
            (#[trigger] g[j]).0,
        ) by {
            if i < f.len() && j < f.len() {
                assert(!same_path(f[i].0, f[j].0));
            } else {
                let a = if i < f.len() { i } else { j };
                let k = choose|k: int| 0 <= k < t.len() && s[k] == f[a];
                assert(!same_path(s[k].0, s[s.len() - 1].0));
            }
        }
    }
}

/// The members of a finite set, listed.
pub proof fn lemma_members_of(s: Set<Text>)
    requires
        s.finite(),
    ensures
        forall|x: Text| #[trigger] members_of(s).contains(x) <==> s.contains(x),
        members_of(s).len() == s.len(),
{
    let m = s.mk_map(|k: Text| ());
    assert(m.dom() =~= s);
    lemma_pairs_of_finite(m);
    let p = pairs_of(m);
    lemma_ordered_distinct(p);
    lemma_map_of(p);
    assert forall|x: Text| #[trigger] members_of(s).contains(x) <==> s.contains(x) by {
        if members_of(s).contains(x) {
            let i = choose|i: int| 0 <= i < members_of(s).len() && members_of(s)[i] == x;
            assert(map_of(p).contains_key(p[i].0));
        }
        if s.contains(x) {
            assert(map_of(p).contains_key(x));
            let i = choose|i: int| 0 <= i < p.len() && (#[trigger] p[i]).0 == x;
            assert(members_of(s)[i] == x);
        }
    }
}

/// As many pairs have a value of some kind as keys have one.
pub proof fn lemma_count_pairs<B>(m: Map<Text, B>, p: spec_fn(B) -> bool)
    requires
        m.dom().finite(),
    ensures
        pairs_of(m).filter(|q: (Text, B)| p(q.1)).len() == m.dom().filter(|k: Text| p(m[k])).len(),
{
    lemma_pairs_of_finite(m);
    lemma_ordered_distinct(pairs_of(m));
    lemma_count_keys(pairs_of(m), p);
}

proof fn lemma_count_keys<B>(s: Seq<(Text, B)>, p: spec_fn(B) -> bool)
    requires
        distinct_keys(s),
    ensures
        s.filter(|q: (Text, B)| p(q.1)).len() == map_of(s).dom().filter(
            |k: Text| p(map_of(s)[k]),
        ).len(),
    decreases s.len(),
{
    reveal(Seq::filter);
    let m = map_of(s);
    let here = m.dom().filter(|k: Text| p(m[k]));
    lemma_distinct_len(s);
    if s.len() == 0 {
        assert(m.dom() =~= Set::<Text>::empty());
        assert(here =~= Set::<Text>::empty());
    } else {
        let t = s.drop_last();
        lemma_map_of_drop_last(s);
        lemma_count_keys(t, p);
        lemma_distinct_len(t);
        let before = map_of(t);
        let there = before.dom().filter(|k: Text| p(before[k]));
        let last = s.last();
        assert(!there.contains(last.0));
        assert(there.subset_of(before.dom()));
        vstd::set_lib::lemma_len_subset(there, before.dom());
        if p(last.1) {
            assert(here =~= there.insert(last.0));
        } else {
            assert(here =~= there);
        }
    }
}

} // verus!
