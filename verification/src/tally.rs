//! Counting how often values come.

use vstd::prelude::*;
use crate::table::Dup;
use crate::text::{same_list, same_optional, Text};

verus! {

/// A value that can be told from others.
pub trait SameKey: DeepView + Sized {
    /// Whether the two are the same value.
    fn same(&self, other: &Self) -> (r: bool)
        ensures
            r == (self.deep_view() == other.deep_view()),
    ;
}

impl SameKey for Vec<String> {
    fn same(&self, other: &Self) -> (r: bool) {
        same_list(self, other)
    }
}

impl SameKey for Option<String> {
    fn same(&self, other: &Self) -> (r: bool) {
        same_optional(self, other)
    }
}

/// The number after `n`, or the largest there is.
pub open spec fn next_count(n: usize) -> usize {
    if n < usize::MAX {
        (n + 1) as usize
    } else {
        n
    }
}

/// The counts after `k` came once more. A value has its row where it first came.
pub open spec fn with_count<A>(rows: Seq<(A, usize)>, k: A) -> Seq<(A, usize)>
    decreases rows.len(),
{
    if rows.len() == 0 {
        seq![(k, 1usize)]
    } else if rows[0].0 == k {
        rows.update(0, (k, next_count(rows[0].1)))
    } else {
        seq![rows[0]] + with_count(rows.drop_first(), k)
    }
}

/// How often `k` came.
pub open spec fn count_of<A>(rows: Seq<(A, usize)>, k: A) -> usize
    decreases rows.len(),
{
    if rows.len() == 0 {
        0
    } else if rows[0].0 == k {
        rows[0].1
    } else {
        count_of(rows.drop_first(), k)
    }
}

/// The row with the largest count among those that `pick` holds for, the last of those.
pub open spec fn top_row<A>(rows: Seq<(A, usize)>, pick: spec_fn(A) -> bool) -> Option<(A, usize)>
    decreases rows.len(),
{
    if rows.len() == 0 {
        None
    } else {
        let best = top_row(rows.drop_last(), pick);
        let row = rows.last();
        if !pick(row.0) {
            best
        } else {
            match best {
                Some(b) if b.1 > row.1 => best,
                _ => Some(row),
            }
        }
    }
}

/// The value that came most often.
pub open spec fn most_counted<A>(rows: Seq<(A, usize)>) -> Option<A> {
    match top_row(rows, |k: A| true) {
        Some(row) => Some(row.0),
        None => None,
    }
}

/// The text that came most often; what is absent is passed over.
pub open spec fn most_counted_text(rows: Seq<(Option<Text>, usize)>) -> Option<Text> {
    match top_row(rows, |k: Option<Text>| k is Some) {
        Some(row) => row.0,
        None => None,
    }
}

/// The sum of all counts.
pub open spec fn all_counts<A>(rows: Seq<(A, usize)>) -> nat
    decreases rows.len(),
{
    if rows.len() == 0 {
        0
    } else {
        all_counts(rows.drop_last()) + rows.last().1 as nat
    }
}

/// No row that counts has a larger count than the one that comes out, and it is one of them;
/// none comes out only where none counts.
pub proof fn law_top_row_is_largest<A>(rows: Seq<(A, usize)>, pick: spec_fn(A) -> bool)
    ensures
        match top_row(rows, pick) {
            Some(b) => pick(b.0) && rows.contains(b) && forall|i: int|
                0 <= i < rows.len() && pick((#[trigger] rows[i]).0) ==> rows[i].1 <= b.1,
            None => forall|i: int| 0 <= i < rows.len() ==> !pick((#[trigger] rows[i]).0),
        },
    decreases rows.len(),
{
    if rows.len() > 0 {
        let rest = rows.drop_last();
        law_top_row_is_largest(rest, pick);
        assert(rows.last() == rows[rows.len() - 1]);
        assert forall|i: int| 0 <= i < rest.len() implies #[trigger] rows[i] == rest[i] by {}
        if let Some(b) = top_row(rest, pick) {
            let j = choose|j: int| 0 <= j < rest.len() && rest[j] == b;
            assert(rows[j] == b);
        }
    }
}

/// Counting a value raises its own count and no other.
pub proof fn law_counting<A>(rows: Seq<(A, usize)>, k: A, other: A)
    ensures
        count_of(with_count(rows, k), k) == next_count(count_of(rows, k)),
        other != k ==> count_of(with_count(rows, k), other) == count_of(rows, other),
    decreases rows.len(),
{
    let w = with_count(rows, k);
    reveal_with_fuel(count_of, 2);
    if rows.len() == 0 {
        assert(w.drop_first() =~= Seq::<(A, usize)>::empty());
    } else if rows[0].0 == k {
        assert(w.drop_first() =~= rows.drop_first());
    } else {
        law_counting(rows.drop_first(), k, other);
        assert(w.drop_first() =~= with_count(rows.drop_first(), k));
    }
}

proof fn lemma_with_count<A>(rows: Seq<(A, usize)>, k: A, i: int)
    requires
        0 <= i <= rows.len(),
        forall|j: int| 0 <= j < i ==> (#[trigger] rows[j]).0 != k,
        i < rows.len() ==> rows[i].0 == k,
    ensures
        with_count(rows, k) == (if i < rows.len() {
            rows.update(i, (k, next_count(rows[i].1)))
        } else {
            rows.push((k, 1usize))
        }),
    decreases i,
{
    if i > 0 {
        let rest = rows.drop_first();
        assert forall|j: int| 0 <= j < i - 1 implies (#[trigger] rest[j]).0 != k by {
            assert(rest[j] == rows[j + 1]);
        }
        assert(i < rows.len() ==> rest[i - 1] == rows[i]);
        lemma_with_count(rest, k, i - 1);
        if i < rows.len() {
            assert(seq![rows[0]] + rest.update(i - 1, (k, next_count(rows[i].1))) =~= rows.update(
                i,
                (k, next_count(rows[i].1)),
            ));
        } else {
            assert(seq![rows[0]] + rest.push((k, 1usize)) =~= rows.push((k, 1usize)));
        }
    } else if rows.len() == 0 {
        assert(seq![(k, 1usize)] =~= rows.push((k, 1usize)));
    }
}

/// How often each of some values came.
#[derive(Debug)]
pub struct Tally<K> {
    /// The values with their counts, in the order in which they first came.
    pub counts: Vec<(K, usize)>,
}

impl<K: DeepView> View for Tally<K> {
    type V = Seq<(K::V, usize)>;

    open spec fn view(&self) -> Seq<(K::V, usize)> {
        self.counts.deep_view()
    }
}

impl<K: DeepView> DeepView for Tally<K> {
    type V = Seq<(K::V, usize)>;

    open spec fn deep_view(&self) -> Seq<(K::V, usize)> {
        self.view()
    }
}

impl<K: Dup> Dup for Tally<K> {
    fn dup(&self) -> (r: Self) {
        Tally { counts: self.counts.dup() }
    }
}

impl<K: SameKey> Tally<K> {
    /// A table without counts.
    pub fn new() -> (r: Self)
        ensures
            r@ == Seq::<(K::V, usize)>::empty(),
    {
        let counts: Vec<(K, usize)> = Vec::new();
        assert(counts.deep_view() =~= Seq::<(K::V, usize)>::empty());
        Tally { counts }
    }

    /// The number of different values that came.
    pub fn len(&self) -> (r: usize)
        ensures
            r == self@.len(),
    {
        self.counts.len()
    }

    /// Counts `k` once more.
    pub fn add(&mut self, k: K)
        ensures
            final(self)@ == with_count(old(self)@, k.deep_view()),
    {
        let ghost d = self.counts.deep_view();
        let ghost kv = k.deep_view();
        let mut i: usize = 0;
        while i < self.counts.len() && !self.counts[i].0.same(&k)
            invariant
                i <= self.counts@.len(),
                d == self.counts.deep_view(),
                kv == k.deep_view(),
                forall|j: int| 0 <= j < i ==> (#[trigger] d[j]).0 != kv,
            decreases self.counts@.len() - i,
        {
            i += 1;
        }
        proof {
            lemma_with_count(d, kv, i as int);
        }
        if i < self.counts.len() {
            let n: usize = self.counts[i].1;
            let m: usize = if n < usize::MAX {
                n + 1
            } else {
                n
            };
            self.counts.set(i, (k, m));
            assert(self.counts.deep_view() =~= d.update(i as int, (kv, next_count(n))));
        } else {
            self.counts.push((k, 1));
            assert(self.counts.deep_view() =~= d.push((kv, 1usize)));
        }
    }

    /// The value that came most often.
    pub fn most_counted(&self) -> (r: Option<&K>)
        ensures
            r.deep_view() == most_counted(self@),
    {
        let ghost d = self@;
        let ghost pick = |k: K::V| true;
        let mut best: Option<usize> = None;
        let mut i: usize = 0;
        assert(d.take(0) =~= Seq::<(K::V, usize)>::empty());
        while i < self.counts.len()
            invariant
                i <= self.counts@.len(),
                d == self.counts.deep_view(),
                pick == (|k: K::V| true),
                match best {
                    Some(b) => b < i && top_row(d.take(i as int), pick) == Some(d[b as int]),
                    None => top_row(d.take(i as int), pick) is None,
                },
            decreases self.counts@.len() - i,
        {
            proof {
                assert(d.take(i + 1).drop_last() =~= d.take(i as int));
                assert(d.take(i + 1).last() == d[i as int]);
            }
            best = match best {
                Some(b) => if self.counts[b].1 > self.counts[i].1 {
                    Some(b)
                } else {
                    Some(i)
                },
                None => Some(i),
            };
            i += 1;
        }
        assert(d.take(i as int) =~= d);
        match best {
            Some(b) => Some(&self.counts[b].0),
            None => None,
        }
    }
}

impl Tally<Option<String>> {
    /// The text that came most often; what is absent is passed over.
    pub fn most_counted_text(&self) -> (r: Option<String>)
        ensures
            r.deep_view() == most_counted_text(self@),
    {
        let ghost d = self@;
        let ghost pick = |k: Option<Text>| k is Some;
        let mut best: Option<usize> = None;
        let mut i: usize = 0;
        assert(d.take(0) =~= Seq::<(Option<Text>, usize)>::empty());
        while i < self.counts.len()
            invariant
                i <= self.counts@.len(),
                d == self.counts.deep_view(),
                pick == (|k: Option<Text>| k is Some),
                match best {
                    Some(b) => b < i && top_row(d.take(i as int), pick) == Some(d[b as int]),
                    None => top_row(d.take(i as int), pick) is None,
                },
            decreases self.counts@.len() - i,
        {
            proof {
                assert(d.take(i + 1).drop_last() =~= d.take(i as int));
                assert(d.take(i + 1).last() == d[i as int]);
                assert(d[i as int].0 == self.counts@[i as int].0.deep_view());
            }
            if self.counts[i].0.is_some() {
                best = match best {
                    Some(b) => if self.counts[b].1 > self.counts[i].1 {
                        Some(b)
                    } else {
                        Some(i)
                    },
                    None => Some(i),
                };
            }
            i += 1;
        }
        assert(d.take(i as int) =~= d);
        match best {
            Some(b) => self.counts[b].0.clone(),
            None => None,
        }
    }
}

impl<K: DeepView> Tally<K> {
    /// Whether the counts come to `least` or more.
    pub fn counts_reach(&self, least: usize) -> (r: bool)
        ensures
            r == (all_counts(self@) >= least),
    {
        let ghost d = self@;
        let mut sum: usize = 0;
        let mut i: usize = 0;
        while i < self.counts.len()
            invariant
                i <= self.counts@.len(),
                d == self.counts.deep_view(),
                sum == all_counts(d.take(i as int)) || (sum == usize::MAX && all_counts(
                    d.take(i as int),
                ) >= usize::MAX),
            decreases self.counts@.len() - i,
        {
            proof {
                assert(d.take(i + 1).drop_last() =~= d.take(i as int));
                assert(d.take(i + 1).last() == d[i as int]);
            }
            sum = match sum.checked_add(self.counts[i].1) {
                Some(n) => n,
                None => usize::MAX,
            };
            i += 1;
        }
        assert(d.take(i as int) =~= d);
        sum >= least
    }
}

/// Nothing is counted before anything was; what is counted first stands first, and what was
/// counted already keeps its place.
pub proof fn law_counting_keeps_places<A>(rows: Seq<(A, usize)>, k: A)
    ensures
        count_of(Seq::<(A, usize)>::empty(), k) == 0,
        rows.len() <= with_count(rows, k).len() <= rows.len() + 1,
        forall|i: int| 0 <= i < rows.len() ==> (#[trigger] with_count(rows, k)[i]).0 == rows[i].0,
        with_count(rows, k).len() > rows.len() ==> with_count(rows, k).last() == (k, 1usize),
        (forall|i: int| 0 <= i < rows.len() ==> (#[trigger] rows[i]).0 != k) <==> with_count(
            rows,
            k,
        ).len() > rows.len(),
    decreases rows.len(),
{
    if rows.len() > 0 {
        if rows[0].0 == k {
            assert(!(forall|i: int| 0 <= i < rows.len() ==> (#[trigger] rows[i]).0 != k));
        } else {
            let rest = rows.drop_first();
            law_counting_keeps_places(rest, k);
            let w = with_count(rows, k);
            assert forall|i: int| 0 <= i < rows.len() implies (#[trigger] w[i]).0 == rows[i].0 by {
                if i > 0 {
                    assert(with_count(rest, k)[i - 1].0 == rest[i - 1].0);
                }
            }
            if w.len() > rows.len() {
                assert forall|i: int| 0 <= i < rows.len() implies (#[trigger] rows[i]).0 != k by {
                    if i > 0 {
                        assert(rest[i - 1].0 != k);
                    }
                }
            } else {
                let i = choose|i: int| 0 <= i < rest.len() && (#[trigger] rest[i]).0 == k;
                assert(rows[i + 1].0 == k);
            }
        }
    }
}

/// Of rows that are counted equally often the last is the top one.
pub proof fn law_last_of_equals_is_top<A>(rows: Seq<(A, usize)>, pick: spec_fn(A) -> bool)
    ensures
        top_row(rows, pick) matches Some(b) ==> exists|k: int|
            0 <= k < rows.len() && #[trigger] rows[k] == b && forall|i: int|
                k < i < rows.len() && pick((#[trigger] rows[i]).0) ==> rows[i].1 < b.1,
    decreases rows.len(),
{
    if rows.len() > 0 {
        let rest = rows.drop_last();
        let n = rows.len() - 1;
        law_last_of_equals_is_top(rest, pick);
        if let Some(b) = top_row(rows, pick) {
            if top_row(rest, pick) == Some(b) && !(pick(rows[n].0) && rows[n].1 >= b.1) {
                let k = choose|k: int|
                    0 <= k < rest.len() && #[trigger] rest[k] == b && forall|i: int|
                        k < i < rest.len() && pick((#[trigger] rest[i]).0) ==> rest[i].1 < b.1;
                assert(rows[k] == b);
                assert forall|i: int| k < i < rows.len() && pick(
                    (#[trigger] rows[i]).0,
                ) implies rows[i].1 < b.1 by {
                    if i < n {
                        assert(rest[i] == rows[i]);
                    }
                }
            } else {
                assert(rows[n] == b);
            }
        }
    }
}

/// All that is counted is one more after each count.
pub proof fn law_all_counts<A>(rows: Seq<(A, usize)>, k: A)
    requires
        count_of(rows, k) < usize::MAX,
    ensures
        all_counts(with_count(rows, k)) == all_counts(rows) + 1,
        all_counts(Seq::<(A, usize)>::empty()) == 0,
    decreases rows.len(),
{
    let none = Seq::<(A, usize)>::empty();
    if rows.len() == 0 {
        assert(seq![(k, 1usize)].drop_last() =~= none);
        assert(all_counts(none) == 0);
    } else {
        let rest = rows.drop_first();
        lemma_all_counts_first(rows);
        lemma_all_counts_first(with_count(rows, k));
        if rows[0].0 == k {
            assert(with_count(rows, k).drop_first() =~= rest);
        } else {
            law_all_counts(rest, k);
            assert(with_count(rows, k).drop_first() =~= with_count(rest, k));
        }
    }
}

proof fn lemma_all_counts_first<A>(rows: Seq<(A, usize)>)
    requires
        rows.len() > 0,
    ensures
        all_counts(rows) == rows[0].1 as nat + all_counts(rows.drop_first()),
    decreases rows.len(),
{
    if rows.len() == 1 {
        assert(rows.drop_first() =~= Seq::<(A, usize)>::empty());
        assert(rows.drop_last() =~= Seq::<(A, usize)>::empty());
        assert(all_counts(rows.drop_last()) == 0);
    } else {
        lemma_all_counts_first(rows.drop_last());
        assert(rows.drop_first().drop_last() =~= rows.drop_last().drop_first());
        assert(rows.drop_first().last() == rows.last());
    }
}

} // verus!
