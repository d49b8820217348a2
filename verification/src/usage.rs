//! Disk usage by directory, from the sizes of the annexed files and not from the file system.

use vstd::prelude::*;
use crate::annex::{AnnexedFile, FileView};
use crate::order::{arrange, arranged, before, law_sorting_keeps_totals, lemma_order, order, sorted_by, total_over, Key, SortKey};
use crate::reading::law_joined_pieces_are_read_back;
use crate::table::{distinct_keys, has_key, lemma_map_of, lemma_map_of_drop_last, lemma_ordered_distinct, lemma_pairs_of_finite, lemma_sum_set, map_of, pairs_of, sum_of, Dup, StrMap};
use crate::text::{chars_of, join, lemma_chars_deep, lemma_next_of, lemma_split_on_free, next_of, split_chars, split_on, string_of, text_less, Text};

verus! {

// ---------------------------------------------------------------------------------------
// Directories

/// The names along a path, from the top down.
pub open spec fn steps(path: Text) -> Seq<Text> {
    split_on(path, '/').filter(|p: Text| p.len() > 0)
}

/// The directory that the first `k` names lead to; the top is the empty text.
pub open spec fn dir_text(names: Seq<Text>, k: int) -> Text {
    join(names.take(k), "/"@)
}

/// The path of `name` in the directory `dir`.
pub open spec fn child_path(dir: Text, name: Text) -> Text {
    if dir.len() == 0 {
        name
    } else {
        dir + "/"@ + name
    }
}

/// Whether `names` lead through the directory `dir`.
pub open spec fn lead_through(names: Seq<Text>, dir: Text) -> bool {
    exists|k: int| 0 <= k < names.len() && #[trigger] dir_text(names, k) == dir
}

/// Whether `names` lead through the directory `dir` to `name` in it, or further.
pub open spec fn lead_to(names: Seq<Text>, dir: Text, name: Text) -> bool {
    exists|k: int|
        0 <= k < names.len() && #[trigger] dir_text(names, k) == dir && names[k] == name
}

/// Whether `names` end with `name` in the directory `dir`.
pub open spec fn end_at(names: Seq<Text>, dir: Text, name: Text) -> bool {
    &&& names.len() > 0
    &&& dir_text(names, names.len() - 1) == dir
    &&& names.last() == name
}

/// `a + b`, or the largest number there is.
pub open spec fn capped_sum(a: u64, b: u64) -> u64 {
    if a + b <= u64::MAX {
        (a + b) as u64
    } else {
        u64::MAX
    }
}

/// The size of a file, where an unknown one counts nothing.
pub open spec fn file_size(f: FileView) -> u64 {
    match f.size {
        Some(n) => n,
        None => 0,
    }
}

/// The size and the number of the files under the directory `dir`.
pub open spec fn total_under(files: Seq<FileView>, dir: Text) -> (u64, nat)
    decreases files.len(),
{
    if files.len() == 0 {
        (0, 0)
    } else {
        let t = total_under(files.drop_last(), dir);
        if lead_through(steps(files.last().path), dir) {
            (capped_sum(t.0, file_size(files.last())), t.1 + 1)
        } else {
            t
        }
    }
}

/// An entry of a directory.
#[derive(Debug)]
pub struct UsageChild {
    pub name: String,
    pub rel_path: String,
    pub is_dir: bool,
    pub size: u64,
    pub file_count: usize,
    /// Which file it is.
    pub file_idx: Option<usize>,
}

/// What a [`UsageChild`] stands for.
#[verifier::ext_equal]
pub ghost struct ChildView {
    pub name: Text,
    pub rel_path: Text,
    pub is_dir: bool,
    pub size: u64,
    pub file_count: nat,
    pub file_idx: Option<int>,
}

/// The index of a file as a whole number.
pub open spec fn index_of(i: Option<usize>) -> Option<int> {
    match i {
        Some(n) => Some(n as int),
        None => None,
    }
}

impl DeepView for UsageChild {
    type V = ChildView;

    open spec fn deep_view(&self) -> ChildView {
        ChildView {
            name: self.name@,
            rel_path: self.rel_path@,
            is_dir: self.is_dir,
            size: self.size,
            file_count: self.file_count as nat,
            file_idx: index_of(self.file_idx),
        }
    }
}

impl Dup for UsageChild {
    fn dup(&self) -> (r: Self) {
        UsageChild {
            name: self.name.dup(),
            rel_path: self.rel_path.dup(),
            is_dir: self.is_dir,
            size: self.size,
            file_count: self.file_count,
            file_idx: self.file_idx,
        }
    }
}

/// The entry `name` of the directory `dir` after a file that leads to it was added. A file
/// that ends there makes it a file, one that leads further a directory.
pub open spec fn grown(
    old: Option<ChildView>,
    dir: Text,
    name: Text,
    size: u64,
    ends: bool,
    idx: int,
) -> ChildView {
    ChildView {
        name,
        rel_path: child_path(dir, name),
        is_dir: !ends,
        size: match old {
            Some(c) => capped_sum(c.size, size),
            None => size,
        },
        file_count: match old {
            Some(c) => c.file_count + 1,
            None => 1,
        },
        file_idx: if ends {
            Some(idx)
        } else {
            match old {
                Some(c) => c.file_idx,
                None => None,
            }
        },
    }
}

/// The entry `name` of the directory `dir`, if there is one.
pub open spec fn entry_of(files: Seq<FileView>, dir: Text, name: Text) -> Option<ChildView>
    decreases files.len(),
{
    if files.len() == 0 {
        None
    } else {
        let old = entry_of(files.drop_last(), dir, name);
        let names = steps(files.last().path);
        if lead_to(names, dir, name) {
            Some(
                grown(
                    old,
                    dir,
                    name,
                    file_size(files.last()),
                    end_at(names, dir, name),
                    files.len() - 1,
                ),
            )
        } else {
            old
        }
    }
}

/// Whether `dir` is the top or a directory that some file leads through.
pub open spec fn is_directory(files: Seq<FileView>, dir: Text) -> bool {
    dir.len() == 0 || exists|i: int|
        0 <= i < files.len() && lead_through(steps((#[trigger] files[i]).path), dir)
}

/// The entries of the directory `dir` by name.
pub open spec fn entries_of(files: Seq<FileView>, dir: Text) -> Map<Text, ChildView> {
    Map::new(
        |name: Text| entry_of(files, dir, name) is Some,
        |name: Text| entry_of(files, dir, name)->0,
    )
}

/// The place of an entry in its directory: the largest first, those of a size by name.
pub open spec fn child_key(c: ChildView) -> Key {
    (-(c.size as int), c.name)
}

/// Entries in the order in which they are shown.
pub open spec fn largest_first(entries: Map<Text, ChildView>) -> Seq<ChildView> {
    sorted_by(
        pairs_of(entries).map_values(|p: (Text, ChildView)| p.1),
        |c: ChildView| child_key(c),
    )
}

/// What a [`UsageTree`] stands for.
#[verifier::ext_equal]
pub ghost struct TreeView {
    pub children: Map<Text, Seq<ChildView>>,
    pub totals: Map<Text, (u64, nat)>,
}

/// The usage of all directories.
pub open spec fn usage_of(files: Seq<FileView>) -> TreeView {
    TreeView {
        children: Map::new(
            |dir: Text| is_directory(files, dir),
            |dir: Text| largest_first(entries_of(files, dir)),
        ),
        totals: Map::new(
            |dir: Text| is_directory(files, dir),
            |dir: Text| total_under(files, dir),
        ),
    }
}

// ---------------------------------------------------------------------------------------
// Paths

proof fn lemma_steps_nonempty(path: Text)
    ensures
        forall|i: int| 0 <= i < steps(path).len() ==> (#[trigger] steps(path)[i]).len() > 0,
{
    broadcast use vstd::seq_lib::group_filter_ensures;

}

/// The names along a path, from the top down.
fn steps_of(path: &str) -> (r: Vec<String>)
    ensures
        r.deep_view() == steps(path@),
        forall|i: int| 0 <= i < r@.len() ==> (#[trigger] r@[i])@.len() > 0,
{
    let c = chars_of(path);
    let all = split_chars(c.as_slice(), '/');
    let ghost l = all.deep_view();
    let ghost keep = |p: Text| p.len() > 0;
    let mut out: Vec<String> = Vec::new();
    let mut i: usize = 0;
    proof {
        reveal(Seq::filter);
        assert(l.take(0).filter(keep) =~= Seq::<Text>::empty());
        assert(out.deep_view() =~= Seq::<Text>::empty());
    }
    while i < all.len()
        invariant
            i <= all@.len(),
            l == all.deep_view(),
            keep == (|p: Text| p.len() > 0),
            out.deep_view() == l.take(i as int).filter(keep),
            forall|j: int| 0 <= j < out@.len() ==> (#[trigger] out@[j])@.len() > 0,
        decreases all@.len() - i,
    {
        let ghost before = out.deep_view();
        let piece = all[i].as_slice();
        proof {
            lemma_chars_deep(all@[i as int]);
            reveal(Seq::filter);
            assert(l.take(i + 1).drop_last() =~= l.take(i as int));
            assert(l.take(i + 1).last() == piece@);
        }
        if piece.len() > 0 {
            out.push(string_of(piece));
            assert(out.deep_view() =~= before.push(piece@));
        }
        i += 1;
    }
    assert(l.take(i as int) =~= l);
    out
}

/// The next directory along the names.
proof fn lemma_dir_step(names: Seq<Text>, k: int)
    requires
        0 <= k < names.len(),
        forall|i: int| 0 <= i < names.len() ==> (#[trigger] names[i]).len() > 0,
    ensures
        dir_text(names, k + 1) == child_path(dir_text(names, k), names[k]),
        dir_text(names, k).len() < dir_text(names, k + 1).len(),
        k == 0 <==> dir_text(names, k).len() == 0,
        dir_text(names, 0).len() == 0,
    decreases k,
{
    let a = names.take(k);
    let b = names.take(k + 1);
    assert(b.drop_last() =~= a);
    assert(b.last() == names[k]);
    if k == 0 {
        assert(a =~= Seq::<Text>::empty());
        assert(b[0] == names[0]);
    } else {
        lemma_dir_step(names, k - 1);
    }
}

/// No directory comes twice along the names.
proof fn lemma_dirs_distinct(names: Seq<Text>, i: int, j: int)
    requires
        0 <= i < j <= names.len(),
        forall|k: int| 0 <= k < names.len() ==> (#[trigger] names[k]).len() > 0,
    ensures
        dir_text(names, i).len() < dir_text(names, j).len(),
    decreases j - i,
{
    lemma_dir_step(names, j - 1);
    if i < j - 1 {
        lemma_dirs_distinct(names, i, j - 1);
    }
}

// ---------------------------------------------------------------------------------------
// Building

/// What a map of maps holds for `dir` and `name`.
spec fn held(nested: Map<Text, Map<Text, ChildView>>, dir: Text, name: Text) -> Option<ChildView> {
    if nested.contains_key(dir) && nested[dir].contains_key(name) {
        Some(nested[dir][name])
    } else {
        None
    }
}

/// The size and the number of the files of a directory.
#[derive(Debug)]
struct Total {
    size: u64,
    files: usize,
}

impl DeepView for Total {
    type V = (u64, nat);

    closed spec fn deep_view(&self) -> (u64, nat) {
        (self.size, self.files as nat)
    }
}

/// What a map holds for `dir`, or nothing yet.
spec fn counted(totals: Map<Text, (u64, nat)>, dir: Text) -> (u64, nat) {
    if totals.contains_key(dir) {
        totals[dir]
    } else {
        (0, 0)
    }
}

fn capped_sum_of(a: u64, b: u64) -> (r: u64)
    ensures
        r == capped_sum(a, b),
{
    match a.checked_add(b) {
        Some(n) => n,
        None => u64::MAX,
    }
}

/// Adds a file of `size` to the total of `dir`.
fn add_to_total(totals: &mut StrMap<Total>, dir: &String, size: u64)
    requires
        counted(old(totals)@, dir@).1 < usize::MAX,
    ensures
        final(totals)@ == old(totals)@.insert(
            dir@,
            (
                capped_sum(counted(old(totals)@, dir@).0, size),
                counted(old(totals)@, dir@).1 + 1,
            ),
        ),
{
    let (old_size, old_files) = match totals.get(dir.as_str()) {
        Some(t) => (t.size, t.files),
        None => (0, 0),
    };
    let grown_total = Total { size: capped_sum_of(old_size, size), files: old_files + 1 };
    totals.insert(dir.clone(), grown_total);
}

/// Adds a file of `size` to the entry `name` of `dir`.
fn add_to_entry(
    nested: &mut StrMap<StrMap<UsageChild>>,
    dir: &String,
    name: &String,
    rel_path: &String,
    size: u64,
    ends: bool,
    idx: usize,
)
    requires
        rel_path@ == child_path(dir@, name@),
        held(old(nested)@, dir@, name@) matches Some(c) ==> c.file_count < usize::MAX,
    ensures
        final(nested)@ == old(nested)@.insert(
            dir@,
            (if old(nested)@.contains_key(dir@) {
                old(nested)@[dir@]
            } else {
                Map::empty()
            }).insert(
                name@,
                grown(held(old(nested)@, dir@, name@), dir@, name@, size, ends, idx as int),
            ),
        ),
{
    let ghost before = nested@;
    let mut entries = match nested.remove(dir.as_str()) {
        Some(m) => m,
        None => StrMap::new(),
    };
    let (old_size, old_count, old_idx): (u64, usize, Option<usize>) = match entries.get(
        name.as_str(),
    ) {
        Some(c) => (c.size, c.file_count, c.file_idx),
        None => (0, 0, None),
    };
    let child = UsageChild {
        name: name.clone(),
        rel_path: rel_path.clone(),
        is_dir: !ends,
        size: capped_sum_of(old_size, size),
        file_count: old_count + 1,
        file_idx: if ends {
            Some(idx)
        } else {
            old_idx
        },
    };
    assert(child.deep_view() =~= grown(
        held(before, dir@, name@),
        dir@,
        name@,
        size,
        ends,
        idx as int,
    ));
    entries.insert(name.clone(), child);
    nested.insert(dir.clone(), entries);
    assert(nested@ =~= before.insert(dir@, entries@));
}

/// Sees to it that there are entries for `dir`, be they none.
fn open_entries(nested: &mut StrMap<StrMap<UsageChild>>, dir: &String)
    ensures
        final(nested)@ == (if old(nested)@.contains_key(dir@) {
            old(nested)@
        } else {
            old(nested)@.insert(dir@, Map::empty())
        }),
{
    if !nested.contains_key(dir.as_str()) {
        nested.insert(dir.clone(), StrMap::new());
    }
}

/// Whether one of the first `k` names leads to `name` in `dir`.
spec fn led_to(names: Seq<Text>, k: int, dir: Text, name: Text) -> bool {
    exists|j: int| 0 <= j < k && #[trigger] dir_text(names, j) == dir && names[j] == name
}

/// Whether one of the first `k` names, but not the last of all, is the directory `dir`.
spec fn opened(names: Seq<Text>, k: int, dir: Text) -> bool {
    exists|j: int| 1 <= j <= k && j < names.len() && #[trigger] dir_text(names, j) == dir
}

/// How the maps stand after the first `k` names of a file were added to `nested0` and
/// `totals0`.
spec fn added(
    nested0: Map<Text, Map<Text, ChildView>>,
    totals0: Map<Text, (u64, nat)>,
    nested: Map<Text, Map<Text, ChildView>>,
    totals: Map<Text, (u64, nat)>,
    names: Seq<Text>,
    k: int,
    size: u64,
    idx: int,
) -> bool {
    &&& forall|dir: Text| #[trigger]
        nested.contains_key(dir) <==> nested0.contains_key(dir) || opened(names, k, dir)
    &&& forall|dir: Text, name: Text| #[trigger]
        held(nested, dir, name) == (if led_to(names, k, dir, name) {
            Some(
                grown(
                    held(nested0, dir, name),
                    dir,
                    name,
                    size,
                    led_to(names, k, dir, name) && end_at(names, dir, name),
                    idx,
                ),
            )
        } else {
            held(nested0, dir, name)
        })
    &&& forall|dir: Text| #[trigger]
        totals.contains_key(dir) <==> totals0.contains_key(dir) || opened(names, k, dir)
    &&& forall|dir: Text| #[trigger]
        counted(totals, dir) == (if opened(names, k, dir) {
            (capped_sum(counted(totals0, dir).0, size), counted(totals0, dir).1 + 1)
        } else {
            counted(totals0, dir)
        })
}

/// One name more.
proof fn lemma_added_step(
    nested0: Map<Text, Map<Text, ChildView>>,
    totals0: Map<Text, (u64, nat)>,
    nested: Map<Text, Map<Text, ChildView>>,
    totals: Map<Text, (u64, nat)>,
    nested2: Map<Text, Map<Text, ChildView>>,
    totals2: Map<Text, (u64, nat)>,
    names: Seq<Text>,
    k: int,
    size: u64,
    idx: int,
)
    requires
        added(nested0, totals0, nested, totals, names, k, size, idx),
        0 <= k < names.len(),
        forall|i: int| 0 <= i < names.len() ==> (#[trigger] names[i]).len() > 0,
        nested.contains_key(dir_text(names, k)),
        ({
            let dir = dir_text(names, k);
            let next = dir_text(names, k + 1);
            let ends = k + 1 == names.len();
            let mid = nested.insert(
                dir,
                nested[dir].insert(
                    names[k],
                    grown(held(nested, dir, names[k]), dir, names[k], size, ends, idx),
                ),
            );
            &&& nested2 == (if ends || mid.contains_key(next) {
                mid
            } else {
                mid.insert(next, Map::empty())
            })
            &&& totals2 == (if ends {
                totals
            } else {
                totals.insert(
                    next,
                    (capped_sum(counted(totals, next).0, size), counted(totals, next).1 + 1),
                )
            })
        }),
    ensures
        added(nested0, totals0, nested2, totals2, names, k + 1, size, idx),
        k + 1 < names.len() ==> nested2.contains_key(dir_text(names, k + 1)),
{
    let here = dir_text(names, k);
    let next = dir_text(names, k + 1);
    let ends = k + 1 == names.len();
    assert forall|j: int| 0 <= j <= names.len() && j != k implies #[trigger] dir_text(names, j)
        != here by {
        if j < k {
            lemma_dirs_distinct(names, j, k);
        } else {
            lemma_dirs_distinct(names, k, j);
        }
    }
    assert forall|j: int| 0 <= j <= names.len() && j != k + 1 implies #[trigger] dir_text(names, j)
        != next by {
        if j < k + 1 {
            lemma_dirs_distinct(names, j, k + 1);
        } else {
            lemma_dirs_distinct(names, k + 1, j);
        }
    }
    assert forall|dir: Text| #[trigger] opened(names, k + 1, dir) <==> opened(names, k, dir) || (
    !ends && dir == next) by {
        if opened(names, k, dir) {
            let j = choose|j: int|
                1 <= j <= k && j < names.len() && #[trigger] dir_text(names, j) == dir;
            assert(dir_text(names, j) == dir);
        }
        if !ends && dir == next {
            assert(dir_text(names, k + 1) == dir);
        }
    }
    assert forall|dir: Text, name: Text| #[trigger] led_to(names, k + 1, dir, name) <==> led_to(
        names,
        k,
        dir,
        name,
    ) || (dir == here && name == names[k]) by {
        if led_to(names, k, dir, name) {
            let j = choose|j: int|
                0 <= j < k && #[trigger] dir_text(names, j) == dir && names[j] == name;
            assert(dir_text(names, j) == dir);
        }
        if dir == here && name == names[k] {
            assert(dir_text(names, k) == dir);
        }
    }
    assert(!led_to(names, k, here, names[k]));
    assert(!opened(names, k, next));
    assert(end_at(names, here, names[k]) <==> ends) by {
        if !ends {
            assert(dir_text(names, names.len() - 1) != here);
        }
    }
    assert forall|dir: Text, name: Text| #[trigger] held(nested2, dir, name) == (if led_to(
        names,
        k + 1,
        dir,
        name,
    ) {
        Some(
            grown(
                held(nested0, dir, name),
                dir,
                name,
                size,
                led_to(names, k + 1, dir, name) && end_at(names, dir, name),
                idx,
            ),
        )
    } else {
        held(nested0, dir, name)
    }) by {
        if dir == here && name == names[k] {
            assert(held(nested, dir, name) == held(nested0, dir, name));
        } else {
            assert(held(nested2, dir, name) == held(nested, dir, name));
        }
    }
    assert forall|dir: Text| #[trigger] counted(totals2, dir) == (if opened(names, k + 1, dir) {
        (capped_sum(counted(totals0, dir).0, size), counted(totals0, dir).1 + 1)
    } else {
        counted(totals0, dir)
    }) by {
        if dir == next && !ends {
            assert(counted(totals, next) == counted(totals0, next));
        } else {
            assert(counted(totals2, dir) == counted(totals, dir));
        }
    }
}

/// No more files are counted than there are.
proof fn lemma_counts_bounded(files: Seq<FileView>, dir: Text, name: Text)
    ensures
        total_under(files, dir).1 <= files.len(),
        entry_of(files, dir, name) matches Some(c) ==> c.file_count <= files.len(),
    decreases files.len(),
{
    if files.len() > 0 {
        lemma_counts_bounded(files.drop_last(), dir, name);
    }
}

/// How the maps stand after the first files.
spec fn reflects(
    nested: Map<Text, Map<Text, ChildView>>,
    totals: Map<Text, (u64, nat)>,
    files: Seq<FileView>,
) -> bool {
    &&& forall|dir: Text| #[trigger] nested.contains_key(dir) <==> is_directory(files, dir)
    &&& forall|dir: Text, name: Text| #[trigger]
        held(nested, dir, name) == entry_of(files, dir, name)
    &&& forall|dir: Text| #[trigger] totals.contains_key(dir) <==> is_directory(files, dir)
    &&& forall|dir: Text| #[trigger] counted(totals, dir) == total_under(files, dir)
}

/// One file more.
proof fn lemma_reflects_step(
    nested0: Map<Text, Map<Text, ChildView>>,
    totals0: Map<Text, (u64, nat)>,
    nested: Map<Text, Map<Text, ChildView>>,
    totals: Map<Text, (u64, nat)>,
    files: Seq<FileView>,
)
    requires
        files.len() > 0,
        reflects(nested0, totals0, files.drop_last()),
        ({
            let names = steps(files.last().path);
            let size = file_size(files.last());
            let top = Seq::<char>::empty();
            if names.len() == 0 {
                nested == nested0 && totals == totals0
            } else {
                added(
                    nested0,
                    totals0.insert(
                        top,
                        (capped_sum(counted(totals0, top).0, size), counted(totals0, top).1 + 1),
                    ),
                    nested,
                    totals,
                    names,
                    names.len() as int,
                    size,
                    files.len() - 1,
                )
            }
        }),
    ensures
        reflects(nested, totals, files),
{
    let before = files.drop_last();
    let names = steps(files.last().path);
    let size = file_size(files.last());
    let top = Seq::<char>::empty();
    let n = names.len() as int;
    lemma_steps_nonempty(files.last().path);
    assert forall|dir: Text| #[trigger] is_directory(files, dir) <==> is_directory(before, dir)
        || lead_through(names, dir) by {
        if dir.len() > 0 {
            if is_directory(before, dir) {
                let i = choose|i: int|
                    0 <= i < before.len() && lead_through(steps((#[trigger] before[i]).path), dir);
                assert(files[i] == before[i]);
            }
            if lead_through(names, dir) {
                assert(files[files.len() - 1] == files.last());
            }
            if is_directory(files, dir) {
                let i = choose|i: int|
                    0 <= i < files.len() && lead_through(steps((#[trigger] files[i]).path), dir);
                if i < before.len() {
                    assert(files[i] == before[i]);
                }
            }
        }
    }
    if n == 0 {
        assert forall|dir: Text| !#[trigger] lead_through(names, dir) by {}
        assert forall|dir: Text, name: Text| !#[trigger] lead_to(names, dir, name) by {}
    } else {
        let totals1 = totals0.insert(
            top,
            (capped_sum(counted(totals0, top).0, size), counted(totals0, top).1 + 1),
        );
        lemma_dir_step(names, 0);
        assert forall|dir: Text| #[trigger] lead_through(names, dir) <==> dir == top || opened(
            names,
            n,
            dir,
        ) by {
            if dir == top {
                assert(dir_text(names, 0) =~= top);
            }
            if lead_through(names, dir) {
                let k = choose|k: int| 0 <= k < names.len() && #[trigger] dir_text(names, k) == dir;
                if k == 0 {
                    assert(dir_text(names, 0) =~= top);
                }
            }
        }
        assert(!opened(names, n, top)) by {
            if opened(names, n, top) {
                let j = choose|j: int|
                    1 <= j <= n && j < names.len() && #[trigger] dir_text(names, j) == top;
                lemma_dirs_distinct(names, 0, j);
            }
        }
        assert forall|dir: Text, name: Text| #[trigger] lead_to(names, dir, name) <==> led_to(
            names,
            n,
            dir,
            name,
        ) by {}
        assert forall|dir: Text, name: Text| #[trigger] held(nested, dir, name) == entry_of(
            files,
            dir,
            name,
        ) by {
            assert(held(nested0, dir, name) == entry_of(before, dir, name));
        }
        assert forall|dir: Text| #[trigger] counted(totals, dir) == total_under(files, dir) by {
            assert(counted(totals0, dir) == total_under(before, dir));
            assert(dir != top ==> counted(totals1, dir) == counted(totals0, dir));
        }
        assert forall|dir: Text| #[trigger] nested.contains_key(dir) <==> is_directory(files, dir) by {
            assert(nested0.contains_key(dir) <==> is_directory(before, dir));
            if dir.len() == 0 {
                assert(dir =~= top);
            }
        }
        assert forall|dir: Text| #[trigger] totals.contains_key(dir) <==> is_directory(files, dir) by {
            assert(totals0.contains_key(dir) <==> is_directory(before, dir));
            if dir.len() == 0 {
                assert(dir =~= top);
            }
        }
    }
}

/// The entries in the order in which they are shown.
fn sorted_children(entries: &StrMap<UsageChild>) -> (r: Vec<UsageChild>)
    ensures
        r.deep_view() == largest_first(entries@),
{
    let n: usize = entries.len();
    let ghost p = pairs_of(entries@);
    let ghost d = p.map_values(|q: (Text, ChildView)| q.1);
    let ghost key = |c: ChildView| child_key(c);
    let mut list: Vec<UsageChild> = Vec::new();
    let mut keys: Vec<SortKey> = Vec::new();
    let mut i: usize = 0;
    assert(list.deep_view() =~= d.take(0));
    assert(keys.deep_view() =~= d.take(0).map_values(key));
    while i < n
        invariant
            i <= n,
            n == p.len(),
            p == pairs_of(entries@),
            d == p.map_values(|q: (Text, ChildView)| q.1),
            key == (|c: ChildView| child_key(c)),
            list@.len() == i,
            keys@.len() == i,
            list.deep_view() == d.take(i as int),
            keys.deep_view() == d.take(i as int).map_values(key),
        decreases n - i,
    {
        let ghost before = list.deep_view();
        let ghost before_keys = keys.deep_view();
        let child = entries.value_at(i).dup();
        assert(child.deep_view() == d[i as int]);
        keys.push(SortKey::new(-(child.size as i128), child.name.as_str()));
        list.push(child);
        proof {
            assert(list.deep_view() =~= before.push(d[i as int]));
            assert(d.take(i + 1) =~= d.take(i as int).push(d[i as int]));
            assert(keys.deep_view() =~= before_keys.push(key(d[i as int])));
            assert(d.take(i + 1).map_values(key) =~= d.take(i as int).map_values(key).push(
                key(d[i as int]),
            ));
        }
        i += 1;
    }
    assert(d.take(i as int) =~= d);
    let out = arrange(list, &keys);
    proof {
        lemma_order(keys.deep_view());
        assert(out.deep_view() =~= arranged(d, keys.deep_view()));
    }
    out
}

/// The usage of all directories.
#[derive(Debug)]
pub struct UsageTree {
    /// The entries of each directory, the largest first; the top is the empty text.
    children: StrMap<Vec<UsageChild>>,
    totals: StrMap<Total>,
}

impl DeepView for UsageTree {
    type V = TreeView;

    closed spec fn deep_view(&self) -> TreeView {
        TreeView { children: self.children@, totals: self.totals@ }
    }
}

/// Adds the file number `idx` to the maps.
fn add_file(
    nested: &mut StrMap<StrMap<UsageChild>>,
    totals: &mut StrMap<Total>,
    file: &AnnexedFile,
    idx: usize,
    files: Ghost<Seq<FileView>>,
)
    requires
        idx < usize::MAX,
        files@.len() == idx + 1,
        files@.last() == file.deep_view(),
        reflects(old(nested)@, old(totals)@, files@.drop_last()),
    ensures
        reflects(final(nested)@, final(totals)@, files@),
{
    let ghost before = files@.drop_last();
    let ghost nested0 = nested@;
    let ghost totals0 = totals@;
    let size: u64 = match file.size {
        Some(n) => n,
        None => 0,
    };
    let names = steps_of(file.path.as_str());
    let ghost d = names.deep_view();
    if names.len() == 0 {
        proof {
            lemma_reflects_step(nested0, totals0, nested@, totals@, files@);
        }
        return;
    }
    let top = String::new();
    let ghost top_text = Seq::<char>::empty();
    proof {
        assert(top@ =~= top_text);
        lemma_counts_bounded(before, top_text, top_text);
        assert(counted(totals0, top_text) == total_under(before, top_text));
        assert(nested0.contains_key(top_text)) by {
            assert(is_directory(before, top_text));
        }
        lemma_steps_nonempty(file.path@);
    }
    add_to_total(totals, &top, size);
    let ghost totals1 = totals@;
    let mut prefix = String::new();
    let mut k: usize = 0;
    proof {
        lemma_dir_step(d, 0);
        assert(dir_text(d, 0) =~= prefix@);
        assert forall|dir: Text| dir != top_text implies #[trigger] counted(totals1, dir)
            == total_under(before, dir) by {
            assert(counted(totals0, dir) == total_under(before, dir));
        }
        assert forall|dir: Text| !#[trigger] opened(d, 0, dir) by {}
        assert forall|dir: Text, name: Text| !#[trigger] led_to(d, 0, dir, name) by {}
        assert(added(nested0, totals1, nested@, totals@, d, 0, size, idx as int));
    }
    while k < names.len()
        invariant
            k <= names@.len(),
            d == names.deep_view(),
            d == steps(file.path@),
            forall|i: int| 0 <= i < d.len() ==> (#[trigger] d[i]).len() > 0,
            forall|i: int| 0 <= i < names@.len() ==> (#[trigger] names@[i])@.len() > 0,
            prefix@ == dir_text(d, k as int),
            k < d.len() ==> nested@.contains_key(prefix@),
            before.len() == idx,
            idx < usize::MAX,
            forall|dir: Text, name: Text| #[trigger]
                held(nested0, dir, name) == entry_of(before, dir, name),
            forall|dir: Text|
                dir != top_text ==> #[trigger] counted(totals1, dir) == total_under(before, dir),
            top_text == Seq::<char>::empty(),
            added(nested0, totals1, nested@, totals@, d, k as int, size, idx as int),
        decreases names@.len() - k,
    {
        let ghost nested_k = nested@;
        let ghost totals_k = totals@;
        let part = &names[k];
        let ends: bool = k + 1 == names.len();
        let child = if prefix.as_str().is_empty() {
            part.clone()
        } else {
            prefix.clone().concat("/").concat(part.as_str())
        };
        proof {
            assert(part@ == d[k as int]);
            lemma_dir_step(d, k as int);
            assert(child@ =~= child_path(prefix@, part@));
            lemma_counts_bounded(before, prefix@, part@);
            lemma_counts_bounded(before, child@, part@);
            assert(held(nested0, prefix@, part@) == entry_of(before, prefix@, part@));
            assert(!led_to(d, k as int, prefix@, part@)) by {
                if led_to(d, k as int, prefix@, part@) {
                    let j = choose|j: int|
                        0 <= j < k && #[trigger] dir_text(d, j) == prefix@ && d[j] == part@;
                    lemma_dirs_distinct(d, j, k as int);
                }
            }
            assert(held(nested@, prefix@, part@) == held(nested0, prefix@, part@));
            assert(!opened(d, k as int, child@)) by {
                if opened(d, k as int, child@) {
                    let j = choose|j: int|
                        1 <= j <= k && j < d.len() && #[trigger] dir_text(d, j) == child@;
                    lemma_dirs_distinct(d, j, k + 1);
                }
            }
            assert(counted(totals@, child@) == counted(totals1, child@));
            assert(child@ != top_text);
        }
        add_to_entry(nested, &prefix, part, &child, size, ends, idx);
        if !ends {
            add_to_total(totals, &child, size);
            open_entries(nested, &child);
        }
        proof {
            lemma_added_step(
                nested0,
                totals1,
                nested_k,
                totals_k,
                nested@,
                totals@,
                d,
                k as int,
                size,
                idx as int,
            );
        }
        prefix = child;
        k += 1;
    }
    proof {
        lemma_reflects_step(nested0, totals0, nested@, totals@, files@);
    }
}

/// Counts the usage of all directories.
pub fn build_usage_tree(files: &[AnnexedFile]) -> (r: UsageTree)
    ensures
        r.deep_view() == usage_of(files.deep_view()),
{
    let ghost d = files.deep_view();
    let mut nested: StrMap<StrMap<UsageChild>> = StrMap::new();
    let mut totals: StrMap<Total> = StrMap::new();
    let top = String::new();
    assert(top@ =~= Seq::<char>::empty());
    nested.insert(top.clone(), StrMap::new());
    totals.insert(top, Total { size: 0, files: 0 });
    let mut i: usize = 0;
    proof {
        assert(d.take(0) =~= Seq::<FileView>::empty());
        assert forall|dir: Text| #[trigger] is_directory(d.take(0), dir) <==> dir
            == Seq::<char>::empty() by {
            if dir.len() == 0 {
                assert(dir =~= Seq::<char>::empty());
            }
        }
        assert(reflects(nested@, totals@, d.take(0)));
    }
    while i < files.len()
        invariant
            i <= files@.len(),
            d == files.deep_view(),
            reflects(nested@, totals@, d.take(i as int)),
        decreases files@.len() - i,
    {
        proof {
            assert(d.take(i + 1).drop_last() =~= d.take(i as int));
            assert(d.take(i + 1).last() == d[i as int]);
        }
        add_file(&mut nested, &mut totals, &files[i], i, Ghost(d.take(i + 1)));
        i += 1;
    }
    assert(d.take(i as int) =~= d);
    let n: usize = nested.len();
    let ghost p = pairs_of(nested@);
    let ghost list = |m: Map<Text, ChildView>| largest_first(m);
    let mut children: StrMap<Vec<UsageChild>> = StrMap::new();
    let mut j: usize = 0;
    assert(children@ =~= map_of(p.take(0)).map_values(list));
    proof {
        lemma_ordered_distinct(p);
    }
    while j < n
        invariant
            j <= n,
            n == p.len(),
            p == pairs_of(nested@),
            distinct_keys(p),
            list == (|m: Map<Text, ChildView>| largest_first(m)),
            children@ == map_of(p.take(j as int)).map_values(list),
        decreases n - j,
    {
        proof {
            let s = p.take(j + 1);
            assert(s.drop_last() =~= p.take(j as int));
            assert(s.last() == p[j as int]);
            assert(distinct_keys(s));
            lemma_map_of_drop_last(s);
        }
        let dir = nested.key_at(j).clone();
        let sorted = sorted_children(nested.value_at(j));
        children.insert(dir, sorted);
        assert(children@ =~= map_of(p.take(j + 1)).map_values(list));
        j += 1;
    }
    assert(p.take(j as int) =~= p);
    let tree = UsageTree { children, totals };
    proof {
        let u = usage_of(d);
        assert forall|dir: Text| nested@.contains_key(dir) implies entries_of(d, dir)
            == #[trigger] nested@[dir] by {
            assert forall|name: Text| nested@[dir].contains_key(name) <==> entries_of(
                d,
                dir,
            ).contains_key(name) by {
                assert(held(nested@, dir, name) == entry_of(d, dir, name));
            }
            assert forall|name: Text| nested@[dir].contains_key(name) implies nested@[dir][name]
                == entries_of(d, dir)[name] by {
                assert(held(nested@, dir, name) == entry_of(d, dir, name));
            }
            assert(entries_of(d, dir) =~= nested@[dir]);
        }
        assert(children@ =~= u.children) by {
            assert forall|dir: Text| children@.contains_key(dir) implies children@[dir]
                == u.children[dir] by {
                assert(nested@.contains_key(dir));
                assert(entries_of(d, dir) == nested@[dir]);
            }
            assert forall|dir: Text| children@.contains_key(dir) <==> u.children.contains_key(
                dir,
            ) by {
                assert(nested@.contains_key(dir) <==> is_directory(d, dir));
            }
        }
        assert(totals@ =~= u.totals) by {
            assert forall|dir: Text| totals@.contains_key(dir) implies totals@[dir]
                == u.totals[dir] by {
                assert(counted(totals@, dir) == total_under(d, dir));
            }
        }
        assert(tree.deep_view() =~= u);
    }
    tree
}

// ---------------------------------------------------------------------------------------
// Listings

/// A row of a listing.
#[derive(Debug)]
pub struct UsageRow {
    pub name: String,
    pub size: u64,
    pub is_dir: bool,
    pub file_count: usize,
}

/// What a [`UsageRow`] stands for.
#[verifier::ext_equal]
pub ghost struct RowView {
    pub name: Text,
    pub size: u64,
    pub is_dir: bool,
    pub file_count: nat,
}

impl DeepView for UsageRow {
    type V = RowView;

    open spec fn deep_view(&self) -> RowView {
        RowView {
            name: self.name@,
            size: self.size,
            is_dir: self.is_dir,
            file_count: self.file_count as nat,
        }
    }
}

/// What a directory holds, with its total.
#[derive(Debug)]
pub struct UsageListing {
    pub path: String,
    pub total_size: u64,
    pub file_count: usize,
    pub entries: Vec<UsageRow>,
}

/// What a [`UsageListing`] stands for.
#[verifier::ext_equal]
pub ghost struct ListingView {
    pub path: Text,
    pub total_size: u64,
    pub file_count: nat,
    pub entries: Seq<RowView>,
}

impl DeepView for UsageListing {
    type V = ListingView;

    open spec fn deep_view(&self) -> ListingView {
        ListingView {
            path: self.path@,
            total_size: self.total_size,
            file_count: self.file_count as nat,
            entries: self.entries.deep_view(),
        }
    }
}

/// The row for an entry: the name of a directory ends with a slash.
pub open spec fn row_of(c: ChildView) -> RowView {
    RowView {
        name: if c.is_dir {
            c.name + "/"@
        } else {
            c.name
        },
        size: c.size,
        is_dir: c.is_dir,
        file_count: c.file_count,
    }
}

/// A directory as it is shown, from the top of the repository.
pub open spec fn shown_path(dir: Text) -> Text {
    if dir.len() == 0 {
        "/"@
    } else {
        "/"@ + dir
    }
}

impl TreeView {
    /// The size and the number of the files under `dir`.
    pub open spec fn stats(self, dir: Text) -> (u64, nat) {
        if self.totals.contains_key(dir) {
            self.totals[dir]
        } else {
            (0, 0)
        }
    }

    /// The entries of `dir`, the largest first.
    pub open spec fn list(self, dir: Text) -> Seq<ChildView> {
        if self.children.contains_key(dir) {
            self.children[dir]
        } else {
            Seq::empty()
        }
    }

    /// What `dir` holds, with its total.
    pub open spec fn listing(self, dir: Text) -> ListingView {
        ListingView {
            path: shown_path(dir),
            total_size: self.stats(dir).0,
            file_count: self.stats(dir).1,
            entries: self.list(dir).map_values(|c: ChildView| row_of(c)),
        }
    }
}

/// A directory as it is shown, from the top of the repository.
pub fn shown_path_of(dir: &str) -> (r: String)
    ensures
        r@ == shown_path(dir@),
{
    if dir.is_empty() {
        "/".to_string()
    } else {
        "/".to_string().concat(dir)
    }
}

impl UsageTree {
    /// The size and the number of the files under `dir`.
    pub fn stats(&self, dir: &str) -> (r: (u64, usize))
        ensures
            (r.0, r.1 as nat) == self.deep_view().stats(dir@),
    {
        match self.totals.get(dir) {
            Some(t) => (t.size, t.files),
            None => (0, 0),
        }
    }

    /// The entries of `dir`, the largest first.
    pub fn children_sorted(&self, dir: &str) -> (r: &[UsageChild])
        ensures
            r.deep_view() == self.deep_view().list(dir@),
    {
        match self.children.get(dir) {
            Some(v) => {
                let s = v.as_slice();
                assert(s.deep_view() =~= v.deep_view());
                s
            },
            None => {
                let s: &[UsageChild] = &[];
                assert(s.deep_view() =~= Seq::<ChildView>::empty());
                s
            },
        }
    }

    /// What `dir` holds, with its total.
    pub fn listing(&self, dir: &str) -> (r: UsageListing)
        ensures
            r.deep_view() == self.deep_view().listing(dir@),
    {
        let (total_size, file_count) = self.stats(dir);
        let list = self.children_sorted(dir);
        let ghost d = list.deep_view();
        let ghost row = |c: ChildView| row_of(c);
        let mut entries: Vec<UsageRow> = Vec::new();
        let mut i: usize = 0;
        assert(entries.deep_view() =~= d.take(0).map_values(row));
        while i < list.len()
            invariant
                i <= list@.len(),
                d == list.deep_view(),
                row == (|c: ChildView| row_of(c)),
                entries.deep_view() == d.take(i as int).map_values(row),
            decreases list@.len() - i,
        {
            let ghost before = entries.deep_view();
            let c = &list[i];
            assert(c.deep_view() == d[i as int]);
            let name = if c.is_dir {
                c.name.clone().concat("/")
            } else {
                c.name.clone()
            };
            entries.push(
                UsageRow { name, size: c.size, is_dir: c.is_dir, file_count: c.file_count },
            );
            assert(entries.deep_view() =~= before.push(row(d[i as int])));
            assert(d.take(i + 1).map_values(row) =~= d.take(i as int).map_values(row).push(
                row(d[i as int]),
            ));
            i += 1;
        }
        assert(d.take(i as int) =~= d);
        UsageListing { path: shown_path_of(dir), total_size, file_count, entries }
    }
}

// ---------------------------------------------------------------------------------------
// Laws

proof fn lemma_entries_finite(files: Seq<FileView>, dir: Text)
    ensures
        entries_of(files, dir).dom().finite(),
    decreases files.len(),
{
    if files.len() == 0 {
        assert(entries_of(files, dir) =~= Map::<Text, ChildView>::empty());
    } else {
        let before = files.drop_last();
        lemma_entries_finite(before, dir);
        lemma_entries_step(files, dir);
    }
}

/// A file changes at most one entry of a directory.
proof fn lemma_entries_step(files: Seq<FileView>, dir: Text)
    requires
        files.len() > 0,
    ensures
        ({
            let before = files.drop_last();
            let names = steps(files.last().path);
            if lead_through(names, dir) {
                exists|name: Text|
                    #![trigger lead_to(names, dir, name)]
                    lead_to(names, dir, name) && entries_of(files, dir) == entries_of(
                        before,
                        dir,
                    ).insert(
                        name,
                        grown(
                            entry_of(before, dir, name),
                            dir,
                            name,
                            file_size(files.last()),
                            end_at(names, dir, name),
                            files.len() - 1,
                        ),
                    )
            } else {
                entries_of(files, dir) == entries_of(before, dir)
            }
        }),
{
    let before = files.drop_last();
    let names = steps(files.last().path);
    lemma_steps_nonempty(files.last().path);
    if lead_through(names, dir) {
        let k = choose|k: int| 0 <= k < names.len() && #[trigger] dir_text(names, k) == dir;
        let name = names[k];
        assert(lead_to(names, dir, name));
        assert forall|other: Text| other != name implies !#[trigger] lead_to(names, dir, other) by {
            if lead_to(names, dir, other) {
                let j = choose|j: int|
                    0 <= j < names.len() && #[trigger] dir_text(names, j) == dir && names[j]
                        == other;
                if j < k {
                    lemma_dirs_distinct(names, j, k);
                } else if k < j {
                    lemma_dirs_distinct(names, k, j);
                }
            }
        }
        assert(entries_of(files, dir) =~= entries_of(before, dir).insert(
            name,
            grown(
                entry_of(before, dir, name),
                dir,
                name,
                file_size(files.last()),
                end_at(names, dir, name),
                files.len() - 1,
            ),
        ));
    } else {
        assert forall|name: Text| !#[trigger] lead_to(names, dir, name) by {
            if lead_to(names, dir, name) {
                let j = choose|j: int|
                    0 <= j < names.len() && #[trigger] dir_text(names, j) == dir && names[j]
                        == name;
                assert(dir_text(names, j) == dir);
            }
        }
        assert(entries_of(files, dir) =~= entries_of(before, dir));
    }
}

/// The total of a directory is the sum over its entries: of their numbers of files, and of
/// their sizes as far as that can be counted.
pub proof fn law_total_is_sum_of_entries(files: Seq<FileView>, dir: Text)
    ensures
        total_under(files, dir).1 == sum_of(
            pairs_of(entries_of(files, dir)),
            |c: ChildView| c.file_count,
        ),
        ({
            let sizes = sum_of(pairs_of(entries_of(files, dir)), |c: ChildView| c.size as nat);
            total_under(files, dir).0 == (if sizes <= u64::MAX {
                sizes
            } else {
                u64::MAX as nat
            })
        }),
    decreases files.len(),
{
    let count = |c: ChildView| c.file_count;
    let size = |c: ChildView| c.size as nat;
    let m = entries_of(files, dir);
    if files.len() == 0 {
        lemma_entries_finite(files, dir);
        lemma_pairs_of_finite(m);
        assert(m =~= Map::<Text, ChildView>::empty());
        assert(pairs_of(m).len() == 0);
    } else {
        let before = files.drop_last();
        let old = entries_of(before, dir);
        let names = steps(files.last().path);
        law_total_is_sum_of_entries(before, dir);
        lemma_entries_finite(before, dir);
        lemma_entries_step(files, dir);
        if lead_through(names, dir) {
            let add = file_size(files.last());
            let name = choose|name: Text|
                #![trigger lead_to(names, dir, name)]
                lead_to(names, dir, name) && m == old.insert(
                    name,
                    grown(
                        entry_of(before, dir, name),
                        dir,
                        name,
                        add,
                        end_at(names, dir, name),
                        files.len() - 1,
                    ),
                );
            let new = m[name];
            lemma_sum_set(old, name, new, count);
            lemma_sum_set(old, name, new, size);
            if old.contains_key(name) {
                lemma_sum_set(old.remove(name), name, old[name], size);
                assert(old.remove(name).insert(name, old[name]) =~= old);
            }
        }
    }
}

/// Whether a name has no slash in it.
pub open spec fn is_plain(name: Text) -> bool {
    name.len() > 0 && forall|j: int| 0 <= j < name.len() ==> name[j] != '/'
}

proof fn lemma_steps_plain(path: Text)
    ensures
        forall|i: int| 0 <= i < steps(path).len() ==> is_plain(#[trigger] steps(path)[i]),
{
    broadcast use vstd::seq_lib::group_filter_ensures;

    lemma_split_on_free(path, '/');
    let all = split_on(path, '/');
    assert forall|i: int| 0 <= i < steps(path).len() implies is_plain(#[trigger] steps(path)[i]) by {
        assert(steps(path).contains(steps(path)[i]));
        all.lemma_filter_contains_rev(|p: Text| p.len() > 0, steps(path)[i]);
        let k = choose|k: int| 0 <= k < all.len() && all[k] == steps(path)[i];
        assert forall|j: int| 0 <= j < steps(path)[i].len() implies steps(path)[i][j] != '/' by {
            assert(all[k][j] != '/');
        }
    }
}

/// A path tells its directory and its name.
proof fn lemma_child_path_tells(d: Text, n: Text, e: Text, m: Text)
    requires
        is_plain(n),
        is_plain(m),
        child_path(d, n) == child_path(e, m),
    ensures
        d == e,
        n == m,
{
    reveal_strlit("/");
    let p = child_path(d, n);
    let q = child_path(e, m);
    let x = p.len();
    if d.len() > 0 {
        assert(p[x - n.len() - 1] == '/');
        assert(p.skip(x - n.len()) =~= n);
        assert(p.take(x - n.len() - 1) =~= d);
    }
    if e.len() > 0 {
        assert(q[x - m.len() - 1] == '/');
        assert(q.skip(x - m.len()) =~= m);
        assert(q.take(x - m.len() - 1) =~= e);
    }
    if d.len() == 0 && e.len() > 0 {
        assert(n[x - m.len() - 1] == '/');
    } else if d.len() > 0 && e.len() == 0 {
        assert(m[x - n.len() - 1] == '/');
    } else if d.len() > 0 && e.len() > 0 {
        if n.len() < m.len() {
            assert(q.skip(x - m.len())[m.len() - n.len() - 1] == '/');
        } else if m.len() < n.len() {
            assert(p.skip(x - n.len())[n.len() - m.len() - 1] == '/');
        }
    } else {
        assert(d =~= e);
    }
}

proof fn lemma_row_total(files: Seq<FileView>, dir: Text, name: Text)
    requires
        is_plain(name),
        forall|i: int|
            0 <= i < files.len() ==> !end_at(steps((#[trigger] files[i]).path), dir, name),
    ensures
        match entry_of(files, dir, name) {
            Some(c) => (c.size, c.file_count) == total_under(files, child_path(dir, name)),
            None => total_under(files, child_path(dir, name)) == (0u64, 0nat),
        },
    decreases files.len(),
{
    if files.len() > 0 {
        let before = files.drop_last();
        let names = steps(files.last().path);
        let path = child_path(dir, name);
        assert forall|i: int| 0 <= i < before.len() implies !end_at(
            steps((#[trigger] before[i]).path),
            dir,
            name,
        ) by {
            assert(before[i] == files[i]);
        }
        lemma_row_total(before, dir, name);
        lemma_steps_nonempty(files.last().path);
        lemma_steps_plain(files.last().path);
        assert(!end_at(names, dir, name)) by {
            assert(files[files.len() - 1] == files.last());
        }
        if lead_to(names, dir, name) {
            let k = choose|k: int|
                0 <= k < names.len() && #[trigger] dir_text(names, k) == dir && names[k] == name;
            lemma_dir_step(names, k);
            assert(k + 1 < names.len());
            assert(dir_text(names, k + 1) == path);
            assert(lead_through(names, path));
        }
        if lead_through(names, path) {
            let k = choose|k: int| 0 <= k < names.len() && #[trigger] dir_text(names, k) == path;
            lemma_dir_step(names, k);
            lemma_dir_step(names, k - 1);
            lemma_child_path_tells(dir_text(names, k - 1), names[k - 1], dir, name);
            assert(lead_to(names, dir, name));
        }
    }
}

/// A row that is a directory shows the total of that directory, unless a file has its very
/// path.
pub proof fn law_row_is_total(files: Seq<FileView>, dir: Text, name: Text)
    requires
        entry_of(files, dir, name) is Some,
        forall|i: int|
            0 <= i < files.len() ==> !end_at(steps((#[trigger] files[i]).path), dir, name),
    ensures
        entry_of(files, dir, name)->0.size == total_under(
            files,
            entry_of(files, dir, name)->0.rel_path,
        ).0,
        entry_of(files, dir, name)->0.file_count == total_under(
            files,
            entry_of(files, dir, name)->0.rel_path,
        ).1,
        entry_of(files, dir, name)->0.is_dir,
{
    lemma_entry_name(files, dir, name);
    lemma_entry_plain(files, dir, name);
    lemma_row_total(files, dir, name);
}

proof fn lemma_entry_plain(files: Seq<FileView>, dir: Text, name: Text)
    requires
        entry_of(files, dir, name) is Some,
    ensures
        is_plain(name),
        (forall|i: int|
            0 <= i < files.len() ==> !end_at(steps((#[trigger] files[i]).path), dir, name))
            ==> entry_of(files, dir, name)->0.is_dir,
    decreases files.len(),
{
    let before = files.drop_last();
    let names = steps(files.last().path);
    assert(files[files.len() - 1] == files.last());
    if lead_to(names, dir, name) {
        lemma_steps_plain(files.last().path);
    } else {
        lemma_entry_plain(before, dir, name);
        if forall|i: int|
            0 <= i < files.len() ==> !end_at(steps((#[trigger] files[i]).path), dir, name) {
            assert forall|i: int| 0 <= i < before.len() implies !end_at(
                steps((#[trigger] before[i]).path),
                dir,
                name,
            ) by {
                assert(before[i] == files[i]);
            }
        }
    }
}

/// The entries of a directory come largest first, and those of a size by name.
pub proof fn law_largest_first(files: Seq<FileView>, dir: Text, i: int, j: int)
    requires
        0 <= i < j < largest_first(entries_of(files, dir)).len(),
    ensures
        ({
            let a = largest_first(entries_of(files, dir))[i];
            let b = largest_first(entries_of(files, dir))[j];
            &&& a.size > b.size || (a.size == b.size && text_less(a.name, b.name))
            &&& a.name != b.name
        }),
{
    let m = entries_of(files, dir);
    lemma_entries_finite(files, dir);
    lemma_pairs_of_finite(m);
    let p = pairs_of(m);
    lemma_ordered_distinct(p);
    lemma_map_of(p);
    let s = p.map_values(|q: (Text, ChildView)| q.1);
    let keys = s.map_values(|c: ChildView| child_key(c));
    lemma_order(keys);
    let x = order(keys)[i];
    let y = order(keys)[j];
    assert(before(keys, x, y));
    lemma_entry_name(files, dir, p[x].0);
    lemma_entry_name(files, dir, p[y].0);
    assert(x != y);
    assert(p[x].0 != p[y].0);
    assert(map_of(p).contains_key(p[x].0) && map_of(p).contains_key(p[y].0));
}

proof fn lemma_entry_name(files: Seq<FileView>, dir: Text, name: Text)
    ensures
        entry_of(files, dir, name) matches Some(c) ==> c.name == name && c.rel_path == child_path(
            dir,
            name,
        ),
    decreases files.len(),
{
    if files.len() > 0 {
        lemma_entry_name(files.drop_last(), dir, name);
    }
}

/// The rows of a directory are its entries, each once.
pub proof fn law_rows_are_entries(files: Seq<FileView>, dir: Text)
    ensures
        largest_first(entries_of(files, dir)).len() == entries_of(files, dir).len(),
        forall|i: int|
            0 <= i < largest_first(entries_of(files, dir)).len() ==> entry_of(
                files,
                dir,
                (#[trigger] largest_first(entries_of(files, dir))[i]).name,
            ) == Some(largest_first(entries_of(files, dir))[i]),
        forall|name: Text| #[trigger]
            entry_of(files, dir, name) is Some ==> largest_first(entries_of(files, dir)).contains(
                entry_of(files, dir, name)->0,
            ),
{
    let m = entries_of(files, dir);
    lemma_entries_finite(files, dir);
    lemma_pairs_of_finite(m);
    let p = pairs_of(m);
    lemma_ordered_distinct(p);
    lemma_map_of(p);
    let s = p.map_values(|q: (Text, ChildView)| q.1);
    let keys = s.map_values(|c: ChildView| child_key(c));
    lemma_order(keys);
    let rows = largest_first(m);
    assert forall|i: int| 0 <= i < rows.len() implies entry_of(files, dir, (#[trigger] rows[i]).name)
        == Some(rows[i]) by {
        let x = order(keys)[i];
        assert(map_of(p).contains_key(p[x].0));
        lemma_entry_name(files, dir, p[x].0);
    }
    assert forall|name: Text| #[trigger] entry_of(files, dir, name) is Some implies rows.contains(
        entry_of(files, dir, name)->0,
    ) by {
        assert(m.contains_key(name));
        assert(has_key(p, name));
        let x = choose|x: int| 0 <= x < p.len() && (#[trigger] p[x]).0 == name;
        assert(order(keys).contains(x));
        let i = choose|i: int| 0 <= i < order(keys).len() && order(keys)[i] == x;
        assert(rows[i] == s[x]);
    }
}

/// The size of all files.
pub open spec fn size_of_all(files: Seq<FileView>) -> nat
    decreases files.len(),
{
    if files.len() == 0 {
        0
    } else {
        size_of_all(files.drop_last()) + file_size(files.last()) as nat
    }
}

/// Whether there is a name in the path: a character that is no slash.
pub open spec fn holds_name(path: Text) -> bool {
    exists|j: int| 0 <= j < path.len() && #[trigger] path[j] != '/'
}

/// The files whose path holds a name.
pub open spec fn named_files(files: Seq<FileView>) -> Seq<FileView> {
    files.filter(|f: FileView| holds_name(f.path))
}

proof fn lemma_pairs_total(p: Seq<(Text, ChildView)>, f: spec_fn(ChildView) -> nat)
    ensures
        total_over(p.map_values(|q: (Text, ChildView)| q.1), f) == sum_of(p, f),
    decreases p.len(),
{
    let s = p.map_values(|q: (Text, ChildView)| q.1);
    if p.len() > 0 {
        lemma_pairs_total(p.drop_last(), f);
        assert(s.drop_last() =~= p.drop_last().map_values(|q: (Text, ChildView)| q.1));
    }
}

/// The entries of a directory are not larger than all files.
proof fn lemma_entries_at_most_all(files: Seq<FileView>, dir: Text)
    ensures
        sum_of(pairs_of(entries_of(files, dir)), |c: ChildView| c.size as nat) <= size_of_all(
            files,
        ),
    decreases files.len(),
{
    let size = |c: ChildView| c.size as nat;
    let m = entries_of(files, dir);
    if files.len() == 0 {
        lemma_entries_finite(files, dir);
        lemma_pairs_of_finite(m);
        assert(m =~= Map::<Text, ChildView>::empty());
        assert(pairs_of(m).len() == 0);
    } else {
        let before = files.drop_last();
        let old = entries_of(before, dir);
        let names = steps(files.last().path);
        lemma_entries_at_most_all(before, dir);
        lemma_entries_finite(before, dir);
        lemma_entries_step(files, dir);
        if lead_through(names, dir) {
            let add = file_size(files.last());
            let name = choose|name: Text|
                #![trigger lead_to(names, dir, name)]
                lead_to(names, dir, name) && m == old.insert(
                    name,
                    grown(
                        entry_of(before, dir, name),
                        dir,
                        name,
                        add,
                        end_at(names, dir, name),
                        files.len() - 1,
                    ),
                );
            lemma_sum_set(old, name, m[name], size);
        }
    }
}

/// The total of a directory is the sum over its rows, of their sizes and of their numbers of
/// files, where the sizes of all files can be counted.
pub proof fn law_total_is_sum_of_rows(files: Seq<FileView>, dir: Text)
    requires
        size_of_all(files) <= u64::MAX,
    ensures
        usage_of(files).stats(dir).0 == total_over(
            usage_of(files).list(dir),
            |c: ChildView| c.size as nat,
        ),
        usage_of(files).stats(dir).1 == total_over(
            usage_of(files).list(dir),
            |c: ChildView| c.file_count,
        ),
{
    let size = |c: ChildView| c.size as nat;
    let count = |c: ChildView| c.file_count;
    if is_directory(files, dir) {
        let m = entries_of(files, dir);
        let p = pairs_of(m);
        let s = p.map_values(|q: (Text, ChildView)| q.1);
        let key = |c: ChildView| child_key(c);
        law_total_is_sum_of_entries(files, dir);
        lemma_entries_at_most_all(files, dir);
        lemma_pairs_total(p, size);
        lemma_pairs_total(p, count);
        law_sorting_keeps_totals(s, key, size);
        law_sorting_keeps_totals(s, key, count);
    }
}

/// The rows of a directory come strictly in order, the largest first and those of a size by
/// name, and no name comes twice.
pub proof fn law_rows_in_order(files: Seq<FileView>, dir: Text, i: int, j: int)
    requires
        0 <= i < j < usage_of(files).list(dir).len(),
    ensures
        ({
            let a = usage_of(files).list(dir)[i];
            let b = usage_of(files).list(dir)[j];
            &&& a.size > b.size || (a.size == b.size && text_less(a.name, b.name))
            &&& a.name != b.name
        }),
{
    law_largest_first(files, dir, i, j);
}

proof fn lemma_split_holds_name(path: Text)
    ensures
        holds_name(path) <==> exists|i: int|
            0 <= i < split_on(path, '/').len() && (#[trigger] split_on(path, '/')[i]).len() > 0,
    decreases path.len(),
{
    let parts = split_on(path, '/');
    lemma_next_of(path, '/', 0);
    let k = next_of(path, '/', 0);
    if k < path.len() {
        let rest = path.skip(k + 1);
        let others = split_on(rest, '/');
        lemma_split_holds_name(rest);
        assert(parts[0] == path.take(k));
        assert forall|i: int| 0 < i < parts.len() implies #[trigger] parts[i] == others[i - 1] by {}
        if holds_name(path) {
            let j = choose|j: int| 0 <= j < path.len() && #[trigger] path[j] != '/';
            if j < k {
                assert(parts[0].len() > 0);
            } else {
                assert(rest[j - k - 1] == path[j]);
                assert(holds_name(rest));
                let i = choose|i: int| 0 <= i < others.len() && (#[trigger] others[i]).len() > 0;
                assert(parts[i + 1] == others[i]);
            }
        }
        if exists|i: int| 0 <= i < parts.len() && (#[trigger] parts[i]).len() > 0 {
            let i = choose|i: int| 0 <= i < parts.len() && (#[trigger] parts[i]).len() > 0;
            if i == 0 {
                assert(path[0] != '/');
            } else {
                assert(others[i - 1].len() > 0);
                assert(holds_name(rest));
                let j = choose|j: int| 0 <= j < rest.len() && #[trigger] rest[j] != '/';
                assert(path[j + k + 1] != '/');
            }
        }
    } else {
        assert(parts[0] == path);
        if path.len() > 0 {
            assert(path[0] != '/');
        }
    }
}

/// A path has names exactly when it holds a character that is no slash.
proof fn lemma_steps_of_name(path: Text)
    ensures
        steps(path).len() > 0 <==> holds_name(path),
{
    let keep = |p: Text| p.len() > 0;
    let parts = split_on(path, '/');
    lemma_split_holds_name(path);
    if steps(path).len() > 0 {
        parts.lemma_filter_pred(keep, 0);
        assert(steps(path).contains(steps(path)[0]));
        parts.lemma_filter_contains_rev(keep, steps(path)[0]);
    }
    if holds_name(path) {
        let i = choose|i: int| 0 <= i < parts.len() && (#[trigger] parts[i]).len() > 0;
        parts.lemma_filter_contains(keep, i);
    }
}

/// The total of the top is the sum over the files whose path holds a name, where the sizes of
/// all files can be counted.
pub proof fn law_top_counts_all_files(files: Seq<FileView>)
    requires
        size_of_all(files) <= u64::MAX,
    ensures
        usage_of(files).stats(Seq::empty()).0 == total_over(
            named_files(files),
            |f: FileView| file_size(f) as nat,
        ),
        usage_of(files).stats(Seq::empty()).1 == named_files(files).len(),
{
    lemma_top_counts_all_files(files);
}

proof fn lemma_top_counts_all_files(files: Seq<FileView>)
    requires
        size_of_all(files) <= u64::MAX,
    ensures
        total_under(files, Seq::empty()).0 == total_over(
            named_files(files),
            |f: FileView| file_size(f) as nat,
        ),
        total_under(files, Seq::empty()).1 == named_files(files).len(),
        total_under(files, Seq::empty()).0 <= size_of_all(files),
    decreases files.len(),
{
    reveal(Seq::filter);
    let top = Seq::<char>::empty();
    if files.len() > 0 {
        let rest = files.drop_last();
        let last = files.last();
        let names = steps(last.path);
        lemma_top_counts_all_files(rest);
        lemma_steps_of_name(last.path);
        assert(lead_through(names, top) <==> names.len() > 0) by {
            if names.len() > 0 {
                assert(names.take(0) =~= Seq::<Text>::empty());
                assert(dir_text(names, 0) =~= top);
            }
        }
        if holds_name(last.path) {
            assert(named_files(files) =~= named_files(rest).push(last));
            assert(named_files(files).drop_last() =~= named_files(rest));
        } else {
            assert(named_files(files) =~= named_files(rest));
        }
    }
}

// ---------------------------------------------------------------------------------------
// One more file

/// A path is the names along it.
proof fn lemma_steps_joined(names: Seq<Text>)
    requires
        names.len() > 0,
        forall|k: int| 0 <= k < names.len() ==> is_plain(#[trigger] names[k]),
    ensures
        steps(join(names, "/"@)) == names,
{
    reveal_strlit("/");
    assert("/"@ =~= seq!['/']);
    assert forall|k: int, i: int| 0 <= k < names.len() && 0 <= i < names[k].len() implies #[trigger] names[k][i]
        != '/' by {
        assert(is_plain(names[k]));
    }
    law_joined_pieces_are_read_back(names, '/');
    lemma_filter_all(names, |p: Text| p.len() > 0);
}

proof fn lemma_filter_all(s: Seq<Text>, keep: spec_fn(Text) -> bool)
    requires
        forall|i: int| 0 <= i < s.len() ==> keep(#[trigger] s[i]),
    ensures
        s.filter(keep) == s,
    decreases s.len(),
{
    reveal(Seq::filter);
    if s.len() > 0 {
        let rest = s.drop_last();
        assert forall|i: int| 0 <= i < rest.len() implies keep(#[trigger] rest[i]) by {
            assert(rest[i] == s[i]);
        }
        lemma_filter_all(rest, keep);
        assert(keep(s[s.len() - 1]));
    }
    assert(s.filter(keep) =~= s);
}

proof fn lemma_no_directory(files: Seq<FileView>, dir: Text)
    requires
        forall|i: int| 0 <= i < files.len() ==> !lead_through(steps((#[trigger] files[i]).path), dir),
    ensures
        total_under(files, dir) == (0u64, 0nat),
    decreases files.len(),
{
    if files.len() > 0 {
        let rest = files.drop_last();
        assert forall|i: int| 0 <= i < rest.len() implies !lead_through(
            steps((#[trigger] rest[i]).path),
            dir,
        ) by {
            assert(rest[i] == files[i]);
        }
        lemma_no_directory(rest, dir);
        assert(!lead_through(steps(files[files.len() - 1].path), dir));
    }
}

proof fn lemma_stats(files: Seq<FileView>, dir: Text)
    ensures
        usage_of(files).stats(dir) == total_under(files, dir),
{
    if !is_directory(files, dir) {
        lemma_no_directory(files, dir);
    }
}

/// Whether the directory is one on the way to the file: the top, or what some of the names lead
/// to, short of the last.
pub open spec fn is_above(names: Seq<Text>, dir: Text) -> bool {
    exists|k: int| 0 <= k < names.len() && #[trigger] join(names.take(k), "/"@) == dir
}

/// One more file adds its size, and one to the count, in every directory on the way to it, and
/// changes nothing elsewhere. A file of unknown size adds none, and a sum that is too large
/// stops at the largest number there is.
pub proof fn law_file_counts_above_it(
    files: Seq<FileView>,
    f: FileView,
    names: Seq<Text>,
    dir: Text,
)
    requires
        names.len() > 0,
        forall|k: int| 0 <= k < names.len() ==> is_plain(#[trigger] names[k]),
        f.path == join(names, "/"@),
    ensures
        ({
            let before = usage_of(files).stats(dir);
            let after = usage_of(files.push(f)).stats(dir);
            let n = match f.size {
                Some(n) => n as int,
                None => 0,
            };
            &&& !is_above(names, dir) ==> after == before
            &&& is_above(names, dir) ==> after.1 == before.1 + 1 && after.0 == (if before.0 + n
                <= u64::MAX {
                before.0 + n
            } else {
                u64::MAX as int
            })
        }),
        usage_of(Seq::empty()).stats(dir) == (0u64, 0nat),
{
    lemma_stats(files, dir);
    lemma_stats(files.push(f), dir);
    lemma_stats(Seq::empty(), dir);
    lemma_steps_joined(names);
    assert(files.push(f).drop_last() =~= files);
    assert(is_above(names, dir) <==> lead_through(names, dir)) by {
        if is_above(names, dir) {
            let k = choose|k: int| 0 <= k < names.len() && #[trigger] join(names.take(k), "/"@)
                == dir;
            assert(dir_text(names, k) == dir);
        }
        if lead_through(names, dir) {
            let k = choose|k: int| 0 <= k < names.len() && #[trigger] dir_text(names, k) == dir;
            assert(join(names.take(k), "/"@) == dir);
        }
    }
}

/// One more file has a row of its own in the directory it is in, which leads to it, and each
/// directory on the way has a row in the one above it.
#[verifier::rlimit(40)]
pub proof fn law_file_has_rows(files: Seq<FileView>, f: FileView, names: Seq<Text>, k: int)
    requires
        names.len() > 0,
        forall|i: int| 0 <= i < names.len() ==> is_plain(#[trigger] names[i]),
        f.path == join(names, "/"@),
        0 <= k < names.len(),
    ensures
        exists|i: int|
            0 <= i < usage_of(files.push(f)).list(join(names.take(k), "/"@)).len()
                && is_row_towards(
                #[trigger] usage_of(files.push(f)).list(join(names.take(k), "/"@))[i],
                names,
                k,
                files.len() as int,
            ),
{
    let all = files.push(f);
    let dir = join(names.take(k), "/"@);
    lemma_steps_joined(names);
    assert(all.drop_last() =~= files);
    assert(dir_text(names, k) == dir);
    assert(lead_to(names, dir, names[k]));
    assert(lead_through(names, dir));
    assert(all[files.len() as int] == f);
    assert(is_directory(all, dir));
    law_rows_are_entries(all, dir);
    let c = entry_of(all, dir, names[k])->0;
    let list = usage_of(all).list(dir);
    assert(list == largest_first(entries_of(all, dir)));
    assert(list.contains(c));
    let i = choose|i: int| 0 <= i < list.len() && list[i] == c;
    lemma_ends_only_at_end(names, k);
    lemma_dir_step(names, k);
    assert(is_row_towards(list[i], names, k, files.len() as int));
}

/// Names lead to their end by the last of them only.
proof fn lemma_ends_only_at_end(names: Seq<Text>, k: int)
    requires
        0 <= k < names.len(),
        forall|i: int| 0 <= i < names.len() ==> is_plain(#[trigger] names[i]),
    ensures
        end_at(names, dir_text(names, k), names[k]) <==> k == names.len() - 1,
{
    if k < names.len() - 1 {
        assert forall|i: int| 0 <= i < names.len() implies (#[trigger] names[i]).len() > 0 by {
            assert(is_plain(names[i]));
        }
        lemma_dirs_distinct(names, k, names.len() - 1);
    }
}

/// Whether a row shows the next of the names: the file itself, or the directory that leads to
/// it.
pub open spec fn is_row_towards(c: ChildView, names: Seq<Text>, k: int, idx: int) -> bool {
    &&& c.name == names[k]
    &&& c.rel_path == join(names.take(k + 1), "/"@)
    &&& c.is_dir <==> k < names.len() - 1
    &&& c.file_count > 0
    &&& k == names.len() - 1 ==> c.file_idx == Some(idx)
}

/// A row that is no directory leads to a file.
pub proof fn lemma_entry_leads_to_file(files: Seq<FileView>, dir: Text, name: Text)
    ensures
        entry_of(files, dir, name) matches Some(c) ==> !c.is_dir ==> (c.file_idx matches Some(i)
            && 0 <= i < files.len()),
    decreases files.len(),
{
    if files.len() > 0 {
        lemma_entry_leads_to_file(files.drop_last(), dir, name);
    }
}

} // verus!
