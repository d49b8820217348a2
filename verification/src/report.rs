//! Finding repositories, and what is printed without a terminal view.

use vstd::prelude::*;
use crate::annex::{directory_name, name_or, AnnexMetadata, MetaView, Remote, RemoteView};
use crate::node::{bracketed, by_fsck, drives_by_fsck, in_brackets, law_drives_by_fsck};
use crate::table::{lemma_map_of, lemma_ordered_distinct, lemma_pairs_of_finite, map_of, pairs_of};
use crate::text::{count_text, decimal, labelled, law_repeated, no_rows, push_row, repeat_of, repeated, same_text, Text};
use crate::trust::trust_word;
use crate::util::{byte_suffix, bytes_text, fmt_unix, human_bytes, last_bytes, law_last_bytes, takes_at_most, text_bytes, unix_text};

verus! {

// ---------------------------------------------------------------------------------------
// Finding

/// Whether no repository is looked for in a directory of that name: git's own directories
/// hold none.
pub open spec fn is_skipped(name: Text) -> bool {
    name == ".git"@
}

/// Whether no repository is looked for in a directory of that name.
pub fn skips_directory(name: &str) -> (r: bool)
    ensures
        r == is_skipped(name@),
{
    same_text(name, ".git")
}

/// What is done with a directory that was come upon.
#[derive(Debug, Clone, Copy, PartialEq, Eq, Structural)]
pub enum Visit {
    /// It is left alone, with all that is in it.
    Leave,
    /// It is a repository. Nothing is looked for in it.
    Take,
    /// What is in it is looked at.
    Enter,
}

/// What is done with a directory of that name.
pub open spec fn visited(name: Text, is_repo: bool) -> Visit {
    if is_skipped(name) {
        Visit::Leave
    } else if is_repo {
        Visit::Take
    } else {
        Visit::Enter
    }
}

/// What is done with a directory of that name, which is a repository or not.
pub fn visit(name: &str, is_repo: bool) -> (r: Visit)
    ensures
        r == visited(name@, is_repo),
{
    if skips_directory(name) {
        Visit::Leave
    } else if is_repo {
        Visit::Take
    } else {
        Visit::Enter
    }
}

/// A directory on the way down: its name, and whether it is a repository.
pub ghost struct Place {
    pub name: Text,
    pub is_repo: bool,
}

/// Whether a search that begins with the first directory of `way` comes to the last one and
/// takes it: each is in the one before it.
pub open spec fn is_found(way: Seq<Place>) -> bool {
    &&& way.len() > 0
    &&& visited(way.last().name, way.last().is_repo) is Take
    &&& forall|i: int|
        0 <= i < way.len() - 1 ==> visited((#[trigger] way[i]).name, way[i].is_repo) is Enter
}

/// All repositories are found: every directory that is one, at any depth, unless it is in a
/// directory of git's own or in another repository.
pub proof fn law_all_repositories_are_found(way: Seq<Place>)
    requires
        way.len() > 0,
        forall|i: int| 0 <= i < way.len() ==> (#[trigger] way[i]).name != ".git"@,
        forall|i: int| 0 <= i < way.len() - 1 ==> !(#[trigger] way[i]).is_repo,
        way.last().is_repo,
    ensures
        is_found(way),
{
    assert(way[way.len() - 1] == way.last());
}

/// Only repositories are found, none of them in another, and none in a directory of git's own.
pub proof fn law_only_repositories_are_found(way: Seq<Place>)
    requires
        is_found(way),
    ensures
        way.last().is_repo,
        forall|i: int| 0 <= i < way.len() ==> (#[trigger] way[i]).name != ".git"@,
        forall|i: int| 0 <= i < way.len() - 1 ==> !(#[trigger] way[i]).is_repo,
{
    assert forall|i: int| 0 <= i < way.len() implies (#[trigger] way[i]).name != ".git"@ by {
        if i < way.len() - 1 {
            assert(visited(way[i].name, way[i].is_repo) is Enter);
        } else {
            assert(way[i] == way.last());
        }
    }
    assert forall|i: int| 0 <= i < way.len() - 1 implies !(#[trigger] way[i]).is_repo by {
        assert(visited(way[i].name, way[i].is_repo) is Enter);
    }
}

// ---------------------------------------------------------------------------------------
// Progress

/// A name of at most 40 bytes: a longer one loses its beginning.
pub open spec fn progress_name(name: Text) -> Text {
    if text_bytes(name) > 40 {
        "..."@ + byte_suffix(name, 37)
    } else {
        name
    }
}

/// How many hundredths are done when the first `idx` of `total` are.
pub open spec fn percent(idx: nat, total: nat) -> nat {
    if total == 0 {
        100
    } else {
        idx * 100 / total
    }
}

/// The row that shows how far a scan is.
pub open spec fn progress_text(path: Text, idx: nat, total: nat) -> Text {
    let pct = percent(idx, total);
    let filled = pct * 30 / 100;
    "\r["@ + repeated("="@, filled) + repeated(" "@, (30 - filled) as nat) + "] "@ + decimal(idx)
        + "/"@ + decimal(total) + " ("@ + decimal(pct) + "%) "@ + progress_name(
        name_or(path, path),
    )
}

/// The row that shows how far a scan is, at the repository `path`, the one number `idx` of
/// `total`.
pub fn progress_row(path: &String, idx: usize, total: usize) -> (r: String)
    requires
        idx <= total,
    ensures
        r@ == progress_text(path@, idx as nat, total as nat),
{
    let pct: usize = if total == 0 {
        100
    } else {
        let hundredths: u128 = idx as u128 * 100 / total as u128;
        assert(hundredths <= 100) by (nonlinear_arith)
            requires
                hundredths == (idx * 100) / (total as int),
                0 <= idx <= total,
                total > 0,
        ;
        hundredths as usize
    };
    let filled: usize = pct * 30 / 100;
    let name = directory_name(path.as_str(), path);
    let shown = if takes_at_most(name.as_str(), 40) {
        name
    } else {
        labelled("...", last_bytes(name.as_str(), 37).as_str())
    };
    labelled("\r[", repeat_of("=", filled).as_str()).concat(repeat_of(" ", 30 - filled).as_str()).concat(
        "] ",
    ).concat(count_text(idx).as_str()).concat("/").concat(count_text(total).as_str()).concat(
        " (",
    ).concat(count_text(pct).as_str()).concat("%) ").concat(shown.as_str())
}

// ---------------------------------------------------------------------------------------
// The dump

/// The sizes of all keys of all repositories, each counted once in each.
pub open spec fn dump_unique(repos: Seq<(Text, MetaView)>) -> nat
    decreases repos.len(),
{
    if repos.len() == 0 {
        0
    } else {
        dump_unique(repos.drop_last()) + repos.last().1.unique_size as nat
    }
}

/// The sizes of all keys of all repositories, with all copies.
pub open spec fn dump_consumed(repos: Seq<(Text, MetaView)>) -> nat
    decreases repos.len(),
{
    if repos.len() == 0 {
        0
    } else {
        dump_consumed(repos.drop_last()) + repos.last().1.consumed_size as nat
    }
}

/// The number of files of all repositories.
pub open spec fn dump_files(repos: Seq<(Text, MetaView)>) -> nat
    decreases repos.len(),
{
    if repos.len() == 0 {
        0
    } else {
        dump_files(repos.drop_last()) + repos.last().1.files.len()
    }
}

/// Whether the totals can be counted.
pub open spec fn dump_fits(repos: Seq<(Text, MetaView)>) -> bool {
    dump_unique(repos) <= u64::MAX && dump_consumed(repos) <= u64::MAX && dump_files(repos)
        <= usize::MAX
}

/// The row of a drive.
pub open spec fn dump_drive(m: MetaView, r: RemoteView) -> Text {
    "    - "@ + r.name() + " ("@ + r.rtype() + ")"@ + (if r.uuid == m.uuid {
        " [HERE]"@
    } else {
        ""@
    }) + " trust="@ + trust_word(r.trust) + " present="@ + decimal(r.present_count as nat)
        + " keys"@ + (match r.last_fsck {
        Some(t) => " fsck="@ + unix_text(t),
        None => ""@,
    }) + (match r.available_space {
        Some(b) => " "@ + bytes_text(b as nat) + " free"@,
        None => ""@,
    })
}

/// The rows of a repository.
pub open spec fn dump_repo(path: Text, m: MetaView) -> Seq<Text> {
    let name = name_or(path, path);
    let head = seq![
        "=== "@ + name + in_brackets(m.description, name) + " ==="@,
        "  path: "@ + path,
        "  uuid: "@ + m.uuid,
        "  files in tree: "@ + decimal(m.files.len()) + ", keys: "@ + decimal(m.total_keys as nat),
        "  unique size (1 copy): "@ + bytes_text(m.unique_size as nat),
        "  consumed across drives: "@ + bytes_text(m.consumed_size as nat),
        "  remotes/drives:"@,
    ];
    (head + by_fsck(m.remotes).map_values(|p: (Text, RemoteView)| dump_drive(m, p.1))).push(""@)
}

/// The rows of all repositories.
pub open spec fn dump_repos(repos: Seq<(Text, MetaView)>) -> Seq<Text>
    decreases repos.len(),
{
    if repos.len() == 0 {
        Seq::empty()
    } else {
        dump_repos(repos.drop_last()) + dump_repo(repos.last().0, repos.last().1)
    }
}

/// The totals, and then the repositories.
pub open spec fn dump_text(repos: Seq<(Text, MetaView)>) -> Seq<Text> {
    seq![
        "REPORT:"@,
        "  total unique data (1 copy per file): "@ + bytes_text(dump_unique(repos)),
        "  total storage across all drives (with copies): "@ + bytes_text(dump_consumed(repos)),
        "  total working tree files: "@ + decimal(dump_files(repos)),
        ""@,
    ] + dump_repos(repos)
}

proof fn lemma_dump_grows(repos: Seq<(Text, MetaView)>, i: int)
    requires
        0 <= i <= repos.len(),
    ensures
        dump_unique(repos.take(i)) <= dump_unique(repos),
        dump_consumed(repos.take(i)) <= dump_consumed(repos),
        dump_files(repos.take(i)) <= dump_files(repos),
    decreases repos.len() - i,
{
    if i < repos.len() {
        lemma_dump_grows(repos, i + 1);
        assert(repos.take(i + 1).drop_last() =~= repos.take(i));
    } else {
        assert(repos.take(i) =~= repos);
    }
}

/// The totals, or nothing where one cannot be counted.
pub fn dump_totals(repos: &Vec<(String, AnnexMetadata)>) -> (r: Option<(u64, u64, usize)>)
    ensures
        r is Some == dump_fits(repos.deep_view()),
        r matches Some(t) ==> t.0 == dump_unique(repos.deep_view()) && t.1 == dump_consumed(
            repos.deep_view(),
        ) && t.2 == dump_files(repos.deep_view()),
{
    let ghost d = repos.deep_view();
    let mut unique: u64 = 0;
    let mut consumed: u64 = 0;
    let mut files: usize = 0;
    let mut i: usize = 0;
    while i < repos.len()
        invariant
            i <= repos@.len(),
            d == repos.deep_view(),
            unique == dump_unique(d.take(i as int)),
            consumed == dump_consumed(d.take(i as int)),
            files == dump_files(d.take(i as int)),
        decreases repos@.len() - i,
    {
        let m = &repos[i].1;
        let n: usize = m.files.len();
        proof {
            assert(d.take(i + 1).drop_last() =~= d.take(i as int));
            assert(d.take(i + 1).last() == d[i as int]);
            assert(d[i as int].1 == m.deep_view());
            lemma_dump_grows(d, i + 1);
        }
        if m.unique_size > u64::MAX - unique || m.consumed_size > u64::MAX - consumed || n
            > usize::MAX - files {
            return None;
        }
        unique = unique + m.unique_size;
        consumed = consumed + m.consumed_size;
        files = files + n;
        i += 1;
    }
    assert(d.take(i as int) =~= d);
    Some((unique, consumed, files))
}

fn dump_drive_row(m: &AnnexMetadata, r: &Remote) -> (t: String)
    ensures
        t@ == dump_drive(m.deep_view(), r.deep_view()),
{
    let marker = if r.uuid == m.uuid {
        " [HERE]"
    } else {
        ""
    };
    let fsck = match r.last_fsck {
        Some(t) => labelled(" fsck=", fmt_unix(t).as_str()),
        None => "".to_string(),
    };
    let space = match r.available_space {
        Some(b) => labelled(" ", human_bytes(b).as_str()).concat(" free"),
        None => "".to_string(),
    };
    labelled("    - ", r.name()).concat(" (").concat(r.rtype()).concat(")").concat(marker).concat(
        " trust=",
    ).concat(r.trust.as_str()).concat(" present=").concat(count_text(r.present_count).as_str()).concat(
        " keys",
    ).concat(fsck.as_str()).concat(space.as_str())
}

fn push_dump_repo(rows: &mut Vec<String>, path: &String, m: &AnnexMetadata)
    ensures
        final(rows).deep_view() == old(rows).deep_view() + dump_repo(path@, m.deep_view()),
{
    let ghost start = rows.deep_view();
    let ghost v = m.deep_view();
    let name = directory_name(path.as_str(), path);
    let note = bracketed(&m.description, &name);
    push_row(
        rows,
        labelled("=== ", name.as_str()).concat(note.as_str()).concat(" ==="),
    );
    push_row(rows, labelled("  path: ", path.as_str()));
    push_row(rows, labelled("  uuid: ", m.uuid.as_str()));
    push_row(
        rows,
        labelled("  files in tree: ", count_text(m.files.len()).as_str()).concat(
            ", keys: ",
        ).concat(count_text(m.total_keys).as_str()),
    );
    push_row(rows, labelled("  unique size (1 copy): ", human_bytes(m.unique_size).as_str()));
    push_row(rows, labelled("  consumed across drives: ", human_bytes(m.consumed_size).as_str()));
    push_row(rows, "  remotes/drives:".to_string());
    let ghost head = rows.deep_view();
    let drives = drives_by_fsck(&m.remotes);
    let ghost w = drives.deep_view();
    let ghost row = |p: (Text, RemoteView)| dump_drive(v, p.1);
    let mut i: usize = 0;
    assert(head + w.take(0).map_values(row) =~= head);
    while i < drives.len()
        invariant
            i <= drives@.len(),
            w == drives.deep_view(),
            v == m.deep_view(),
            row == (|p: (Text, RemoteView)| dump_drive(v, p.1)),
            rows.deep_view() == head + w.take(i as int).map_values(row),
        decreases drives@.len() - i,
    {
        let r = &drives[i].1;
        assert(w[i as int].1 == r.deep_view());
        push_row(rows, dump_drive_row(m, r));
        assert(head + w.take(i + 1).map_values(row) =~= (head + w.take(i as int).map_values(
            row,
        )).push(row(w[i as int])));
        i += 1;
    }
    assert(w.take(i as int) =~= w);
    push_row(rows, "".to_string());
    assert(rows.deep_view() =~= start + dump_repo(path@, v));
}

proof fn lemma_rows_assoc(a: Seq<Text>, b: Seq<Text>, c: Seq<Text>)
    ensures
        (a + b) + c == a + (b + c),
{
    assert((a + b) + c =~= a + (b + c));
}

/// The totals, and then the repositories, as rows.
pub fn dump_rows(repos: &Vec<(String, AnnexMetadata)>) -> (r: Vec<String>)
    requires
        dump_fits(repos.deep_view()),
    ensures
        r.deep_view() == dump_text(repos.deep_view()),
{
    let ghost d = repos.deep_view();
    let (unique, consumed, files) = match dump_totals(repos) {
        Some(t) => t,
        None => (0, 0, 0),
    };
    let mut rows = no_rows();
    push_row(&mut rows, "REPORT:".to_string());
    push_row(
        &mut rows,
        labelled("  total unique data (1 copy per file): ", human_bytes(unique).as_str()),
    );
    push_row(
        &mut rows,
        labelled(
            "  total storage across all drives (with copies): ",
            human_bytes(consumed).as_str(),
        ),
    );
    push_row(&mut rows, labelled("  total working tree files: ", count_text(files).as_str()));
    push_row(&mut rows, "".to_string());
    let ghost head = rows.deep_view();
    let mut i: usize = 0;
    assert(head + dump_repos(d.take(0)) =~= head);
    while i < repos.len()
        invariant
            i <= repos@.len(),
            d == repos.deep_view(),
            rows.deep_view() == head + dump_repos(d.take(i as int)),
        decreases repos@.len() - i,
    {
        let ghost before = dump_repos(d.take(i as int));
        proof {
            assert(d.take(i + 1).drop_last() =~= d.take(i as int));
            assert(d.take(i + 1).last() == d[i as int]);
        }
        push_dump_repo(&mut rows, &repos[i].0, &repos[i].1);
        proof {
            lemma_rows_assoc(head, before, dump_repo(d[i as int].0, d[i as int].1));
        }
        i += 1;
    }
    assert(d.take(i as int) =~= d);
    rows
}

/// The share of what is done is rounded down to whole percent; of nothing all is done.
pub proof fn law_percent(idx: nat, total: nat)
    ensures
        total == 0 ==> percent(idx, total) == 100,
        total > 0 ==> percent(idx, total) * total <= idx * 100 < (percent(idx, total) + 1) * total,
{
    if total > 0 {
        let p = percent(idx, total);
        vstd::arithmetic::div_mod::lemma_fundamental_div_mod((idx * 100) as int, total as int);
        assert(total * p == p * total) by (nonlinear_arith);
        assert((p + 1) * total == p * total + total) by (nonlinear_arith);
    }
}

/// The progress of a scan shows a bar of thirty places, filled by the share that is done, how
/// many repositories are done of how many, and the name of the one at hand.
#[verifier::rlimit(40)]
pub proof fn law_progress(path: Text, idx: nat, total: nat)
    requires
        idx <= total,
    ensures
        exists|bar: Text| #[trigger]
            is_bar(bar, percent(idx, total)) && progress_text(path, idx, total) == "\r["@ + bar
                + "] "@ + decimal(idx) + "/"@ + decimal(total) + " ("@ + decimal(
                percent(idx, total),
            ) + "%) "@ + progress_name(name_or(path, path)),
        text_bytes(name_or(path, path)) <= 40 ==> progress_name(name_or(path, path)) == name_or(
            path,
            path,
        ),
{
    let pct = percent(idx, total);
    assert(pct <= 100) by {
        law_percent(idx, total);
        if total > 0 && pct > 100 {
            assert(pct * total >= 101 * total) by (nonlinear_arith)
                requires
                    pct >= 101,
            ;
        }
    }
    let filled = pct * 30 / 100;
    let bar = repeated("="@, filled) + repeated(" "@, (30 - filled) as nat);
    reveal_strlit("=");
    reveal_strlit(" ");
    law_repeated("="@, filled);
    law_repeated(" "@, (30 - filled) as nat);
    assert(filled * 1 == filled) by (nonlinear_arith);
    assert((30 - filled) as nat * 1 == (30 - filled) as nat) by (nonlinear_arith);
    assert forall|i: int| 0 <= i < bar.len() implies #[trigger] bar[i] == (if (i + 1) * 100 <= pct
        * 30 {
        '='
    } else {
        ' '
    }) by {
        if i < filled {
            assert(bar[i] == repeated("="@, filled)[i]);
        } else {
            assert(bar[i] == repeated(" "@, (30 - filled) as nat)[i - filled]);
        }
    }
    assert(is_bar(bar, pct));
    assert(progress_text(path, idx, total) =~= "\r["@ + bar + "] "@ + decimal(idx) + "/"@
        + decimal(total) + " ("@ + decimal(pct) + "%) "@ + progress_name(name_or(path, path)));
}

/// Whether the text is a bar of thirty places that is filled by the given share.
pub open spec fn is_bar(bar: Text, pct: nat) -> bool {
    &&& bar.len() == 30
    &&& forall|i: int|
        0 <= i < bar.len() ==> #[trigger] bar[i] == (if (i + 1) * 100 <= pct * 30 {
            '='
        } else {
            ' '
        })
}

/// The dump adds up the sizes and the files of all repositories.
pub proof fn law_dump_totals(repos: Seq<(Text, MetaView)>, p: Text, m: MetaView)
    ensures
        dump_unique(repos.push((p, m))) == dump_unique(repos) + m.unique_size,
        dump_consumed(repos.push((p, m))) == dump_consumed(repos) + m.consumed_size,
        dump_files(repos.push((p, m))) == dump_files(repos) + m.files.len(),
        dump_unique(Seq::empty()) == 0,
        dump_consumed(Seq::empty()) == 0,
        dump_files(Seq::empty()) == 0,
        dump_text(repos)[1] == "  total unique data (1 copy per file): "@ + bytes_text(
            dump_unique(repos),
        ),
        dump_text(repos)[2] == "  total storage across all drives (with copies): "@ + bytes_text(
            dump_consumed(repos),
        ),
        dump_text(repos)[3] == "  total working tree files: "@ + decimal(dump_files(repos)),
{
    assert(repos.push((p, m)).drop_last() =~= repos);
}

/// The dump tells of one repository after the other, and of each its path, uuid, files, keys
/// and sizes, and every drive.
#[verifier::rlimit(40)]
pub proof fn law_dump_tells_of_repositories(repos: Seq<(Text, MetaView)>, p: Text, m: MetaView)
    requires
        m.remotes.dom().finite(),
    ensures
        ({
            let before = dump_text(repos);
            let after = dump_text(repos.push((p, m)));
            let rows = after.skip(before.len() as int);
            &&& after.len() == before.len() + 8 + m.remotes.len()
            &&& after.skip(5).take(before.len() - 5) == before.skip(5)
            &&& rows[1] == "  path: "@ + p
            &&& rows[2] == "  uuid: "@ + m.uuid
            &&& rows[3] == "  files in tree: "@ + decimal(m.files.len()) + ", keys: "@ + decimal(
                m.total_keys as nat,
            )
            &&& rows[4] == "  unique size (1 copy): "@ + bytes_text(m.unique_size as nat)
            &&& rows[5] == "  consumed across drives: "@ + bytes_text(m.consumed_size as nat)
            &&& forall|u: Text| #[trigger]
                m.remotes.contains_key(u) ==> rows.contains(dump_drive(m, m.remotes[u]))
        }),
{
    let before = dump_text(repos);
    let after = dump_text(repos.push((p, m)));
    let block = dump_repo(p, m);
    lemma_dump_block(repos, p, m);
    lemma_dump_rows(p, m);
    lemma_rows_are(before, after, block);
}

proof fn lemma_rows_are(before: Seq<Text>, after: Seq<Text>, block: Seq<Text>)
    requires
        after.len() == before.len() + block.len(),
        forall|i: int| 0 <= i < block.len() ==> after[before.len() + i] == #[trigger] block[i],
    ensures
        after.skip(before.len() as int) == block,
{
    assert(after.skip(before.len() as int) =~= block);
}

proof fn lemma_dump_block(repos: Seq<(Text, MetaView)>, p: Text, m: MetaView)
    ensures
        ({
            let before = dump_text(repos);
            let after = dump_text(repos.push((p, m)));
            let block = dump_repo(p, m);
            &&& after.len() == before.len() + block.len()
            &&& after.skip(5).take(before.len() - 5) == before.skip(5)
            &&& forall|i: int| 0 <= i < block.len() ==> after[before.len() + i] == #[trigger] block[i]
        }),
{
    lemma_dump_tail(repos);
    lemma_dump_tail(repos.push((p, m)));
    assert(repos.push((p, m)).drop_last() =~= repos);
    assert(dump_repos(repos.push((p, m))) == dump_repos(repos) + dump_repo(p, m));
    lemma_rows_behind(
        dump_text(repos),
        dump_text(repos.push((p, m))),
        dump_repos(repos),
        dump_repo(p, m),
    );
}

#[verifier::rlimit(40)]
proof fn lemma_dump_tail(repos: Seq<(Text, MetaView)>)
    ensures
        dump_text(repos).len() == 5 + dump_repos(repos).len(),
        dump_text(repos).skip(5) == dump_repos(repos),
{
    assert(dump_text(repos).skip(5) =~= dump_repos(repos));
}

proof fn lemma_rows_behind(before: Seq<Text>, after: Seq<Text>, x: Seq<Text>, block: Seq<Text>)
    requires
        before.len() == 5 + x.len(),
        before.skip(5) == x,
        after.len() == 5 + x.len() + block.len(),
        after.skip(5) == x + block,
    ensures
        after.skip(5).take(before.len() - 5) == before.skip(5),
        forall|i: int| 0 <= i < block.len() ==> after[before.len() + i] == #[trigger] block[i],
{
    assert((x + block).take(x.len() as int) =~= x);
    assert forall|i: int| 0 <= i < block.len() implies after[before.len() + i] == #[trigger] block[i] by {
        assert(after[before.len() + i] == after.skip(5)[x.len() + i]);
    }
}

#[verifier::rlimit(40)]
proof fn lemma_dump_rows(p: Text, m: MetaView)
    requires
        m.remotes.dom().finite(),
    ensures
        ({
            let rows = dump_repo(p, m);
            &&& rows.len() == 8 + m.remotes.len()
            &&& rows[1] == "  path: "@ + p
            &&& rows[2] == "  uuid: "@ + m.uuid
            &&& rows[3] == "  files in tree: "@ + decimal(m.files.len()) + ", keys: "@ + decimal(
                m.total_keys as nat,
            )
            &&& rows[4] == "  unique size (1 copy): "@ + bytes_text(m.unique_size as nat)
            &&& rows[5] == "  consumed across drives: "@ + bytes_text(m.consumed_size as nat)
            &&& forall|u: Text| #[trigger]
                m.remotes.contains_key(u) ==> rows.contains(dump_drive(m, m.remotes[u]))
        }),
{
    let rows = dump_repo(p, m);
    law_drives_by_fsck(m.remotes);
    let q = pairs_of(m.remotes);
    let s = by_fsck(m.remotes);
    lemma_pairs_of_finite(m.remotes);
    lemma_ordered_distinct(q);
    lemma_map_of(q);
    assert forall|u: Text| #[trigger] m.remotes.contains_key(u) implies rows.contains(
        dump_drive(m, m.remotes[u]),
    ) by {
        assert(map_of(q).contains_key(u));
        let k = choose|k: int| 0 <= k < q.len() && (#[trigger] q[k]).0 == u;
        assert(map_of(q)[q[k].0] == q[k].1);
        assert(q.contains(q[k]));
        assert(s.contains(q[k]));
        let i = choose|i: int| 0 <= i < s.len() && s[i] == q[k];
        assert(rows[7 + i] == dump_drive(m, m.remotes[u]));
    }
}

/// What the dump tells of a drive: its name and type, whether it is the repository itself, how
/// far it is trusted, how many keys are on it, when it was last checked and how much is free,
/// where that is known.
pub proof fn law_dump_of_a_drive(m: MetaView, r: RemoteView)
    ensures
        ({
            let head = "    - "@ + r.name() + " ("@ + r.rtype() + ")"@;
            let place = if r.uuid == m.uuid {
                " [HERE]"@
            } else {
                Seq::<char>::empty()
            };
            let body = " trust="@ + trust_word(r.trust) + " present="@ + decimal(
                r.present_count as nat,
            ) + " keys"@;
            let check = match r.last_fsck {
                Some(t) => " fsck="@ + unix_text(t),
                None => Seq::<char>::empty(),
            };
            let free = match r.available_space {
                Some(b) => " "@ + bytes_text(b as nat) + " free"@,
                None => Seq::<char>::empty(),
            };
            dump_drive(m, r) == head + place + body + check + free
        }),
{
    reveal_strlit("");
    assert(""@ =~= Seq::<char>::empty());
    let head = "    - "@ + r.name() + " ("@ + r.rtype() + ")"@;
    let place = if r.uuid == m.uuid {
        " [HERE]"@
    } else {
        Seq::<char>::empty()
    };
    let body = " trust="@ + trust_word(r.trust) + " present="@ + decimal(r.present_count as nat)
        + " keys"@;
    let check = match r.last_fsck {
        Some(t) => " fsck="@ + unix_text(t),
        None => Seq::<char>::empty(),
    };
    let free = match r.available_space {
        Some(b) => " "@ + bytes_text(b as nat) + " free"@,
        None => Seq::<char>::empty(),
    };
    assert(dump_drive(m, r) =~= head + place + body + check + free);
}

/// A name of forty bytes or fewer is shown whole; of a longer one the end is shown, and that
/// something is left out.
pub proof fn law_progress_name(name: Text)
    ensures
        text_bytes(name) <= 40 ==> progress_name(name) == name,
        text_bytes(name) > 40 ==> exists|tail: Text| #[trigger]
            tail.is_suffix_of(name) && text_bytes(tail) <= 37 && progress_name(name) == "..."@
                + tail,
{
    law_last_bytes(name, 37);
}

} // verus!
