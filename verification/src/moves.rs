//! What commands do to what is shown.

use vstd::prelude::*;
use crate::annex::{named, sized, summary_of, MetaView, SummaryView};
use crate::app::{last_row, law_open_repo_is_renewed, law_refresh_keeps_levels, new_app, open_level, replayed, selection_in, selections_in_range, with_summary, AppView, Command, LevelView};
use crate::node::NodeView;
use crate::paths::{is_under, same_path};
use crate::profile::profiles_of;
use crate::snapshot::summary_name;
use crate::table::{distinct_paths, is_entry, path_index, path_listed, path_value, with_path};
use crate::text::{decimal, Text};
use crate::visual::{detail_of, report_of};
use crate::worker::{by_path, is_listed, law_found_are_listed, law_uncached_first, with_bare, StepView, WorkerView};

verus! {

// ---------------------------------------------------------------------------------------
// Moving

/// Whether only the selection of the current level differs.
pub open spec fn selects(a: AppView, b: AppView, row: int) -> bool {
    &&& b.stack.len() == a.stack.len()
    &&& b.current().node == a.current().node
    &&& b.current().selected == row
    &&& forall|i: int| 0 <= i < a.stack.len() - 1 ==> #[trigger] b.stack[i] == a.stack[i]
    &&& b.root_path == a.root_path
    &&& b.status == a.status
    &&& b.preloaded == a.preloaded
    &&& b.summaries == a.summaries
    &&& b.to_hydrate == a.to_hydrate
    &&& b.profiles == a.profiles
    &&& b.scanning == a.scanning
}

/// Which row each command selects: the one above or below, a page further, the first or the
/// last, or the one that is asked for; never one beyond the ends of the list.
#[verifier::rlimit(40)]
pub proof fn law_commands_select(a: AppView, page: usize, row: usize)
    requires
        a.stack.len() > 0,
        selections_in_range(a),
        a.current().node.children().len() <= usize::MAX,
    ensures
        ({
            let n = a.current().node.children().len() as int;
            let i = a.current().selected as int;
            let end = if n > 0 {
                n - 1
            } else {
                0
            };
            let rows = if page > 0 {
                page as int
            } else {
                1
            };
            &&& selects(a, a.executed(Command::Up, page), if i > 0 {
                i - 1
            } else {
                0
            })
            &&& selects(a, a.executed(Command::Down, page), if i < end {
                i + 1
            } else {
                end
            })
            &&& selects(a, a.executed(Command::PageUp, page), if i > rows {
                i - rows
            } else {
                0
            })
            &&& selects(a, a.executed(Command::PageDown, page), if i + rows < end {
                i + rows
            } else {
                end
            })
            &&& selects(a, a.executed(Command::Top, page), 0)
            &&& selects(a, a.executed(Command::Bottom, page), end)
            &&& selects(a, a.executed(Command::Select(row), page), if row < end {
                row as int
            } else {
                end
            })
            &&& selects(a, a.executed(Command::Nothing, page), i)
            &&& selects(a, a.executed(Command::ToggleHelp, page), i)
            &&& selects(a, a.executed(Command::ToggleRaw, page), i)
        }),
{
    assert(a.stack[a.stack.len() - 1] == a.current());
    assert(a.current().selected <= a.bottom());
}

/// A step down and a step up lead back to the same row, wherever there is a row below.
pub proof fn law_up_undoes_down(a: AppView, page: usize)
    requires
        a.stack.len() > 0,
        selections_in_range(a),
        a.current().node.children().len() <= usize::MAX,
        a.current().selected + 1 < a.current().node.children().len(),
    ensures
        a.executed(Command::Down, page).executed(Command::Up, page).current() == a.current(),
        a.executed(Command::Down, page).executed(Command::Up, page).stack == a.stack,
{
    assert(a.stack[a.stack.len() - 1] == a.current());
    let d = a.executed(Command::Down, page);
    let u = d.executed(Command::Up, page);
    assert(d.current().selected == a.current().selected + 1);
    assert(u.stack =~= a.stack);
}

// ---------------------------------------------------------------------------------------
// Going in and out

proof fn lemma_kinds(n: NodeView)
    ensures
        n.kind() != "report"@,
        n.kind() != "viz"@,
        n.kind() == "parent"@ <==> n is ParentDir,
{
    reveal_strlit("report");
    reveal_strlit("viz");
    reveal_strlit("parent");
    reveal_strlit("root");
    reveal_strlit("repo");
    reveal_strlit("info");
    reveal_strlit("drives");
    reveal_strlit("drive");
    reveal_strlit("here");
    reveal_strlit("files");
    reveal_strlit("file");
    reveal_strlit("dir");
    reveal_strlit("usage");
    assert("report"@.len() == 6 && "viz"@.len() == 3 && "parent"@.len() == 6 && "drives"@.len()
        == 6);
    assert("report"@[0] == 'r' && "parent"@[0] == 'p' && "drives"@[0] == 'd');
    assert("viz"@[0] == 'v' && "dir"@[0] == 'd');
    assert("root"@.len() == 4 && "repo"@.len() == 4 && "info"@.len() == 4 && "drive"@.len() == 5
        && "here"@.len() == 4 && "files"@.len() == 5 && "file"@.len() == 4 && "dir"@.len() == 3
        && "usage"@.len() == 5);
}

/// To go in is to enter the selected row: a repository that is loaded is shown, one that is not
/// is loaded first, the way up leads out, and everything else is entered as it is. Without a
/// row nothing happens.
#[verifier::rlimit(40)]
pub proof fn law_descend_enters_the_selected_row(a: AppView, page: usize)
    requires
        a.stack.len() > 0,
    ensures
        ({
            let kids = a.current().node.children();
            let i = a.current().selected as int;
            let b = a.executed(Command::Descend, page);
            &&& b.preloaded == a.preloaded && b.summaries == a.summaries && b.profiles == a.profiles
                && b.root_path == a.root_path && b.scanning == a.scanning
            &&& i >= kids.len() ==> b.stack == a.stack && b.status == a.status
            &&& i < kids.len() && kids[i] is ParentDir && a.stack.len() > 1 ==> b.stack
                == a.stack.drop_last()
            &&& i < kids.len() ==> (kids[i] matches NodeView::Summary { summary } ==> {
                &&& b.stack.len() == a.stack.len() + 1
                &&& b.stack.drop_last() == a.stack
                &&& path_value(a.preloaded, summary.root) matches Some(meta) ==> {
                    &&& b.current().node == (NodeView::Repo { meta, profiles: a.profiles })
                    &&& b.status == "preloaded"@
                }
                &&& path_value(a.preloaded, summary.root) is None ==> {
                    &&& b.current().node == (NodeView::Loading { path: summary.root })
                    &&& b.status == "loading "@ + summary.root + " ..."@
                }
                &&& b.current().selected == 0
            })
            &&& i < kids.len() && !(kids[i] is Summary) && !(kids[i] is ParentDir) ==> {
                &&& b.stack.len() == a.stack.len() + 1
                &&& b.stack.drop_last() == a.stack
                &&& b.current().node == kids[i]
                &&& b.current().selected == kids[i].initial_selected() as usize
                &&& b.status == a.status
            }
        }),
{
    let kids = a.current().node.children();
    let i = a.current().selected as int;
    let b = a.executed(Command::Descend, page);
    if i < kids.len() {
        lemma_kinds(kids[i]);
        if !(kids[i] is ParentDir) {
            assert(b.stack.drop_last() =~= a.stack);
        }
    }
}

/// To go back is to leave the current level, but never the top.
pub proof fn law_back_leaves_a_level(a: AppView, page: usize)
    requires
        a.stack.len() > 0,
    ensures
        ({
            let b = a.executed(Command::Back, page);
            &&& a.stack.len() > 1 ==> b.stack == a.stack.drop_last()
            &&& a.stack.len() == 1 ==> b.stack == a.stack
            &&& b.preloaded == a.preloaded && b.summaries == a.summaries && b.status == a.status
        }),
{
}

/// A refresh goes back to the top and selects its first row; nothing that is loaded is lost.
pub proof fn law_refresh_goes_to_the_top(a: AppView, page: usize)
    requires
        a.stack.len() > 0,
    ensures
        ({
            let b = a.executed(Command::Refresh, page);
            &&& b.stack == seq![LevelView { node: a.stack[0].node, selected: 0 }]
            &&& b.status == "refreshing..."@
            &&& b.preloaded == a.preloaded && b.summaries == a.summaries && b.profiles == a.profiles
        }),
{
}

// ---------------------------------------------------------------------------------------
// Repositories

/// What is known by a path is what an entry with that path holds; nothing is known where there
/// is no such entry.
pub proof fn law_known_by_path<B>(s: Seq<(Text, B)>, p: Text)
    ensures
        path_value(s, p) is Some <==> exists|i: int| 0 <= i < s.len() && same_path((#[trigger] s[i]).0, p),
        path_value(s, p) matches Some(v) ==> exists|i: int|
            0 <= i < s.len() && same_path((#[trigger] s[i]).0, p) && s[i].1 == v,
{
    if exists|i: int| is_entry(s, p, i) {
        let i = choose|i: int| is_entry(s, p, i);
        assert(same_path(s[i].0, p));
    }
    if exists|i: int| 0 <= i < s.len() && same_path((#[trigger] s[i]).0, p) {
        let i = choose|i: int| 0 <= i < s.len() && same_path((#[trigger] s[i]).0, p);
        assert(is_entry(s, p, i));
    }
}

/// What is put in under a path is found under it, and everything else stays.
#[verifier::rlimit(40)]
pub proof fn law_put_by_path<B>(s: Seq<(Text, B)>, p: Text, v: B, q: Text)
    requires
        distinct_paths(s),
    ensures
        path_value(with_path(s, p, v), p) == Some(v),
        !same_path(p, q) ==> path_value(with_path(s, p, v), q) == path_value(s, q),
        distinct_paths(with_path(s, p, v)),
{
    let w = with_path(s, p, v);
    match path_index(s, p) {
        Some(k) => {
            assert(is_entry(s, p, k));
            assert(w[k] == (s[k].0, v));
            assert forall|i: int, j: int| 0 <= i < w.len() && 0 <= j < w.len() && i
                != j implies !same_path((#[trigger] w[i]).0, (#[trigger] w[j]).0) by {
                assert(!same_path(s[i].0, s[j].0));
            }
            assert(is_entry(w, p, k));
            let i = choose|i: int| is_entry(w, p, i);
            assert(is_entry(w, p, i));
            assert(i == k) by {
                if i != k {
                    assert(!same_path(w[i].0, w[k].0));
                }
            }
            if !same_path(p, q) {
                assert forall|j: int| #[trigger] is_entry(w, q, j) <==> is_entry(s, q, j) by {}
                lemma_same_index(w, s, q);
                if let Some(j) = path_index(s, q) {
                    assert(is_entry(s, q, j));
                    assert(j != k);
                }
            }
        },
        None => {
            let k = s.len() as int;
            assert(w[k] == (p, v));
            assert forall|i: int| 0 <= i < s.len() implies !same_path((#[trigger] s[i]).0, p) by {
                if same_path(s[i].0, p) {
                    assert(is_entry(s, p, i));
                }
            }
            assert forall|i: int, j: int| 0 <= i < w.len() && 0 <= j < w.len() && i
                != j implies !same_path((#[trigger] w[i]).0, (#[trigger] w[j]).0) by {
                if i < k && j < k {
                    assert(!same_path(s[i].0, s[j].0));
                } else if i < k {
                    assert(!same_path(s[i].0, p));
                } else {
                    assert(!same_path(s[j].0, p));
                }
            }
            assert(is_entry(w, p, k));
            let i = choose|i: int| is_entry(w, p, i);
            assert(is_entry(w, p, i));
            assert(i == k) by {
                if i != k {
                    assert(!same_path(w[i].0, w[k].0));
                }
            }
            if !same_path(p, q) {
                assert forall|j: int| #[trigger] is_entry(w, q, j) <==> is_entry(s, q, j) by {
                    if 0 <= j < k {
                        assert(w[j] == s[j]);
                    }
                }
                lemma_same_index(w, s, q);
                if let Some(j) = path_index(s, q) {
                    assert(is_entry(s, q, j));
                    assert(w[j] == s[j]);
                }
            }
        },
    }
}

proof fn lemma_same_index<B>(w: Seq<(Text, B)>, s: Seq<(Text, B)>, q: Text)
    requires
        distinct_paths(s),
        forall|j: int| #[trigger] is_entry(w, q, j) <==> is_entry(s, q, j),
    ensures
        path_index(w, q) == path_index(s, q),
{
    if exists|j: int| is_entry(s, q, j) {
        let j = choose|j: int| is_entry(s, q, j);
        assert(is_entry(w, q, j));
        let i = choose|i: int| is_entry(w, q, i);
        assert(is_entry(w, q, i));
        assert(is_entry(s, q, i));
        if i != j {
            assert(!same_path(s[i].0, s[j].0));
        }
    } else if exists|j: int| is_entry(w, q, j) {
        let j = choose|j: int| is_entry(w, q, j);
        assert(is_entry(s, q, j));
    }
}

/// A summary takes the place of the first one of the same repository, or comes last; the
/// summaries of other repositories stay where they are.
pub proof fn law_summary_takes_its_place(list: Seq<SummaryView>, s: SummaryView)
    ensures
        ({
            let w = with_summary(list, s);
            let known = exists|i: int|
                0 <= i < list.len() && same_path((#[trigger] list[i]).root, s.root);
            &&& w.contains(s)
            &&& known ==> w.len() == list.len()
            &&& !known ==> w.len() == list.len() + 1 && w.last() == s
            &&& forall|j: int|
                0 <= j < list.len() && !same_path((#[trigger] list[j]).root, s.root) ==> w[j]
                    == list[j]
            &&& forall|j: int| 0 <= j < list.len() ==> w[j] == (#[trigger] list[j]) || w[j] == s
        }),
    decreases list.len(),
{
    let w = with_summary(list, s);
    if list.len() == 0 {
        assert(w[0] == s);
    } else if same_path(list[0].root, s.root) {
        assert(w[0] == s);
    } else {
        let rest = list.drop_first();
        law_summary_takes_its_place(rest, s);
        let v = with_summary(rest, s);
        assert(w =~= seq![list[0]] + v);
        let k = choose|k: int| 0 <= k < v.len() && v[k] == s;
        assert(w[k + 1] == s);
        if exists|i: int| 0 <= i < list.len() && same_path((#[trigger] list[i]).root, s.root) {
            let i = choose|i: int|
                0 <= i < list.len() && same_path((#[trigger] list[i]).root, s.root);
            assert(same_path(rest[i - 1].root, s.root));
        }
        if exists|i: int| 0 <= i < rest.len() && same_path((#[trigger] rest[i]).root, s.root) {
            let i = choose|i: int|
                0 <= i < rest.len() && same_path((#[trigger] rest[i]).root, s.root);
            assert(same_path(list[i + 1].root, s.root));
        }
        assert forall|j: int|
            0 <= j < list.len() && !same_path((#[trigger] list[j]).root, s.root) implies w[j]
            == list[j] by {
            if j > 0 {
                assert(rest[j - 1] == list[j]);
            }
        }
        assert forall|j: int| 0 <= j < list.len() implies w[j] == (#[trigger] list[j]) || w[j]
            == s by {
            if j > 0 {
                assert(rest[j - 1] == list[j]);
            }
        }
    }
}

/// The top always shows the summaries that there are, below the path that is browsed.
pub proof fn law_top_shows_the_summaries(a: AppView)
    requires
        a.stack.len() > 0,
    ensures
        ({
            let b = a.root_refreshed();
            &&& b.stack[0].node == (NodeView::Root {
                scan_root: a.root_path,
                summaries: a.summaries,
            })
            &&& a.stack[0].selected < a.summaries.len() ==> b.stack[0].selected
                == a.stack[0].selected
            &&& b.summaries == a.summaries && b.preloaded == a.preloaded && b.status == a.status
                && b.profiles == a.profiles && b.to_hydrate == a.to_hydrate
        }),
{
}

/// A repository that is taken in is known by its path with its sizes, its summary is listed
/// and shown at the top, and its drives are counted; what is known of other repositories stays.
#[verifier::rlimit(40)]
pub proof fn law_taken_in(a: AppView, meta: MetaView, p: Text)
    requires
        a.wf(),
        distinct_paths(a.preloaded),
    ensures
        ({
            let b = a.ingested(meta);
            &&& path_value(b.preloaded, meta.root) == Some(sized(meta))
            &&& !same_path(meta.root, p) ==> path_value(b.preloaded, p) == path_value(
                a.preloaded,
                p,
            )
            &&& b.summaries == with_summary(a.summaries, named(summary_of(sized(meta))))
            &&& b.profiles == profiles_of(b.preloaded)
            &&& b.stack[0].node == (NodeView::Root {
                scan_root: a.root_path,
                summaries: b.summaries,
            })
            &&& b.to_hydrate == a.to_hydrate && b.scanning == a.scanning && b.status == a.status
        }),
{
    let m = sized(meta);
    law_put_by_path(a.preloaded, m.root, m, p);
    lemma_before_replaced(a, m);
    let c = before_replaced(a, m);
    assert(a.ingested(meta) == c.repo_replaced(m.root));
    lemma_top_stays(c, m.root);
}

/// What is known once the repository is taken in, before what is shown of it is renewed.
spec fn before_replaced(a: AppView, m: MetaView) -> AppView {
    AppView { preloaded: with_path(a.preloaded, m.root, m), ..a }.summary_applied(
        summary_of(m),
    ).profiled()
}

#[verifier::rlimit(40)]
proof fn lemma_before_replaced(a: AppView, m: MetaView)
    requires
        a.wf(),
    ensures
        ({
            let c = before_replaced(a, m);
            &&& c.wf()
            &&& c.preloaded == with_path(a.preloaded, m.root, m)
            &&& c.summaries == with_summary(a.summaries, named(summary_of(m)))
            &&& c.profiles == profiles_of(c.preloaded)
            &&& c.stack[0].node == (NodeView::Root {
                scan_root: a.root_path,
                summaries: c.summaries,
            })
            &&& c.to_hydrate == a.to_hydrate && c.scanning == a.scanning && c.status == a.status
        }),
{
    let known = AppView { preloaded: with_path(a.preloaded, m.root, m), ..a };
    law_refresh_keeps_levels(
        AppView { summaries: with_summary(known.summaries, named(summary_of(m))), ..known },
    );
}

#[verifier::rlimit(40)]
proof fn lemma_top_stays(a: AppView, root: Text)
    requires
        a.wf(),
        path_value(a.preloaded, root) is Some,
    ensures
        a.repo_replaced(root).stack[0].node == a.stack[0].node,
        a.repo_replaced(root).preloaded == a.preloaded,
        a.repo_replaced(root).summaries == a.summaries,
        a.repo_replaced(root).profiles == a.profiles,
        a.repo_replaced(root).to_hydrate == a.to_hydrate,
        a.repo_replaced(root).scanning == a.scanning,
        a.repo_replaced(root).status == a.status,
{
    if open_level(a.stack, root) < a.stack.len() {
        law_open_repo_is_renewed(a, root);
        assert(open_level(a.stack, root) > 0);
        assert(a.repo_replaced(root).stack[0].node == a.stack[0].node);
    }
}

/// Before anything is known, the repositories that were found are listed by their paths; what
/// is known already stays. The status says how many there are.
pub proof fn law_found_repositories(a: AppView, repos: Seq<Text>, i: int)
    requires
        a.stack.len() > 0,
    ensures
        ({
            let b = a.discovered(repos);
            &&& a.summaries.len() == 0 ==> b.summaries.len() == repos.len()
            &&& a.summaries.len() == 0 && 0 <= i < repos.len() ==> b.summaries[i].root == repos[i]
                && b.summaries[i].file_count == 0 && b.summaries[i].unique_size == 0
            &&& a.summaries.len() > 0 ==> b.summaries == a.summaries
            &&& b.preloaded == a.preloaded
            &&& b.status == "found "@ + decimal(repos.len()) + " annex repos ("@ + decimal(
                a.preloaded.len(),
            ) + " cached)"@
        }),
{
}

// ---------------------------------------------------------------------------------------
// What is shown

/// A snapshot shows a row for every node below the current one, with what the node says of
/// itself; the way from the top; and of the selected node its details and its record.
#[verifier::rlimit(40)]
pub proof fn law_snapshot_shows_the_current_node(
    a: AppView,
    live: Set<Text>,
    usage: Seq<(Text, u64, usize, usize)>,
)
    requires
        a.wf(),
        selections_in_range(a),
        a.stack[0].node.children().len() <= usize::MAX,
    ensures
        ({
            let s = a.snapshot(live, usage);
            let kids = a.current().node.children();
            let i = a.current().selected as int;
            &&& s.list.len() == kids.len()
            &&& forall|k: int|
                0 <= k < kids.len() ==> (#[trigger] s.list[k]).label == kids[k].label()
                    && s.list[k].kind == kids[k].kind() && s.list[k].anomalous
                    == kids[k].anomalous() && s.list[k].trust == kids[k].trust()
            &&& s.crumb.len() == a.stack.len()
            &&& forall|k: int|
                0 <= k < a.stack.len() ==> #[trigger] s.crumb[k] == a.stack[k].node.label()
            &&& s.selected == a.current().selected
            &&& kids.len() > 0 ==> s.details == kids[i].details(live) && s.raw
                == kids[i].raw_text()
            &&& kids.len() == 0 ==> s.details == seq!["no selection"@] && s.raw is None
            &&& s.status == a.status
            &&& s.scanning == a.scanning
            &&& s.total_repos == a.stack[0].node.children().len()
            &&& s.visual == Some(report_of(a.summaries, usage))
            &&& s.repo_visuals.len() == a.summaries.len()
            &&& forall|k: int|
                0 <= k < a.summaries.len() ==> #[trigger] s.repo_visuals[k] == detail_of(
                    a.summaries[k],
                )
        }),
{
    let top = a.stack[0].node.children();
    let keep = |n: NodeView| n.kind() != "report"@;
    assert(a.stack[a.stack.len() - 1] == a.current());
    assert(a.current().selected <= last_row(a.current().node.children().len()));
    assert forall|k: int| 0 <= k < top.len() implies keep(#[trigger] top[k]) by {
        lemma_kinds(top[k]);
    }
    lemma_keeps_all(top, keep);
}

proof fn lemma_keeps_all<A>(s: Seq<A>, keep: spec_fn(A) -> bool)
    requires
        forall|i: int| 0 <= i < s.len() ==> keep(#[trigger] s[i]),
    ensures
        s.filter(keep) == s,
    decreases s.len(),
{
    reveal(Seq::filter);
    if s.len() > 0 {
        let rest = s.drop_last();
        assert forall|i: int| 0 <= i < rest.len() implies keep(#[trigger] rest[i]) by {
            assert(rest[i] == s[i]);
        }
        lemma_keeps_all(rest, keep);
        assert(keep(s[s.len() - 1]));
        assert(s.filter(keep) =~= s);
    } else {
        assert(s.filter(keep) =~= s);
    }
}

/// A row that stands for a repository has the name of the first summary of the repository;
/// other rows have none.
pub proof fn law_rows_of_repositories_are_named(
    a: AppView,
    live: Set<Text>,
    usage: Seq<(Text, u64, usize, usize)>,
    k: int,
)
    requires
        0 <= k < a.current().node.children().len(),
    ensures
        ({
            let row = a.snapshot(live, usage).list[k];
            match a.current().node.children()[k] {
                NodeView::Summary { summary } => is_named_by(a.summaries, summary.root, row.repo_name),
                NodeView::Repo { meta, .. } => is_named_by(a.summaries, meta.root, row.repo_name),
                _ => row.repo_name is None,
            }
        }),
{
    match a.current().node.children()[k] {
        NodeView::Summary { summary } => {
            lemma_summary_name(a.summaries, summary.root);
        },
        NodeView::Repo { meta, .. } => {
            lemma_summary_name(a.summaries, meta.root);
        },
        _ => {},
    }
}

/// Whether the name is that of the first summary of the repository.
pub open spec fn is_named_by(summaries: Seq<SummaryView>, root: Text, name: Option<Text>) -> bool {
    match name {
        Some(n) => exists|i: int|
            0 <= i < summaries.len() && same_path((#[trigger] summaries[i]).root, root)
                && summaries[i].name == n && forall|j: int|
                0 <= j < i ==> !same_path((#[trigger] summaries[j]).root, root),
        None => forall|j: int|
            0 <= j < summaries.len() ==> !same_path((#[trigger] summaries[j]).root, root),
    }
}

proof fn lemma_summary_name(summaries: Seq<SummaryView>, root: Text)
    ensures
        is_named_by(summaries, root, summary_name(summaries, root)),
    decreases summaries.len(),
{
    if summaries.len() > 0 && !same_path(summaries[0].root, root) {
        let rest = summaries.drop_first();
        lemma_summary_name(rest, root);
        match summary_name(rest, root) {
            Some(n) => {
                let i = choose|i: int|
                    0 <= i < rest.len() && same_path((#[trigger] rest[i]).root, root)
                        && rest[i].name == n && forall|j: int|
                        0 <= j < i ==> !same_path((#[trigger] rest[j]).root, root);
                assert(same_path(summaries[i + 1].root, root));
                assert forall|j: int| 0 <= j < i + 1 implies !same_path(
                    (#[trigger] summaries[j]).root,
                    root,
                ) by {
                    if j > 0 {
                        assert(rest[j - 1] == summaries[j]);
                    }
                }
            },
            None => {
                assert forall|j: int| 0 <= j < summaries.len() implies !same_path(
                    (#[trigger] summaries[j]).root,
                    root,
                ) by {
                    if j > 0 {
                        assert(rest[j - 1] == summaries[j]);
                    }
                }
            },
        }
    } else if summaries.len() > 0 {
        assert(same_path(summaries[0].root, root));
    }
}

// ---------------------------------------------------------------------------------------
// In the background

/// A stored repository below the path that is browsed is restored, with its sizes and its
/// summary; one that lies elsewhere is not.
pub proof fn law_stored_is_restored(a: AppView, repos: Seq<(Text, MetaView)>, p: Text, m: MetaView)
    ensures
        ({
            let before = a.all_restored(repos);
            let after = a.all_restored(repos.push((p, m)));
            &&& is_under(p, a.root_path) ==> {
                &&& after.preloaded == with_path(before.preloaded, p, sized(m))
                &&& after.summaries == before.summaries.push(named(summary_of(sized(m))))
            }
            &&& !is_under(p, a.root_path) ==> after == before
            &&& after.stack == a.stack && after.root_path == a.root_path && after.status
                == a.status
        }),
        a.all_restored(Seq::empty()) == a,
{
    assert(repos.push((p, m)).drop_last() =~= repos);
    lemma_restored_below(a, repos);
}

proof fn lemma_restored_below(a: AppView, repos: Seq<(Text, MetaView)>)
    ensures
        a.all_restored(repos).root_path == a.root_path,
        a.all_restored(repos).stack == a.stack,
        a.all_restored(repos).status == a.status,
    decreases repos.len(),
{
    if repos.len() > 0 {
        lemma_restored_below(a, repos.drop_last());
    }
}

/// A repository that was loaded is known; one load fewer is under way. All is written once the
/// scan is complete, and what is loaded is written every few seconds before that.
#[verifier::rlimit(40)]
pub proof fn law_loaded_in_background(w: WorkerView, meta: MetaView, since: u128)
    requires
        w.wf(),
        distinct_paths(w.app.preloaded),
    ensures
        ({
            let (v, save) = w.loaded(meta, since);
            &&& path_value(v.app.preloaded, meta.root) == Some(sized(meta))
            &&& w.in_flight > 0 ==> v.in_flight == w.in_flight - 1
            &&& w.in_flight == 0 ==> v.in_flight == 0
            &&& v.app.to_hydrate == w.app.to_hydrate
            &&& v.hydrate_total == w.hydrate_total
            &&& w.hydrate_total > 0 ==> (v.app.scanning <==> w.app.to_hydrate.len() + v.in_flight > 0)
            &&& save is Scan <==> !v.app.scanning
            &&& v.app.scanning ==> (save is Loaded <==> since > 4_000_000_000)
            &&& v.dirty <==> save is Later
            &&& save is Scan ==> v.app.status == decimal(v.app.preloaded.len())
                + " repos • cache updated"@
            &&& save !is Scan ==> v.app.status == "scanning "@ + decimal(
                done_of(w.app.to_hydrate.len() + v.in_flight as nat, w.hydrate_total as nat),
            ) + "/"@ + decimal(w.hydrate_total as nat) + "…"@
        }),
{
    law_taken_in(w.app, meta, meta.root);
}

/// How many of all loads are done.
pub open spec fn done_of(left: nat, total: nat) -> nat {
    if left <= total {
        (total - left) as nat
    } else {
        0
    }
}

/// A load that failed is over, and the status says why; nothing that is known is lost.
pub proof fn law_failed_in_background(w: WorkerView, path: Text, error: Text)
    ensures
        ({
            let v = w.failed(path, error);
            &&& w.in_flight > 0 ==> v.in_flight == w.in_flight - 1
            &&& v.app.status == "failed "@ + path + ": "@ + error
            &&& v.app.preloaded == w.app.preloaded && v.app.summaries == w.app.summaries
                && v.app.stack == w.app.stack && v.app.to_hydrate == w.app.to_hydrate
            &&& v.dirty == w.dirty
        }),
{
}

/// Loads are started from the end of the queue, as many as may be under way at a time; the
/// rest waits.
pub proof fn law_loads_start_from_the_end(w: WorkerView, since: u128)
    requires
        w.in_flight <= 2,
    ensures
        ({
            let (v, start, save) = w.idled(since);
            let n = w.app.to_hydrate.len();
            &&& start.len() == (if n < 2 - w.in_flight {
                n as int
            } else {
                2 - w.in_flight
            })
            &&& forall|k: int|
                0 <= k < start.len() ==> #[trigger] start[k] == w.app.to_hydrate[n - 1 - k]
            &&& v.app.to_hydrate == w.app.to_hydrate.take(n - start.len())
            &&& v.in_flight == w.in_flight + start.len()
            &&& v.app.preloaded == w.app.preloaded && v.app.summaries == w.app.summaries
                && v.app.stack == w.app.stack
            &&& save ==> w.dirty && !v.dirty && v.in_flight == 0 && since > 2_000_000_000
            &&& !save ==> v.dirty == w.dirty
        }),
{
}

/// What a command leads to: nothing more after the end, a look around after a refresh, a load
/// where a repository is entered that is not loaded, and else an answer.
pub proof fn law_what_a_command_leads_to(w: WorkerView, cmd: Command, page: usize)
    ensures
        ({
            let (v, step) = w.commanded(cmd, page);
            &&& cmd == Command::Quit ==> step is End && v == w
            &&& cmd != Command::Quit ==> v.app == w.app.executed(cmd, page)
            &&& cmd == Command::Refresh ==> step is Look
            &&& cmd != Command::Quit && cmd != Command::Refresh ==> match v.app.current().node {
                NodeView::Loading { path } => step == (StepView::Load { path }),
                _ => step is Answer,
            }
            &&& v.in_flight == w.in_flight && v.dirty == w.dirty && v.hydrate_total
                == w.hydrate_total
        }),
{
}

/// A look around leaves the repositories that were found, and only those; all of them are
/// loaded anew, and the top is shown.
#[verifier::rlimit(40)]
pub proof fn law_look_around(w: WorkerView, found: Seq<Text>, p: Text)
    requires
        w.wf(),
    ensures
        ({
            let v = w.rediscovered(found);
            &&& v.app.to_hydrate.contains(p) <==> found.contains(p)
            &&& v.app.stack.len() == 1
            &&& v.dirty
            &&& w.app.keeping(found).summaries.len() > 0 ==> v.app.summaries == w.app.keeping(
                found,
            ).summaries
            &&& v.app.preloaded == w.app.keeping(found).preloaded
            &&& v.app.profiles == profiles_of(v.app.preloaded)
        }),
        forall|s: SummaryView| #[trigger]
            w.app.keeping(found).summaries.contains(s) <==> w.app.summaries.contains(s)
                && path_listed(found, s.root),
        forall|e: (Text, MetaView)| #[trigger]
            w.app.keeping(found).preloaded.contains(e) <==> w.app.preloaded.contains(e)
                && path_listed(found, e.0),
{
    let kept = w.app.keeping(found);
    law_uncached_first(kept.preloaded, found);
    let a = |s: SummaryView| path_listed(found, s.root);
    lemma_filtered(w.app.summaries, a);
    let b = |e: (Text, MetaView)| path_listed(found, e.0);
    lemma_filtered(w.app.preloaded, b);
}

proof fn lemma_filtered<A>(s: Seq<A>, keep: spec_fn(A) -> bool)
    ensures
        forall|x: A| #[trigger] s.filter(keep).contains(x) <==> s.contains(x) && keep(x),
{
    let f = s.filter(keep);
    assert forall|x: A| #[trigger] f.contains(x) <==> s.contains(x) && keep(x) by {
        if f.contains(x) {
            s.lemma_filter_contains_rev(keep, x);
            let k = choose|k: int| 0 <= k < f.len() && f[k] == x;
            s.lemma_filter_pred(keep, k);
        }
        if s.contains(x) && keep(x) {
            let k = choose|k: int| 0 <= k < s.len() && s[k] == x;
            s.lemma_filter_contains(keep, k);
        }
    }
}

/// A load that was asked for and failed leads back, and the status says why.
pub proof fn law_load_that_failed(w: WorkerView, error: Text)
    requires
        w.app.stack.len() > 1,
    ensures
        w.not_installed(error).app.stack == w.app.stack.drop_last(),
        w.not_installed(error).app.status == "load failed: "@ + error,
        w.not_installed(error).app.preloaded == w.app.preloaded,
        w.not_installed(error).app.summaries == w.app.summaries,
{
}

/// At first the top is shown, and nothing is known.
pub proof fn law_at_first(root: Text)
    ensures
        ({
            let a = new_app(root);
            &&& a.wf()
            &&& a.stack.len() == 1
            &&& a.current().node == (NodeView::Root { scan_root: root, summaries: Seq::empty() })
            &&& a.current().selected == 0
            &&& a.root_path == root
            &&& a.summaries.len() == 0 && a.preloaded.len() == 0 && a.to_hydrate.len() == 0
            &&& !a.scanning
        }),
{
}

/// After a scan every repository that was found is listed and queued, what was not found is
/// gone, and the scan goes on while there is anything to load.
#[verifier::rlimit(40)]
pub proof fn law_found_in_background(w: WorkerView, found: Seq<Text>, p: Text)
    requires
        w.wf(),
        found.len() <= usize::MAX,
    ensures
        ({
            let v = w.discovered(found);
            &&& found.contains(p) ==> is_listed(v.app.summaries, p)
            &&& v.app.to_hydrate.contains(p) <==> found.contains(p)
            &&& v.app.to_hydrate.len() == found.len()
            &&& v.hydrate_total == found.len()
            &&& v.app.scanning <==> found.len() > 0
            &&& v.app.preloaded == w.app.keeping(found).preloaded
            &&& forall|s: SummaryView| #[trigger]
                w.app.keeping(found).summaries.contains(s) ==> v.app.summaries.contains(s)
            &&& v.in_flight == w.in_flight && v.dirty == w.dirty
        }),
{
    let kept = w.app.keeping(found);
    law_uncached_first(kept.preloaded, found);
    if found.contains(p) {
        let k = choose|k: int| 0 <= k < found.len() && found[k] == p;
        law_found_are_listed(w, found, k);
    }
    let v = w.discovered(found);
    if found.len() > 0 {
        law_found_are_listed(w, found, 0);
        assert(v.app.summaries == with_bare(kept.summaries, found));
    } else {
        assert(with_bare(kept.summaries, found) == kept.summaries);
    }
    lemma_bare_keeps(kept.summaries, found);
    assert forall|s: SummaryView| #[trigger] kept.summaries.contains(
        s,
    ) implies v.app.summaries.contains(s) by {
        assert(with_bare(kept.summaries, found).contains(s));
    }
}

proof fn lemma_bare_keeps(summaries: Seq<SummaryView>, found: Seq<Text>)
    ensures
        forall|s: SummaryView| #[trigger]
            summaries.contains(s) ==> with_bare(summaries, found).contains(s),
        found.len() > 0 ==> with_bare(summaries, found).len() > 0,
    decreases found.len(),
{
    if found.len() > 0 {
        lemma_bare_keeps(summaries, found.drop_last());
        let before = with_bare(summaries, found.drop_last());
        let after = with_bare(summaries, found);
        assert forall|s: SummaryView| #[trigger] summaries.contains(s) implies after.contains(s) by {
            assert(before.contains(s));
            let k = choose|k: int| 0 <= k < before.len() && before[k] == s;
            assert(after[k] == s);
        }
        if is_listed(before, found.last()) {
            assert(before.len() > 0);
        }
    }
}

/// What was stored is shown while the scan is under way, and the status says how much it is.
pub proof fn law_restored_is_shown(w: WorkerView, repos: Seq<(Text, MetaView)>)
    requires
        w.app.stack.len() > 0,
    ensures
        ({
            let v = w.restored(repos);
            let known = w.app.all_restored(repos);
            &&& v.app.preloaded == known.preloaded
            &&& v.app.summaries == known.summaries
            &&& v.app.profiles == profiles_of(known.preloaded)
            &&& v.app.scanning
            &&& v.app.stack[0].node == (NodeView::Root {
                scan_root: w.app.root_path,
                summaries: known.summaries,
            })
            &&& v.app.status == "loaded "@ + decimal(known.preloaded.len())
                + " from cache — discovering…"@
        }),
{
    lemma_restored_below(w.app, repos);
}

/// A repository that was asked for and loaded is shown and will be written.
pub proof fn law_asked_for_and_loaded(w: WorkerView, meta: MetaView)
    ensures
        w.installed(meta).app == w.app.repo_installed(meta),
        w.installed(meta).dirty,
        w.installed(meta).in_flight == w.in_flight,
{
}

/// What is written of the loaded repositories is, by its path, the last of each.
pub proof fn law_written_by_path(entries: Seq<(Text, MetaView)>, p: Text, i: int)
    ensures
        by_path(entries).contains_key(p) <==> exists|k: int|
            0 <= k < entries.len() && (#[trigger] entries[k]).0 == p,
        0 <= i < entries.len() && entries[i].0 == p && (forall|j: int|
            i < j < entries.len() ==> (#[trigger] entries[j]).0 != p) ==> by_path(entries)[p]
            == entries[i].1,
    decreases entries.len(),
{
    if entries.len() > 0 {
        let rest = entries.drop_last();
        let n = entries.len() - 1;
        law_written_by_path(rest, p, i);
        if by_path(rest).contains_key(p) {
            let k = choose|k: int| 0 <= k < rest.len() && (#[trigger] rest[k]).0 == p;
            assert(entries[k].0 == p);
        }
        if exists|k: int| 0 <= k < entries.len() && (#[trigger] entries[k]).0 == p {
            let k = choose|k: int| 0 <= k < entries.len() && (#[trigger] entries[k]).0 == p;
            if k < n {
                assert(rest[k].0 == p);
            }
        }
        if entries[n].0 == p {
            assert(entries[n].0 == p);
        }
        if 0 <= i < n && entries[i].0 == p && (forall|j: int|
            i < j < entries.len() ==> (#[trigger] entries[j]).0 != p) {
            assert(entries[n].0 != p);
            assert forall|j: int| i < j < rest.len() implies (#[trigger] rest[j]).0 != p by {
                assert(rest[j] == entries[j]);
            }
            assert(rest[i] == entries[i]);
        }
    }
}

/// Whether each level is entered from the selected row of the one before it.
pub open spec fn is_entered(stack: Seq<LevelView>, n: int) -> bool {
    forall|i: int|
        n <= i < stack.len() - 1 ==> {
            let kids = (#[trigger] stack[i]).node.children();
            &&& stack[i].selected < kids.len()
            &&& stack[i + 1].node == kids[stack[i].selected as int]
            &&& stack[i].node.listing_query() is None
        }
}

/// Levels that were entered from their selected rows are entered again as they were.
#[verifier::rlimit(40)]
proof fn lemma_entered_again(stack: Seq<LevelView>, n: int)
    requires
        0 <= n < stack.len(),
        is_entered(stack, n),
        forall|i: int|
            n <= i < stack.len() ==> (#[trigger] stack[i]).node.listing_query() is None
                && stack[i].selected <= last_row(stack[i].node.children().len()),
    ensures
        replayed(stack.take(n + 1), stack.skip(n + 1).map_values(|l: LevelView| l.selected)) == (
            stack,
            Seq::<usize>::empty(),
        ),
    decreases stack.len() - n,
{
    let pick = |l: LevelView| l.selected;
    let front = stack.take(n + 1);
    let rest = stack.skip(n + 1).map_values(pick);
    assert(stack[n].node.listing_query() is None);
    assert(front.last() == stack[n]);
    if n + 1 == stack.len() {
        assert(front =~= stack);
        assert(rest =~= Seq::<usize>::empty());
    } else {
        assert(is_entered(stack, n + 1));
        lemma_entered_again(stack, n + 1);
        let next = front.push(stack[n + 1]);
        assert(next =~= stack.take(n + 2));
        assert(rest.drop_first() =~= stack.skip(n + 2).map_values(pick));
        lemma_enter_one(front, rest, stack[n + 1]);
    }
}

/// To enter one level again.
proof fn lemma_enter_one(front: Seq<LevelView>, rest: Seq<usize>, next: LevelView)
    requires
        front.len() > 0,
        rest.len() > 0,
        rest[0] == next.selected,
        front.last().node.listing_query() is None,
        front.last().selected < front.last().node.children().len(),
        next.node == front.last().node.children()[front.last().selected as int],
        next.node.listing_query() is None,
        next.selected <= last_row(next.node.children().len()),
    ensures
        replayed(front, rest) == replayed(front.push(next), rest.drop_first()),
{
    let level = front.last();
    let clamped = front.update(
        front.len() - 1,
        LevelView { node: level.node, selected: level.selected },
    );
    assert(clamped =~= front);
    assert(selection_in(next.node, rest[0]) == next.selected);
    assert(next == (LevelView { node: next.node, selected: next.selected }));
}

/// A repository that is open and loaded again, with nothing changed in it, is shown as before:
/// every level stays entered, with its row selected.
#[verifier::rlimit(40)]
pub proof fn law_renewal_keeps_the_place(a: AppView, root: Text)
    requires
        a.wf(),
        a.shows(root),
        path_value(a.preloaded, root) matches Some(meta) && a.stack[open_level(
            a.stack,
            root,
        ) as int].node == (NodeView::Repo { meta, profiles: a.profiles }),
        is_entered(a.stack, open_level(a.stack, root) as int),
        forall|i: int|
            open_level(a.stack, root) <= i < a.stack.len() ==> (
            #[trigger] a.stack[i]).node.listing_query() is None && a.stack[i].selected <= last_row(
                a.stack[i].node.children().len(),
            ),
    ensures
        a.repo_replaced(root).stack == a.stack,
        a.repo_replaced(root).replay.len() == 0,
{
    let n = open_level(a.stack, root) as int;
    let pick = |l: LevelView| l.selected;
    lemma_entered_again(a.stack, n);
    let kept = a.stack.take(n);
    let selections = a.stack.skip(n).map_values(pick);
    assert(selections[0] == a.stack[n].selected);
    assert(kept.push(a.stack[n]) =~= a.stack.take(n + 1));
    assert(selections.drop_first() =~= a.stack.skip(n + 1).map_values(pick));
}

} // verus!
