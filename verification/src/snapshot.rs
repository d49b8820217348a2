//! What the views show, as plain data.

use std::rc::Rc;
use vstd::prelude::*;
use crate::annex::{RepoSummary, SummaryView};
use crate::app::{last_row, least, App, AppView, LevelView};
use crate::node::{NodeView, TreeNode};
use crate::paths::{names_same_path, same_path};
use crate::table::StrSet;
use crate::text::{no_rows, push_row, same_text, Text};
use crate::tree::Node;
use crate::trust::TrustLevel;
use crate::visual::{detail_of, report_of, summary_totals, totals_fit, DetailView, ReportView, VisualRepoDetail, VisualReport};

verus! {

/// A row of the list.
#[derive(Debug)]
pub struct ListItem {
    pub label: String,
    pub kind: String,
    /// Whether a drive is set up otherwise than most drives of its name.
    pub anomalous: bool,
    pub trust: Option<TrustLevel>,
    /// The name of the repository, where the row is one.
    pub repo_name: Option<String>,
}

/// What a [`ListItem`] stands for.
#[verifier::ext_equal]
pub ghost struct ItemView {
    pub label: Text,
    pub kind: Text,
    pub anomalous: bool,
    pub trust: Option<TrustLevel>,
    pub repo_name: Option<Text>,
}

impl DeepView for ListItem {
    type V = ItemView;

    open spec fn deep_view(&self) -> ItemView {
        ItemView {
            label: self.label@,
            kind: self.kind@,
            anomalous: self.anomalous,
            trust: self.trust,
            repo_name: self.repo_name.deep_view(),
        }
    }
}

/// What the views show.
#[derive(Debug)]
pub struct ViewSnapshot {
    /// The nodes that were entered, from the top down.
    pub crumb: Vec<String>,
    pub list: Vec<ListItem>,
    pub selected: usize,
    pub details: Vec<String>,
    pub raw: Option<String>,
    pub visual: Option<VisualReport>,
    pub repo_visuals: Vec<VisualRepoDetail>,
    pub status: String,
    pub total_repos: usize,
    pub scanning: bool,
}

/// What a [`ViewSnapshot`] stands for.
#[verifier::ext_equal]
pub ghost struct SnapshotView {
    pub crumb: Seq<Text>,
    pub list: Seq<ItemView>,
    pub selected: usize,
    pub details: Seq<Text>,
    pub raw: Option<Text>,
    pub visual: Option<ReportView>,
    pub repo_visuals: Seq<DetailView>,
    pub status: Text,
    pub total_repos: usize,
    pub scanning: bool,
}

impl DeepView for ViewSnapshot {
    type V = SnapshotView;

    open spec fn deep_view(&self) -> SnapshotView {
        SnapshotView {
            crumb: self.crumb.deep_view(),
            list: self.list.deep_view(),
            selected: self.selected,
            details: self.details.deep_view(),
            raw: self.raw.deep_view(),
            visual: self.visual.deep_view(),
            repo_visuals: self.repo_visuals.deep_view(),
            status: self.status@,
            total_repos: self.total_repos,
            scanning: self.scanning,
        }
    }
}

/// The name of the first summary of the repository `p`.
pub open spec fn summary_name(summaries: Seq<SummaryView>, p: Text) -> Option<Text>
    decreases summaries.len(),
{
    if summaries.len() == 0 {
        None
    } else if same_path(summaries[0].root, p) {
        Some(summaries[0].name)
    } else {
        summary_name(summaries.drop_first(), p)
    }
}

/// The repository that a node is, loaded or not.
pub open spec fn repo_of(n: NodeView) -> Option<Text> {
    match n.annex_repo_path() {
        Some(p) => Some(p),
        None => n.loaded_repo_path(),
    }
}

/// The row for a node.
pub open spec fn item_of(summaries: Seq<SummaryView>, n: NodeView) -> ItemView {
    ItemView {
        label: n.label(),
        kind: n.kind(),
        anomalous: n.anomalous(),
        trust: n.trust(),
        repo_name: match repo_of(n) {
            Some(p) => summary_name(summaries, p),
            None => None,
        },
    }
}

impl AppView {
    /// The row that is shown as selected.
    pub open spec fn shown_row(self) -> nat {
        least(
            self.current().selected as nat,
            last_row(self.current().node.children().len()),
        )
    }

    /// The node that is selected.
    pub open spec fn selected_node(self) -> Option<NodeView> {
        let kids = self.current().node.children();
        if self.shown_row() < kids.len() {
            Some(kids[self.shown_row() as int])
        } else {
            None
        }
    }

    /// What the views show. `live` is what git-annex answers about the selected file, `usage`
    /// what each drive holds over all repositories.
    pub open spec fn snapshot(
        self,
        live: Set<Text>,
        usage: Seq<(Text, u64, usize, usize)>,
    ) -> SnapshotView {
        let kids = self.current().node.children();
        SnapshotView {
            crumb: self.stack.map_values(|l: LevelView| l.node.label()),
            list: kids.map_values(|n: NodeView| item_of(self.summaries, n)),
            selected: self.shown_row() as usize,
            details: match self.selected_node() {
                Some(n) => n.details(live),
                None => seq!["no selection"@],
            },
            raw: match self.selected_node() {
                Some(n) => n.raw_text(),
                None => None,
            },
            visual: Some(report_of(self.summaries, usage)),
            repo_visuals: self.summaries.map_values(|s: SummaryView| detail_of(s)),
            status: self.status,
            total_repos: self.stack[0].node.children().filter(
                |n: NodeView| n.kind() != "report"@,
            ).len() as usize,
            scanning: self.scanning,
        }
    }
}

fn summary_name_of(summaries: &Vec<RepoSummary>, p: &str) -> (r: Option<String>)
    ensures
        r.deep_view() == summary_name(summaries.deep_view(), p@),
{
    let ghost d = summaries.deep_view();
    let mut i: usize = 0;
    assert(d.skip(0) =~= d);
    while i < summaries.len()
        invariant
            i <= summaries@.len(),
            d == summaries.deep_view(),
            summary_name(d, p@) == summary_name(d.skip(i as int), p@),
        decreases summaries@.len() - i,
    {
        proof {
            assert(d[i as int] == summaries@[i as int].deep_view());
            assert(d.skip(i as int)[0] == d[i as int]);
            assert(d.skip(i as int).drop_first() =~= d.skip(i + 1));
        }
        if names_same_path(summaries[i].root.as_str(), p) {
            return Some(summaries[i].name.clone());
        }
        i += 1;
    }
    None
}

fn item_for(summaries: &Vec<RepoSummary>, n: &TreeNode) -> (r: ListItem)
    ensures
        r.deep_view() == item_of(summaries.deep_view(), n.deep_view()),
{
    let repo = match n.annex_repo_path() {
        Some(p) => Some(p),
        None => n.loaded_repo_path(),
    };
    let repo_name = match repo {
        Some(p) => summary_name_of(summaries, p.as_str()),
        None => None,
    };
    ListItem {
        label: n.label(),
        kind: n.kind().to_string(),
        anomalous: n.anomalous(),
        trust: n.trust(),
        repo_name,
    }
}

fn items_for(summaries: &Vec<RepoSummary>, kids: &Vec<Rc<TreeNode>>) -> (r: Vec<ListItem>)
    ensures
        r.deep_view() == kids.deep_view().map_values(
            |n: NodeView| item_of(summaries.deep_view(), n),
        ),
{
    let ghost d = kids.deep_view();
    let ghost item = |n: NodeView| item_of(summaries.deep_view(), n);
    let mut list: Vec<ListItem> = Vec::new();
    let mut i: usize = 0;
    assert(list.deep_view() =~= d.take(0).map_values(item));
    while i < kids.len()
        invariant
            i <= kids@.len(),
            d == kids.deep_view(),
            item == (|n: NodeView| item_of(summaries.deep_view(), n)),
            list.deep_view() == d.take(i as int).map_values(item),
        decreases kids@.len() - i,
    {
        let ghost before = list.deep_view();
        assert(d[i as int] == kids@[i as int].deep_view());
        list.push(item_for(summaries, &*kids[i]));
        assert(list.deep_view() =~= before.push(item(d[i as int])));
        assert(d.take(i + 1).map_values(item) =~= d.take(i as int).map_values(item).push(
            item(d[i as int]),
        ));
        i += 1;
    }
    assert(d.take(i as int) =~= d);
    list
}

fn count_repos(kids: &Vec<Rc<TreeNode>>) -> (r: usize)
    ensures
        r == kids.deep_view().filter(|n: NodeView| n.kind() != "report"@).len(),
{
    let ghost d = kids.deep_view();
    let ghost keep = |n: NodeView| n.kind() != "report"@;
    let mut count: usize = 0;
    let mut i: usize = 0;
    proof {
        reveal(Seq::filter);
        assert(d.take(0).filter(keep).len() == 0);
    }
    while i < kids.len()
        invariant
            i <= kids@.len(),
            d == kids.deep_view(),
            keep == (|n: NodeView| n.kind() != "report"@),
            count == d.take(i as int).filter(keep).len(),
            count <= i,
        decreases kids@.len() - i,
    {
        proof {
            reveal(Seq::filter);
            assert(d.take(i + 1).drop_last() =~= d.take(i as int));
            assert(d.take(i + 1).last() == d[i as int]);
            assert(d[i as int] == kids@[i as int].deep_view());
        }
        if !same_text(kids[i].kind(), "report") {
            count = count + 1;
        }
        i += 1;
    }
    assert(d.take(i as int) =~= d);
    count
}

fn details_for(summaries: &Vec<RepoSummary>) -> (r: Vec<VisualRepoDetail>)
    ensures
        r.deep_view() == summaries.deep_view().map_values(|s: SummaryView| detail_of(s)),
{
    let ghost d = summaries.deep_view();
    let ghost detail = |s: SummaryView| detail_of(s);
    let mut list: Vec<VisualRepoDetail> = Vec::new();
    let mut i: usize = 0;
    assert(list.deep_view() =~= d.take(0).map_values(detail));
    while i < summaries.len()
        invariant
            i <= summaries@.len(),
            d == summaries.deep_view(),
            detail == (|s: SummaryView| detail_of(s)),
            list.deep_view() == d.take(i as int).map_values(detail),
        decreases summaries@.len() - i,
    {
        let ghost before = list.deep_view();
        list.push(VisualRepoDetail::from_summary(&summaries[i]));
        assert(list.deep_view() =~= before.push(detail(d[i as int])));
        assert(d.take(i + 1).map_values(detail) =~= d.take(i as int).map_values(detail).push(
            detail(d[i as int]),
        ));
        i += 1;
    }
    assert(d.take(i as int) =~= d);
    list
}

impl App {
    /// The labels of the nodes that were entered.
    fn crumb(&self) -> (r: Vec<String>)
        ensures
            r.deep_view() == self.deep_view().stack.map_values(|l: LevelView| l.node.label()),
    {
        let ghost d = self.stack.deep_view();
        let ghost label = |l: LevelView| l.node.label();
        let mut crumb = no_rows();
        let mut i: usize = 0;
        assert(crumb.deep_view() =~= d.take(0).map_values(label));
        while i < self.stack.len()
            invariant
                i <= self.stack@.len(),
                d == self.stack.deep_view(),
                label == (|l: LevelView| l.node.label()),
                crumb.deep_view() == d.take(i as int).map_values(label),
            decreases self.stack@.len() - i,
        {
            assert(d[i as int] == self.stack@[i as int].deep_view());
            push_row(&mut crumb, self.stack[i].node.label());
            assert(d.take(i + 1).map_values(label) =~= d.take(i as int).map_values(label).push(
                label(d[i as int]),
            ));
            i += 1;
        }
        assert(d.take(i as int) =~= d);
        crumb
    }

    /// The row that is shown as selected, among the children of what is shown.
    fn selected_row(&self, kids: &Vec<Rc<TreeNode>>) -> (r: usize)
        requires
            self.deep_view().wf(),
            kids.deep_view() == self.deep_view().current().node.children(),
        ensures
            r == self.deep_view().shown_row(),
            r < kids@.len() || kids@.len() == 0,
    {
        let selected: usize = self.stack[self.stack.len() - 1].selected;
        assert(kids.deep_view().len() == kids@.len());
        if kids.len() == 0 {
            0
        } else if selected < kids.len() {
            selected
        } else {
            kids.len() - 1
        }
    }

    /// The repository and the key that git-annex is to be asked about for the details of what
    /// is selected.
    pub fn live_query(&self) -> (r: Option<(String, String)>)
        requires
            self.deep_view().wf(),
        ensures
            r.deep_view() == (match self.deep_view().selected_node() {
                Some(n) => n.live_query(),
                None => None,
            }),
    {
        let kids = self.stack[self.stack.len() - 1].node.children();
        let i: usize = self.selected_row(&kids);
        if i < kids.len() {
            assert(kids.deep_view()[i as int] == kids@[i as int].deep_view());
            kids[i].live_query()
        } else {
            None
        }
    }

    /// Whether the sizes of all repositories can be counted.
    pub fn can_snapshot(&self) -> (r: bool)
        ensures
            r == totals_fit(self.deep_view().summaries),
    {
        summary_totals(&self.summaries).is_some()
    }

    /// What the views show. `live` is what git-annex answers about the selected file, `usage`
    /// what each drive holds over all repositories.
    pub fn snapshot(
        &self,
        _page: usize,
        live: &StrSet,
        usage: &Vec<(String, u64, usize, usize)>,
    ) -> (r: ViewSnapshot)
        requires
            self.deep_view().wf(),
            totals_fit(self.deep_view().summaries),
        ensures
            r.deep_view() == self.deep_view().snapshot(live@, usage.deep_view()),
    {
        let kids = self.stack[self.stack.len() - 1].node.children();
        let selected: usize = self.selected_row(&kids);
        let details = if selected < kids.len() {
            assert(kids.deep_view()[selected as int] == kids@[selected as int].deep_view());
            kids[selected].details(live)
        } else {
            let mut d = no_rows();
            push_row(&mut d, "no selection".to_string());
            d
        };
        let raw = if selected < kids.len() {
            kids[selected].raw_text()
        } else {
            None
        };
        let list = items_for(&self.summaries, &kids);
        let visual = Some(VisualReport::from_summaries(&self.summaries, usage));
        let top = self.stack[0].node.children();
        let r = ViewSnapshot {
            crumb: self.crumb(),
            list,
            selected,
            details,
            raw,
            visual,
            repo_visuals: details_for(&self.summaries),
            status: self.status.clone(),
            total_repos: count_repos(&top),
            scanning: self.scanning,
        };
        assert(r.deep_view() =~= self.deep_view().snapshot(live@, usage.deep_view()));
        r
    }
}

/// The row that is shown as selected is a row of the list, unless that is empty.
pub proof fn law_snapshot_selects_a_row(
    a: AppView,
    live: Set<Text>,
    usage: Seq<(Text, u64, usize, usize)>,
)
    requires
        a.wf(),
    ensures
        a.snapshot(live, usage).list.len() > 0 ==> a.snapshot(live, usage).selected < a.snapshot(
            live,
            usage,
        ).list.len(),
        a.snapshot(live, usage).list.len() == a.current().node.children().len(),
        a.snapshot(live, usage).crumb.len() == a.stack.len(),
{
}

} // verus!
