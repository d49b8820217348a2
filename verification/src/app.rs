//! The state of the browser, and what commands do to it.

use std::rc::Rc;
use vstd::prelude::*;
use crate::annex::{bare_summary, can_size, named, sized, summary_of, AnnexMetadata, AnnexedFile, FileView, MetaView, RepoSummary, SummaryView};
use crate::node::{NodeView, RepoLoadingNode, RepoNode, RootNode, FilesOnDriveNode, TreeNode};
use crate::paths::{names_same_path, same_path};
use crate::profile::{count_drives, profiles_of, DriveProfile, ProfileView};
use crate::table::{distinct_paths, is_entry, path_index, path_value, with_path, Dup, PathMap, StrMap};
use crate::text::{count_text, decimal, labelled, same_text, Text};
use crate::tree::{law_only_directories_have_a_way_up, law_only_the_top_leads_to_repositories, Node};

verus! {

// ---------------------------------------------------------------------------------------
// State

/// What the user can ask for.
#[derive(Debug, Clone, Copy, PartialEq, Eq, Structural)]
pub enum Command {
    Quit,
    Up,
    Down,
    PageUp,
    PageDown,
    Top,
    Bottom,
    Descend,
    Back,
    Refresh,
    ToggleHelp,
    ToggleRaw,
    Select(usize),
    Nothing,
}

/// A node that was entered, and which of its children is selected.
pub struct Level {
    pub node: Rc<TreeNode>,
    pub selected: usize,
}

/// What a [`Level`] stands for.
#[verifier::ext_equal]
pub ghost struct LevelView {
    pub node: NodeView,
    pub selected: usize,
}

impl DeepView for Level {
    type V = LevelView;

    open spec fn deep_view(&self) -> LevelView {
        LevelView { node: self.node.deep_view(), selected: self.selected }
    }
}

/// The state of the browser.
pub struct App {
    /// The nodes that were entered, from the top down; the last one is shown.
    pub stack: Vec<Level>,
    /// The directory that is scanned.
    pub root_path: String,
    pub status: String,
    /// The metadata of the repositories that are loaded.
    pub preloaded: PathMap<Rc<AnnexMetadata>>,
    /// What the list shows of the repositories.
    pub summaries: Vec<RepoSummary>,
    /// The repositories that are still to be loaded.
    pub to_hydrate: Vec<String>,
    /// How the drives of each name are set up across all repositories.
    pub drive_profiles: Rc<StrMap<DriveProfile>>,
    /// Whether repositories are still being loaded.
    pub scanning: bool,
    /// The selections of levels that are still to be entered again after a repository was
    /// loaded anew.
    pub replay: Vec<usize>,
    /// The levels that are put on top once those have been entered again.
    pub held: Vec<Level>,
}

/// What a [`App`] stands for.
#[verifier::ext_equal]
pub ghost struct AppView {
    pub stack: Seq<LevelView>,
    pub root_path: Text,
    pub status: Text,
    pub preloaded: Seq<(Text, MetaView)>,
    pub summaries: Seq<SummaryView>,
    pub to_hydrate: Seq<Text>,
    pub profiles: Map<Text, ProfileView>,
    pub scanning: bool,
    pub replay: Seq<usize>,
    pub held: Seq<LevelView>,
}

impl DeepView for App {
    type V = AppView;

    open spec fn deep_view(&self) -> AppView {
        AppView {
            stack: self.stack.deep_view(),
            root_path: self.root_path@,
            status: self.status@,
            preloaded: self.preloaded@,
            summaries: self.summaries.deep_view(),
            to_hydrate: self.to_hydrate.deep_view(),
            profiles: self.drive_profiles.deep_view(),
            scanning: self.scanning,
            replay: self.replay@,
            held: self.held.deep_view(),
        }
    }
}

/// Whether a node may stand at that place of the stack, above the bottom.
pub open spec fn fits_at(n: NodeView, i: int) -> bool {
    &&& !(n is Root)
    &&& !(n is Summary)
    &&& (n is Loading ==> i == 1)
}

impl AppView {
    /// The stack is never empty, the top of the tree is at its bottom and nowhere else, and a
    /// repository is being loaded only directly above that. Only loaded repositories are held.
    pub open spec fn wf(self) -> bool {
        &&& self.stack.len() > 0
        &&& self.stack[0].node is Root
        &&& forall|i: int| 0 < i < self.stack.len() ==> fits_at((#[trigger] self.stack[i]).node, i)
        &&& forall|i: int| 0 <= i < self.held.len() ==> (#[trigger] self.held[i]).node is Repo
    }
}

/// The state before anything was found.
pub open spec fn new_app(root: Text) -> AppView {
    AppView {
        stack: seq![
            LevelView {
                node: NodeView::Root { scan_root: root, summaries: Seq::empty() },
                selected: 0,
            },
        ],
        root_path: root,
        status: "scanning for git annex repos..."@,
        preloaded: Seq::empty(),
        summaries: Seq::empty(),
        to_hydrate: Seq::empty(),
        profiles: Map::empty(),
        scanning: false,
        replay: Seq::empty(),
        held: Seq::empty(),
    }
}

// ---------------------------------------------------------------------------------------
// Moving about

/// The last row of a list of `n` rows; that of an empty one counts as the first.
pub open spec fn last_row(n: nat) -> nat {
    if n > 0 {
        (n - 1) as nat
    } else {
        0
    }
}

/// The smaller of two numbers.
pub open spec fn least(a: nat, b: nat) -> nat {
    if a <= b {
        a
    } else {
        b
    }
}

impl AppView {
    /// What is shown.
    pub open spec fn current(self) -> LevelView {
        self.stack.last()
    }

    /// The row `i` of what is shown is selected.
    pub open spec fn selecting(self, i: nat) -> AppView {
        AppView {
            stack: self.stack.update(
                self.stack.len() - 1,
                LevelView { node: self.current().node, selected: i as usize },
            ),
            ..self
        }
    }

    /// The node is entered.
    pub open spec fn entering(self, node: NodeView) -> AppView {
        let selected = node.initial_selected() as usize;
        AppView { stack: self.stack.push(LevelView { node, selected }), ..self }
    }

    /// What is shown is left, unless it is the top.
    pub open spec fn left(self) -> AppView {
        if self.stack.len() > 1 {
            AppView { stack: self.stack.drop_last(), ..self }
        } else {
            self
        }
    }

    /// The last row of what is shown.
    pub open spec fn bottom(self) -> nat {
        last_row(self.current().node.children().len())
    }

    /// What a command does, where a page has `page` rows. Levels that still wait to be entered
    /// are given up.
    pub open spec fn executed(self, cmd: Command, page: usize) -> AppView {
        let a = AppView { replay: Seq::empty(), held: Seq::empty(), ..self };
        let selected = self.current().selected as nat;
        let rows = if page > 0 {
            page as nat
        } else {
            1
        };
        match cmd {
            Command::Nothing | Command::Quit | Command::ToggleHelp | Command::ToggleRaw => a,
            Command::Select(i) => a.selecting(least(i as nat, a.bottom())),
            Command::Up => if selected > 0 {
                a.selecting((selected - 1) as nat)
            } else {
                a
            },
            Command::Down => if selected < a.bottom() {
                a.selecting(selected + 1)
            } else {
                a
            },
            Command::PageUp => a.selecting(
                if selected > rows {
                    (selected - rows) as nat
                } else {
                    0
                },
            ),
            Command::PageDown => a.selecting(least(selected + rows, a.bottom())),
            Command::Top => a.selecting(0),
            Command::Bottom => a.selecting(a.bottom()),
            Command::Back => a.left(),
            Command::Descend => a.descended(),
            Command::Refresh => a.refreshed(),
        }
    }

    /// The selected node is entered. A repository that is not loaded yet is shown as loading,
    /// and the way up leads back.
    pub open spec fn descended(self) -> AppView {
        let kids = self.current().node.children();
        let i = self.current().selected as int;
        if i >= kids.len() || kids[i].kind() == "report"@ || kids[i].kind() == "viz"@ {
            self
        } else if kids[i].kind() == "parent"@ {
            self.left()
        } else {
            match kids[i].annex_repo_path() {
                Some(p) => match path_value(self.preloaded, p) {
                    Some(meta) => AppView {
                        status: "preloaded"@,
                        ..self.entering(NodeView::Repo { meta, profiles: self.profiles })
                    },
                    None => AppView {
                        status: "loading "@ + p + " ..."@,
                        ..self.entering(NodeView::Loading { path: p })
                    },
                },
                None => self.entering(kids[i]),
            }
        }
    }

    /// Back at the top, with the first row selected.
    pub open spec fn refreshed(self) -> AppView {
        AppView {
            status: "refreshing..."@,
            stack: seq![LevelView { node: self.stack[0].node, selected: 0 }],
            ..self
        }
    }
}

fn last_row_of(n: usize) -> (r: usize)
    ensures
        r == last_row(n as nat),
{
    if n > 0 {
        n - 1
    } else {
        0
    }
}

fn least_of(a: usize, b: usize) -> (r: usize)
    ensures
        r == least(a as nat, b as nat),
{
    if a <= b {
        a
    } else {
        b
    }
}

impl App {
    /// The state before anything was found.
    pub fn new(scan_root: String) -> (r: App)
        ensures
            r.deep_view() == new_app(scan_root@),
            r.deep_view().wf(),
    {
        let root = RootNode::new(scan_root.clone());
        let mut stack: Vec<Level> = Vec::new();
        stack.push(Level { node: Rc::new(TreeNode::Root(root)), selected: 0 });
        let r = App {
            stack,
            root_path: scan_root,
            status: "scanning for git annex repos...".to_string(),
            preloaded: PathMap::new(),
            summaries: Vec::new(),
            to_hydrate: Vec::new(),
            drive_profiles: Rc::new(StrMap::new()),
            scanning: false,
            replay: Vec::new(),
            held: Vec::new(),
        };
        assert(r.deep_view() =~= new_app(scan_root@));
        r
    }

    fn current_level(&self) -> (r: &Level)
        requires
            self.deep_view().stack.len() > 0,
        ensures
            r.deep_view() == self.deep_view().current(),
    {
        &self.stack[self.stack.len() - 1]
    }

    /// The last row of what is shown.
    fn bottom_row(&self) -> (r: usize)
        requires
            self.deep_view().stack.len() > 0,
        ensures
            r == self.deep_view().bottom(),
    {
        let kids = self.current_level().node.children();
        assert(kids.deep_view().len() == kids@.len());
        last_row_of(kids.len())
    }

    fn select(&mut self, i: usize)
        requires
            old(self).deep_view().stack.len() > 0,
        ensures
            final(self).deep_view() == old(self).deep_view().selecting(i as nat),
    {
        let ghost before = self.deep_view();
        let n: usize = self.stack.len();
        let node = self.stack[n - 1].node.dup();
        self.stack.set(n - 1, Level { node, selected: i });
        assert(self.deep_view() =~= before.selecting(i as nat));
    }

    fn enter(&mut self, node: Rc<TreeNode>)
        ensures
            final(self).deep_view() == old(self).deep_view().entering(node.deep_view()),
    {
        let ghost before = self.deep_view();
        let selected: usize = node.initial_selected();
        self.stack.push(Level { node, selected });
        assert(self.deep_view() =~= before.entering(node.deep_view()));
    }

    /// Carries a command out. A page has `page` rows.
    pub fn execute(&mut self, cmd: Command, page: usize)
        requires
            old(self).deep_view().wf(),
        ensures
            final(self).deep_view() == old(self).deep_view().executed(cmd, page),
            final(self).deep_view().wf(),
    {
        let ghost before = self.deep_view();
        self.replay = Vec::new();
        self.held = Vec::new();
        let ghost a = AppView { replay: Seq::empty(), held: Seq::empty(), ..before };
        assert(self.deep_view() =~= a);
        let selected: usize = self.current_level().selected;
        let rows: usize = if page > 0 {
            page
        } else {
            1
        };
        proof {
            law_commands_keep_shape(before, cmd, page);
        }
        match cmd {
            Command::Nothing | Command::Quit | Command::ToggleHelp | Command::ToggleRaw => {},
            Command::Select(i) => {
                let bottom: usize = self.bottom_row();
                self.select(least_of(i, bottom));
            },
            Command::Up => {
                if selected > 0 {
                    self.select(selected - 1);
                }
            },
            Command::Down => {
                if selected < self.bottom_row() {
                    self.select(selected + 1);
                }
            },
            Command::PageUp => {
                self.select(
                    if selected > rows {
                        selected - rows
                    } else {
                        0
                    },
                );
            },
            Command::PageDown => {
                let bottom: usize = self.bottom_row();
                let down: usize = match selected.checked_add(rows) {
                    Some(n) => least_of(n, bottom),
                    None => bottom,
                };
                self.select(down);
            },
            Command::Top => {
                self.select(0);
            },
            Command::Bottom => {
                let bottom: usize = self.bottom_row();
                self.select(bottom);
            },
            Command::Back => {
                self.leave();
            },
            Command::Descend => {
                self.descend();
            },
            Command::Refresh => {
                self.refresh();
            },
        }
    }

    /// Leaves what is shown, unless it is the top.
    fn leave(&mut self)
        ensures
            final(self).deep_view() == old(self).deep_view().left(),
    {
        let ghost before = self.deep_view();
        if self.stack.len() > 1 {
            self.stack.pop();
        }
        assert(self.deep_view() =~= before.left());
    }

    fn descend(&mut self)
        requires
            old(self).deep_view().wf(),
        ensures
            final(self).deep_view() == old(self).deep_view().descended(),
    {
        let ghost before = self.deep_view();
        let level = self.current_level();
        let kids = level.node.children();
        let i: usize = level.selected;
        if i >= kids.len() {
            return;
        }
        let child = kids[i].dup();
        assert(child.deep_view() == kids.deep_view()[i as int]);
        if same_text(child.kind(), "report") || same_text(child.kind(), "viz") {
            return;
        }
        if same_text(child.kind(), "parent") {
            self.leave();
            return;
        }
        match child.annex_repo_path() {
            Some(p) => {
                match self.preloaded.get(p.as_str()) {
                    Some(meta) => {
                        let node = RepoNode::new(meta.dup()).with_profiles(
                            self.drive_profiles.dup(),
                        );
                        self.enter(Rc::new(TreeNode::Repo(node)));
                        self.status = "preloaded".to_string();
                        assert(self.deep_view() =~= before.descended());
                    },
                    None => {
                        let path = p.clone();
                        let node = RepoLoadingNode { path };
                        self.status = labelled("loading ", p.as_str()).concat(" ...");
                        self.enter(Rc::new(TreeNode::Loading(node)));
                        assert(self.deep_view() =~= before.descended());
                    },
                }
            },
            None => {
                self.enter(child);
            },
        }
    }

    /// Goes back to the top, with the first row selected.
    fn refresh(&mut self)
        requires
            old(self).deep_view().wf(),
        ensures
            final(self).deep_view() == old(self).deep_view().refreshed(),
    {
        let ghost before = self.deep_view();
        self.status = "refreshing...".to_string();
        self.stack.truncate(1);
        let node = self.stack[0].node.dup();
        self.stack.set(0, Level { node, selected: 0 });
        assert(self.deep_view() =~= before.refreshed());
    }
}

// ---------------------------------------------------------------------------------------
// Taking in what was found

/// The first node that is a report.
pub open spec fn first_report(nodes: Seq<NodeView>) -> Option<NodeView>
    decreases nodes.len(),
{
    if nodes.len() == 0 {
        None
    } else if nodes[0].kind() == "report"@ {
        Some(nodes[0])
    } else {
        first_report(nodes.drop_first())
    }
}

/// The summaries with `s` in the place of the one of the same repository, or at the end.
pub open spec fn with_summary(list: Seq<SummaryView>, s: SummaryView) -> Seq<SummaryView>
    decreases list.len(),
{
    if list.len() == 0 {
        seq![s]
    } else if same_path(list[0].root, s.root) {
        list.update(0, s)
    } else {
        seq![list[0]] + with_summary(list.drop_first(), s)
    }
}

/// Whether the level is the loaded repository `root`.
pub open spec fn is_open(level: LevelView, root: Text) -> bool {
    match level.node.loaded_repo_path() {
        Some(p) => same_path(p, root),
        None => false,
    }
}

/// The first level that is the loaded repository `root`; as many as there are where none is.
pub open spec fn open_level(stack: Seq<LevelView>, root: Text) -> nat
    decreases stack.len(),
{
    if stack.len() == 0 || is_open(stack[0], root) {
        0
    } else {
        1 + open_level(stack.drop_first(), root)
    }
}

/// The selection of a level that is entered again: as before, as far as there are rows. A
/// level whose rows git-annex is still to be asked for keeps it for then.
pub open spec fn selection_in(node: NodeView, selected: usize) -> usize {
    if node.listing_query() is Some {
        selected
    } else {
        least(selected as nat, last_row(node.children().len())) as usize
    }
}

/// The stack after the levels with the selections `rest` were entered again, as far as that
/// can go without asking git-annex, and the selections that are left.
pub open spec fn replayed(stack: Seq<LevelView>, rest: Seq<usize>) -> (Seq<LevelView>, Seq<usize>)
    decreases rest.len(),
{
    let level = stack.last();
    let kids = level.node.children();
    if rest.len() == 0 || level.node.listing_query() is Some {
        (stack, rest)
    } else if kids.len() == 0 {
        (stack, Seq::empty())
    } else {
        let i = least(level.selected as nat, last_row(kids.len()));
        let clamped = stack.update(
            stack.len() - 1,
            LevelView { node: level.node, selected: i as usize },
        );
        let child = kids[i as int];
        replayed(
            clamped.push(LevelView { node: child, selected: selection_in(child, rest[0]) }),
            rest.drop_first(),
        )
    }
}

impl AppView {
    /// The top of the tree shows the summaries.
    pub open spec fn root_refreshed(self) -> AppView {
        let root = NodeView::Root { scan_root: self.root_path, summaries: self.summaries };
        let i = least(self.stack[0].selected as nat, last_row(root.children().len()));
        let stack = self.stack.update(0, LevelView { node: root, selected: i as usize });
        let refreshed = if stack.len() >= 2 && stack[1].node.kind() == "report"@ {
            match first_report(root.children()) {
                Some(n) => stack.update(1, LevelView { node: n, selected: stack[1].selected }),
                None => stack,
            }
        } else {
            stack
        };
        AppView { stack: refreshed, ..self }
    }

    /// The summary of a repository is taken in.
    pub open spec fn summary_applied(self, s: SummaryView) -> AppView {
        AppView { summaries: with_summary(self.summaries, named(s)), ..self }.root_refreshed()
    }

    /// The profiles are counted from what is loaded.
    pub open spec fn profiled(self) -> AppView {
        AppView { profiles: profiles_of(self.preloaded), ..self }
    }

    /// A repository that is open is shown as it is loaded now, and the levels below it are
    /// entered again.
    pub open spec fn repo_replaced(self, root: Text) -> AppView {
        let n = open_level(self.stack, root);
        if n >= self.stack.len() {
            self
        } else {
            let kept = self.stack.take(n as int);
            let selections = self.stack.skip(n as int).map_values(|l: LevelView| l.selected);
            match path_value(self.preloaded, root) {
                Some(meta) => {
                    let node = NodeView::Repo { meta, profiles: self.profiles };
                    let (stack, rest) = replayed(
                        kept.push(LevelView { node, selected: selections[0] }),
                        selections.drop_first(),
                    );
                    AppView { stack, replay: rest, ..self }
                },
                None => AppView { stack: kept, ..self },
            }
        }
    }

    /// The metadata of a repository is taken in.
    pub open spec fn ingested(self, meta: MetaView) -> AppView {
        let m = sized(meta);
        AppView { preloaded: with_path(self.preloaded, m.root, m), ..self }.summary_applied(
            summary_of(m),
        ).profiled().repo_replaced(m.root)
    }

    /// What is shown is left if it is a repository that is being loaded.
    pub open spec fn loading_left(self) -> AppView {
        if self.current().node.loading_path() is Some {
            self.left()
        } else {
            self
        }
    }

    /// Whether some level is the loaded repository `root`.
    pub open spec fn shows(self, root: Text) -> bool {
        open_level(self.stack, root) < self.stack.len()
    }

    /// A repository is loaded, and is entered: in the place where it was loading, else above
    /// what is shown. Where levels of that repository are still to be entered again, it is held
    /// until that is done.
    pub open spec fn repo_installed(self, meta: MetaView) -> AppView {
        let left = self.loading_left();
        let a = left.ingested(meta);
        let node = NodeView::Repo {
            meta: path_value(a.preloaded, meta.root)->0,
            profiles: a.profiles,
        };
        let b = if left.shows(meta.root) && a.replay.len() > 0 {
            AppView { held: a.held.push(LevelView { node, selected: 0 }), ..a }
        } else {
            a.entering(node)
        };
        AppView { status: "loaded"@, ..b }.root_refreshed()
    }

    /// The repositories `repos` were found. Where nothing is known of any, they are listed by
    /// their directories.
    pub open spec fn discovered(self, repos: Seq<Text>) -> AppView {
        let listed = if self.summaries.len() == 0 {
            AppView { summaries: repos.map_values(|p: Text| bare_summary(p)), ..self }
        } else {
            self
        };
        AppView {
            status: "found "@ + decimal(repos.len()) + " annex repos ("@ + decimal(
                self.preloaded.len(),
            ) + " cached)"@,
            ..listed.root_refreshed()
        }
    }

    /// git-annex has answered which files are on the drive that is shown. Levels that waited
    /// for that are entered again, and what was held is put on top when all are.
    pub open spec fn listing_installed(self, files: Seq<FileView>) -> AppView {
        let node = self.current().node.with_listing(files);
        let i = least(self.current().selected as nat, last_row(node.children().len()));
        let (stack, rest) = replayed(
            self.stack.update(
                self.stack.len() - 1,
                LevelView { node, selected: i as usize },
            ),
            self.replay,
        );
        if rest.len() == 0 {
            AppView { stack: stack + self.held, replay: rest, held: Seq::empty(), ..self }
        } else {
            AppView { stack, replay: rest, ..self }
        }
    }
}

proof fn lemma_with_summary(list: Seq<SummaryView>, s: SummaryView, i: int)
    requires
        0 <= i <= list.len(),
        forall|j: int| 0 <= j < i ==> !same_path((#[trigger] list[j]).root, s.root),
        i < list.len() ==> same_path(list[i].root, s.root),
    ensures
        with_summary(list, s) == (if i < list.len() {
            list.update(i, s)
        } else {
            list.push(s)
        }),
    decreases i,
{
    if i > 0 {
        let rest = list.drop_first();
        assert forall|j: int| 0 <= j < i - 1 implies !same_path((#[trigger] rest[j]).root, s.root) by {
            assert(rest[j] == list[j + 1]);
        }
        assert(i < list.len() ==> rest[i - 1] == list[i]);
        lemma_with_summary(rest, s, i - 1);
        if i < list.len() {
            assert(seq![list[0]] + rest.update(i - 1, s) =~= list.update(i, s));
        } else {
            assert(seq![list[0]] + rest.push(s) =~= list.push(s));
        }
    } else if list.len() == 0 {
        assert(seq![s] =~= list.push(s));
    }
}

proof fn lemma_open_level(stack: Seq<LevelView>, root: Text, i: int)
    requires
        0 <= i <= stack.len(),
        forall|j: int| 0 <= j < i ==> !is_open(#[trigger] stack[j], root),
        i < stack.len() ==> is_open(stack[i], root),
    ensures
        open_level(stack, root) == i,
    decreases i,
{
    if i > 0 {
        let rest = stack.drop_first();
        assert forall|j: int| 0 <= j < i - 1 implies !is_open(#[trigger] rest[j], root) by {
            assert(rest[j] == stack[j + 1]);
        }
        assert(i < stack.len() ==> rest[i - 1] == stack[i]);
        lemma_open_level(rest, root, i - 1);
    }
}

/// Entering levels again leaves the bottom of the stack as it is.
proof fn lemma_replayed(stack: Seq<LevelView>, rest: Seq<usize>)
    requires
        stack.len() > 0,
    ensures
        replayed(stack, rest).0.len() >= stack.len(),
        replayed(stack, rest).0[0].node == stack[0].node,
    decreases rest.len(),
{
    let level = stack.last();
    let kids = level.node.children();
    if !(rest.len() == 0 || level.node.listing_query() is Some || kids.len() == 0) {
        let i = least(level.selected as nat, last_row(kids.len()));
        let clamped = stack.update(
            stack.len() - 1,
            LevelView { node: level.node, selected: i as usize },
        );
        let child = kids[i as int];
        let next = clamped.push(
            LevelView { node: child, selected: selection_in(child, rest[0]) },
        );
        assert(next[0].node == stack[0].node);
        lemma_replayed(next, rest.drop_first());
    }
}

impl App {
    /// Shows the summaries at the top of the tree.
    pub fn refresh_root_view(&mut self)
        requires
            old(self).deep_view().wf(),
        ensures
            final(self).deep_view() == old(self).deep_view().root_refreshed(),
            final(self).deep_view().wf(),
    {
        let ghost before = self.deep_view();
        proof {
            law_refresh_keeps_levels(before);
        }
        let root = TreeNode::Root(
            RootNode { scan_root: self.root_path.clone(), summaries: self.summaries.dup() },
        );
        let kids = root.children();
        assert(kids.deep_view().len() == kids@.len());
        let i: usize = least_of(self.stack[0].selected, last_row_of(kids.len()));
        self.stack.set(0, Level { node: Rc::new(root), selected: i });
        let ghost stack = self.stack.deep_view();
        assert(stack =~= before.stack.update(
            0,
            LevelView { node: root.deep_view(), selected: i },
        ));
        if self.stack.len() >= 2 && same_text(self.stack[1].node.kind(), "report") {
            assert(stack[1] == self.stack@[1].deep_view());
            let ghost d = kids.deep_view();
            let mut k: usize = 0;
            assert(d.skip(0) =~= d);
            while k < kids.len() && !same_text(kids[k].kind(), "report")
                invariant
                    k <= kids@.len(),
                    d == kids.deep_view(),
                    first_report(d) == first_report(d.skip(k as int)),
                decreases kids@.len() - k,
            {
                assert(d[k as int] == kids@[k as int].deep_view());
                assert(d.skip(k as int)[0] == d[k as int]);
                assert(d.skip(k as int).drop_first() =~= d.skip(k + 1));
                k += 1;
            }
            if k < kids.len() {
                assert(d[k as int] == kids@[k as int].deep_view());
                assert(d.skip(k as int)[0] == d[k as int]);
                let selected: usize = self.stack[1].selected;
                self.stack.set(1, Level { node: kids[k].dup(), selected });
                assert(self.stack.deep_view() =~= stack.update(
                    1,
                    LevelView { node: d[k as int], selected },
                ));
            }
        }
        assert(self.deep_view() =~= before.root_refreshed());
    }

    /// Takes the summary of a repository in.
    pub fn apply_summary(&mut self, s: RepoSummary)
        requires
            old(self).deep_view().wf(),
        ensures
            final(self).deep_view() == old(self).deep_view().summary_applied(s.deep_view()),
            final(self).deep_view().wf(),
    {
        let ghost before = self.deep_view();
        let mut s = s;
        s.ensure_name();
        let ghost d = self.summaries.deep_view();
        let ghost v = s.deep_view();
        let mut i: usize = 0;
        while i < self.summaries.len() && !names_same_path(
            self.summaries[i].root.as_str(),
            s.root.as_str(),
        )
            invariant
                i <= self.summaries@.len(),
                d == self.summaries.deep_view(),
                v == s.deep_view(),
                forall|j: int| 0 <= j < i ==> !same_path((#[trigger] d[j]).root, v.root),
            decreases self.summaries@.len() - i,
        {
            assert(d[i as int] == self.summaries@[i as int].deep_view());
            i += 1;
        }
        proof {
            if i < d.len() {
                assert(d[i as int] == self.summaries@[i as int].deep_view());
            }
            lemma_with_summary(d, v, i as int);
        }
        if i < self.summaries.len() {
            self.summaries.set(i, s);
            assert(self.summaries.deep_view() =~= d.update(i as int, v));
        } else {
            self.summaries.push(s);
            assert(self.summaries.deep_view() =~= d.push(v));
        }
        assert(self.deep_view() =~= AppView { summaries: with_summary(d, v), ..before });
        self.refresh_root_view();
    }

    /// Counts the profiles of the drives from all that is loaded.
    pub fn recompute_drive_profiles(&mut self)
        ensures
            final(self).deep_view() == old(self).deep_view().profiled(),
    {
        let ghost before = self.deep_view();
        let n: usize = self.preloaded.len();
        let ghost p = self.preloaded@;
        let mut profiles: StrMap<DriveProfile> = StrMap::new();
        let mut i: usize = 0;
        while i < n
            invariant
                i <= n,
                n == p.len(),
                p == self.preloaded@,
                profiles@ == profiles_of(p.take(i as int)),
            decreases n - i,
        {
            proof {
                assert(p.take(i + 1).drop_last() =~= p.take(i as int));
                assert(p.take(i + 1).last() == p[i as int]);
            }
            let meta = self.preloaded.value_at(i);
            count_drives(&mut profiles, &**meta);
            i += 1;
        }
        assert(p.take(i as int) =~= p);
        self.drive_profiles = Rc::new(profiles);
        assert(self.deep_view() =~= before.profiled());
    }

    /// Enters levels again, as far as that can go without asking git-annex.
    fn replay_levels(&mut self)
        requires
            old(self).deep_view().wf(),
            old(self).deep_view().stack.len() > 1,
        ensures
            ({
                let before = old(self).deep_view();
                let (stack, rest) = replayed(before.stack, before.replay);
                final(self).deep_view() == (AppView { stack, replay: rest, ..before })
            }),
            final(self).deep_view().wf(),
    {
        let ghost before = self.deep_view();
        let ghost all = self.replay@;
        let mut done: usize = 0;
        assert(all.skip(0) =~= all);
        proof {
            lemma_replayed(before.stack, before.replay);
            lemma_replayed_keeps_shape(before, before.replay);
        }
        loop
            invariant
                done <= self.replay@.len(),
                all == self.replay@,
                self.deep_view().stack.len() > 0,
                self.deep_view() == (AppView { stack: self.stack.deep_view(), ..before }),
                before.replay == all,
                replayed(before.stack, all) == replayed(
                    self.stack.deep_view(),
                    all.skip(done as int),
                ),
                replayed(before.stack, all).0.len() > 0,
                replayed(before.stack, all).0[0].node is Root,
            ensures
                done <= self.replay@.len(),
                all == self.replay@,
                self.deep_view() == (AppView { stack: self.stack.deep_view(), ..before }),
                before.replay == all,
                replayed(before.stack, all).0 == self.stack.deep_view(),
                replayed(before.stack, all).1 == all.skip(done as int),
            decreases self.replay@.len() - done,
        {
            let ghost stack = self.stack.deep_view();
            let level = self.current_level();
            if done == self.replay.len() || level.node.listing_query().is_some() {
                break;
            }
            let kids = level.node.children();
            let ghost d = kids.deep_view();
            if kids.len() == 0 {
                assert(all.skip(all.len() as int) =~= Seq::<usize>::empty());
                done = self.replay.len();
                break;
            }
            let i: usize = least_of(level.selected, kids.len() - 1);
            let child = kids[i].dup();
            assert(child.deep_view() == d[i as int]);
            let wanted: usize = self.replay[done];
            let selected: usize = if child.listing_query().is_some() {
                wanted
            } else {
                let rows = child.children();
                assert(rows.deep_view().len() == rows@.len());
                least_of(wanted, last_row_of(rows.len()))
            };
            proof {
                assert(all.skip(done as int)[0] == wanted);
                assert(all.skip(done as int).drop_first() =~= all.skip(done + 1));
            }
            self.select(i);
            let ghost clamped = self.stack.deep_view();
            self.stack.push(Level { node: child, selected });
            assert(self.stack.deep_view() =~= clamped.push(
                LevelView { node: child.deep_view(), selected },
            ));
            assert(self.deep_view() =~= AppView { stack: self.stack.deep_view(), ..before });
            done += 1;
        }
        let mut rest: Vec<usize> = Vec::new();
        let mut k: usize = done;
        assert(rest@ =~= all.subrange(done as int, done as int));
        while k < self.replay.len()
            invariant
                done <= k <= self.replay@.len(),
                all == self.replay@,
                rest@ == all.subrange(done as int, k as int),
            decreases self.replay@.len() - k,
        {
            rest.push(self.replay[k]);
            assert(rest@ =~= all.subrange(done as int, k + 1));
            k += 1;
        }
        assert(rest@ =~= all.skip(done as int));
        self.replay = rest;
        assert(self.deep_view() =~= AppView {
            stack: replayed(before.stack, all).0,
            replay: replayed(before.stack, all).1,
            ..before
        });
    }

    /// The first level that is the loaded repository `root`; as many as there are where none is.
    fn find_open(&self, root: &str) -> (n: usize)
        ensures
            n == open_level(self.deep_view().stack, root@),
            n <= self.stack@.len(),
            n < self.stack@.len() ==> is_open(self.deep_view().stack[n as int], root@),
    {
        let ghost d = self.stack.deep_view();
        let mut n: usize = 0;
        while n < self.stack.len()
            invariant
                n <= self.stack@.len(),
                d == self.stack.deep_view(),
                forall|j: int| 0 <= j < n ==> !is_open(#[trigger] d[j], root@),
            ensures
                n < d.len() ==> is_open(d[n as int], root@),
            decreases self.stack@.len() - n,
        {
            assert(d[n as int] == self.stack@[n as int].deep_view());
            let open: bool = match self.stack[n].node.loaded_repo_path() {
                Some(p) => names_same_path(p.as_str(), root),
                None => false,
            };
            if open {
                break;
            }
            n += 1;
        }
        proof {
            lemma_open_level(d, root@, n as int);
        }
        n
    }

    /// Shows a repository that is open as it is loaded now, and enters the levels below it
    /// again.
    pub fn replace_open_repo(&mut self, root: &str)
        requires
            old(self).deep_view().wf(),
        ensures
            final(self).deep_view() == old(self).deep_view().repo_replaced(root@),
            final(self).deep_view().wf(),
    {
        let ghost before = self.deep_view();
        let ghost d = self.stack.deep_view();
        let n: usize = self.find_open(root);
        if n >= self.stack.len() {
            return;
        }
        let mut selections: Vec<usize> = Vec::new();
        let ghost sel = |l: LevelView| l.selected;
        let mut k: usize = n;
        assert(selections@ =~= d.subrange(n as int, n as int).map_values(sel));
        while k < self.stack.len()
            invariant
                n <= k <= self.stack@.len(),
                d == self.stack.deep_view(),
                sel == (|l: LevelView| l.selected),
                selections@ == d.subrange(n as int, k as int).map_values(sel),
            decreases self.stack@.len() - k,
        {
            selections.push(self.stack[k].selected);
            assert(d[k as int] == self.stack@[k as int].deep_view());
            assert(d.subrange(n as int, k + 1) =~= d.subrange(n as int, k as int).push(
                d[k as int],
            ));
            assert(selections@ =~= d.subrange(n as int, k + 1).map_values(sel));
            k += 1;
        }
        assert(d.subrange(n as int, k as int) =~= d.skip(n as int));
        let ghost all = selections@;
        self.stack.truncate(n);
        assert(self.stack.deep_view() =~= d.take(n as int));
        assert(n > 0);
        match self.preloaded.get(root) {
            Some(meta) => {
                let node = RepoNode::new(meta.dup()).with_profiles(self.drive_profiles.dup());
                let first: usize = selections.remove(0);
                assert(selections@ =~= all.drop_first());
                let ghost kept = self.stack.deep_view();
                self.stack.push(Level { node: Rc::new(TreeNode::Repo(node)), selected: first });
                assert(self.stack.deep_view() =~= kept.push(
                    LevelView { node: node.deep_view(), selected: first },
                ));
                self.replay = selections;
                self.replay_levels();
                assert(self.deep_view() =~= before.repo_replaced(root@));
            },
            None => {
                assert(self.deep_view() =~= before.repo_replaced(root@));
            },
        }
    }

    /// Takes the metadata of a repository in.
    pub fn ingest_meta(&mut self, meta: AnnexMetadata)
        requires
            old(self).deep_view().wf(),
            can_size(meta.deep_view()),
        ensures
            final(self).deep_view() == old(self).deep_view().ingested(meta.deep_view()),
            final(self).deep_view().wf(),
    {
        let ghost before = self.deep_view();
        let mut meta = meta;
        meta.ensure_sizes();
        let ghost m = meta.deep_view();
        let sum = meta.to_summary();
        let root = meta.root.clone();
        self.preloaded.insert(root.clone(), Rc::new(meta));
        assert(self.deep_view() =~= AppView {
            preloaded: with_path(before.preloaded, m.root, m),
            ..before
        });
        self.apply_summary(sum);
        self.recompute_drive_profiles();
        self.replace_open_repo(root.as_str());
    }

    /// Enters a loaded repository, or holds it.
    fn place_loaded(&mut self, node: RepoNode, hold: bool)
        requires
            old(self).deep_view().wf(),
        ensures
            final(self).deep_view() == (if hold {
                AppView {
                    held: old(self).deep_view().held.push(
                        LevelView { node: node.deep_view(), selected: 0 },
                    ),
                    ..old(self).deep_view()
                }
            } else {
                old(self).deep_view().entering(node.deep_view())
            }),
            final(self).deep_view().wf(),
    {
        let ghost a = self.deep_view();
        let ghost view = node.deep_view();
        let entered = Rc::new(TreeNode::Repo(node));
        if hold {
            self.held.push(Level { node: entered, selected: 0 });
            assert(self.held.deep_view() =~= a.held.push(LevelView { node: view, selected: 0 }));
            assert(self.deep_view() =~= AppView {
                held: a.held.push(LevelView { node: view, selected: 0 }),
                ..a
            });
        } else {
            self.enter(entered);
        }
    }

    /// Takes the metadata of a repository in, and enters it: in the place where it is shown as
    /// loading, else above what is shown.
    pub fn install_loaded_repo(&mut self, meta: AnnexMetadata)
        requires
            old(self).deep_view().wf(),
            can_size(meta.deep_view()),
        ensures
            final(self).deep_view() == old(self).deep_view().repo_installed(meta.deep_view()),
            final(self).deep_view().wf(),
    {
        let ghost before = self.deep_view();
        proof {
            lemma_left_keeps_shape(before);
        }
        if self.current_level().node.loading_path().is_some() {
            self.leave();
        }
        let ghost left = self.deep_view();
        let root = meta.root.clone();
        let shown: bool = self.find_open(root.as_str()) < self.stack.len();
        let ghost m = meta.deep_view();
        self.ingest_meta(meta);
        proof {
            lemma_ingested_is_loaded(left, m);
        }
        let meta = match self.preloaded.get(root.as_str()) {
            Some(meta) => meta.dup(),
            None => {
                assert(false);
                return;
            },
        };
        let node = RepoNode::new(meta).with_profiles(self.drive_profiles.dup());
        let hold: bool = shown && self.replay.len() > 0;
        self.place_loaded(node, hold);
        let ghost b = self.deep_view();
        self.status = "loaded".to_string();
        assert(self.deep_view() =~= AppView { status: "loaded"@, ..b });
        self.refresh_root_view();
    }

    /// Takes in which repositories were found.
    pub fn set_discovered(&mut self, repos: &Vec<String>)
        requires
            old(self).deep_view().wf(),
        ensures
            final(self).deep_view() == old(self).deep_view().discovered(repos.deep_view()),
            final(self).deep_view().wf(),
    {
        let ghost before = self.deep_view();
        let ghost d = repos.deep_view();
        if self.summaries.len() == 0 {
            let ghost bare = |p: Text| bare_summary(p);
            let mut list: Vec<RepoSummary> = Vec::new();
            let mut i: usize = 0;
            assert(list.deep_view() =~= d.take(0).map_values(bare));
            while i < repos.len()
                invariant
                    i <= repos@.len(),
                    d == repos.deep_view(),
                    bare == (|p: Text| bare_summary(p)),
                    list.deep_view() == d.take(i as int).map_values(bare),
                decreases repos@.len() - i,
            {
                let ghost so_far = list.deep_view();
                list.push(RepoSummary::bare(&repos[i]));
                assert(list.deep_view() =~= so_far.push(bare(d[i as int])));
                assert(d.take(i + 1).map_values(bare) =~= d.take(i as int).map_values(bare).push(
                    bare(d[i as int]),
                ));
                i += 1;
            }
            assert(d.take(i as int) =~= d);
            self.summaries = list;
            assert(self.deep_view() =~= AppView { summaries: d.map_values(bare), ..before });
        }
        self.refresh_root_view();
        let ghost shown = self.deep_view();
        self.status = labelled("found ", count_text(repos.len()).as_str()).concat(
            " annex repos (",
        ).concat(count_text(self.preloaded.len()).as_str()).concat(" cached)");
        assert(self.deep_view() =~= AppView { status: self.status@, ..shown });
    }

    /// The repository and the drive that git-annex is to be asked about before what is shown
    /// can be shown.
    pub fn listing_wanted(&self) -> (r: Option<(String, String)>)
        requires
            self.deep_view().wf(),
        ensures
            r.deep_view() == self.deep_view().current().node.listing_query(),
    {
        self.current_level().node.listing_query()
    }

    /// Takes in which files git-annex lists on the drive that is shown.
    pub fn install_listing(&mut self, files: Vec<AnnexedFile>)
        requires
            old(self).deep_view().wf(),
            old(self).deep_view().current().node.listing_query() is Some,
        ensures
            final(self).deep_view() == old(self).deep_view().listing_installed(files.deep_view()),
            final(self).deep_view().wf(),
    {
        let ghost before = self.deep_view();
        let n: usize = self.stack.len();
        let level = self.current_level();
        let selected: usize = level.selected;
        let node = match &*level.node {
            TreeNode::FilesOnDrive(d) => Rc::new(
                TreeNode::FilesOnDrive(
                    FilesOnDriveNode {
                        meta: d.meta.dup(),
                        drive_uuid: d.drive_uuid.clone(),
                        drive_name: d.drive_name.clone(),
                        listing: Some(files),
                    },
                ),
            ),
            _ => level.node.dup(),
        };
        assert(node.deep_view() == before.current().node.with_listing(files.deep_view()));
        let kids = node.children();
        assert(kids.deep_view().len() == kids@.len());
        let i: usize = least_of(selected, last_row_of(kids.len()));
        self.stack.set(n - 1, Level { node, selected: i });
        assert(self.stack.deep_view() =~= before.stack.update(
            n - 1,
            LevelView { node: node.deep_view(), selected: i },
        ));
        assert(self.deep_view() =~= AppView { stack: self.stack.deep_view(), ..before });
        self.replay_levels();
        let ghost replayed_view = self.deep_view();
        if self.replay.len() == 0 {
            let mut held: Vec<Level> = Vec::new();
            std::mem::swap(&mut held, &mut self.held);
            self.stack.append(&mut held);
            assert(self.stack.deep_view() =~= replayed_view.stack + before.held);
            assert(self.held.deep_view() =~= Seq::<LevelView>::empty());
            assert(self.replay@ =~= replayed_view.replay);
            assert(self.deep_view() =~= AppView {
                stack: replayed_view.stack + before.held,
                held: Seq::empty(),
                ..replayed_view
            });
        }
    }
}

/// What was taken in is loaded.
proof fn lemma_ingested_is_loaded(a: AppView, meta: MetaView)
    ensures
        path_value(a.ingested(meta).preloaded, meta.root) is Some,
{
    let m = sized(meta);
    let p = with_path(a.preloaded, m.root, m);
    assert(a.ingested(meta).preloaded == p);
    match path_index(a.preloaded, m.root) {
        Some(i) => {
            assert(is_entry(a.preloaded, m.root, i));
            assert(is_entry(p, m.root, i));
        },
        None => {
            assert(is_entry(p, m.root, p.len() - 1));
        },
    }
}

// ---------------------------------------------------------------------------------------
// Laws

/// Whether each selection is a row, or the first where there are none.
pub open spec fn selections_in_range(a: AppView) -> bool {
    forall|i: int|
        0 <= i < a.stack.len() ==> (#[trigger] a.stack[i]).selected <= last_row(
            a.stack[i].node.children().len(),
        )
}

/// The row that is selected at first is a row, or the first where there are none.
proof fn lemma_initial_in_range(n: NodeView)
    ensures
        n.initial_selected() <= last_row(n.children().len()),
{
}

/// Selections stay within the rows, whatever the user asks for.
#[verifier::rlimit(40)]
pub proof fn law_selections_stay_in_range(a: AppView, cmd: Command, page: usize)
    requires
        a.wf(),
        selections_in_range(a),
        a.bottom() <= usize::MAX,
    ensures
        selections_in_range(a.executed(cmd, page)),
{
    let b = a.executed(cmd, page);
    let top = a.stack.len() - 1;
    assert(a.stack[top] == a.current());
    assert forall|i: int| 0 <= i < b.stack.len() implies (#[trigger] b.stack[i]).selected
        <= last_row(b.stack[i].node.children().len()) by {
        if i < a.stack.len() {
            assert(a.stack[i].selected <= last_row(a.stack[i].node.children().len()));
        } else {
            lemma_initial_in_range(b.stack[i].node);
        }
    }
}

/// To go back after a node was entered leaves the stack as it was.
pub proof fn law_back_undoes_descend(a: AppView, page: usize)
    requires
        a.wf(),
    ensures
        ({
            let d = a.executed(Command::Descend, page);
            &&& d.stack == a.stack || d.stack == a.left().stack || d.stack.len() == a.stack.len()
                + 1
            &&& d.stack.len() == a.stack.len() + 1 ==> d.executed(Command::Back, page).stack
                == a.stack
        }),
{
    let d = a.executed(Command::Descend, page);
    if d.stack.len() == a.stack.len() + 1 {
        assert(d.executed(Command::Back, page).stack =~= a.stack);
    }
}

/// What was taken in is what is loaded for that repository, and the list shows it.
pub proof fn law_ingested_is_loaded(a: AppView, meta: MetaView)
    requires
        distinct_paths(a.preloaded),
    ensures
        path_value(a.ingested(meta).preloaded, meta.root) == Some(sized(meta)),
        a.ingested(meta).summaries.contains(named(summary_of(sized(meta)))),
{
    let m = sized(meta);
    let p = with_path(a.preloaded, m.root, m);
    assert(a.ingested(meta).preloaded == p);
    lemma_ingested_is_loaded(a, meta);
    let i = path_index(p, m.root)->0;
    assert(is_entry(p, m.root, i));
    match path_index(a.preloaded, m.root) {
        Some(k) => {
            assert(is_entry(a.preloaded, m.root, k));
            if i != k {
                assert(same_path(a.preloaded[i].0, a.preloaded[k].0));
            }
        },
        None => {
            if i < a.preloaded.len() {
                assert(is_entry(a.preloaded, m.root, i));
            }
        },
    }
    let s = named(summary_of(m));
    assert(a.ingested(meta).summaries == with_summary(a.summaries, s));
    lemma_with_summary_contains(a.summaries, s);
}

proof fn lemma_with_summary_contains(list: Seq<SummaryView>, s: SummaryView)
    ensures
        with_summary(list, s).contains(s),
    decreases list.len(),
{
    let w = with_summary(list, s);
    if list.len() == 0 || same_path(list[0].root, s.root) {
        assert(w[0] == s);
    } else {
        lemma_with_summary_contains(list.drop_first(), s);
        let rest = with_summary(list.drop_first(), s);
        let i = choose|i: int| 0 <= i < rest.len() && rest[i] == s;
        assert(w[i + 1] == s);
    }
}

/// Whether no repository is listed twice.
pub open spec fn listed_once(list: Seq<SummaryView>) -> bool {
    forall|i: int, j: int|
        0 <= i < j < list.len() ==> !same_path((#[trigger] list[i]).root, (#[trigger] list[j]).root)
}

/// To take a summary in never lists a repository twice.
pub proof fn law_repositories_are_listed_once(list: Seq<SummaryView>, s: SummaryView)
    requires
        listed_once(list),
    ensures
        listed_once(with_summary(list, s)),
    decreases list.len(),
{
    let w = with_summary(list, s);
    if list.len() > 0 {
        if same_path(list[0].root, s.root) {
            assert forall|i: int, j: int| 0 <= i < j < w.len() implies !same_path(
                (#[trigger] w[i]).root,
                (#[trigger] w[j]).root,
            ) by {
                assert(!same_path(list[i].root, list[j].root));
            }
        } else {
            let rest = list.drop_first();
            assert forall|i: int, j: int| 0 <= i < j < rest.len() implies !same_path(
                (#[trigger] rest[i]).root,
                (#[trigger] rest[j]).root,
            ) by {
                assert(rest[i] == list[i + 1] && rest[j] == list[j + 1]);
            }
            law_repositories_are_listed_once(rest, s);
            let v = with_summary(rest, s);
            lemma_with_summary_roots(rest, s);
            assert forall|i: int, j: int| 0 <= i < j < w.len() implies !same_path(
                (#[trigger] w[i]).root,
                (#[trigger] w[j]).root,
            ) by {
                assert(w[j] == v[j - 1]);
                if i == 0 {
                    assert(w[0] == list[0]);
                    if !same_path(v[j - 1].root, s.root) {
                        let k = choose|k: int| 0 <= k < rest.len() && rest[k] == v[j - 1];
                        assert(rest[k] == list[k + 1]);
                    }
                } else {
                    assert(w[i] == v[i - 1]);
                }
            }
        }
    }
}

proof fn lemma_with_summary_roots(list: Seq<SummaryView>, s: SummaryView)
    ensures
        forall|i: int|
            0 <= i < with_summary(list, s).len() ==> same_path(
                (#[trigger] with_summary(list, s)[i]).root,
                s.root,
            ) || list.contains(with_summary(list, s)[i]),
    decreases list.len(),
{
    let w = with_summary(list, s);
    if list.len() > 0 {
        if same_path(list[0].root, s.root) {
            assert forall|i: int| 0 <= i < w.len() implies same_path((#[trigger] w[i]).root, s.root)
                || list.contains(w[i]) by {
                if i > 0 {
                    assert(list[i] == w[i]);
                }
            }
        } else {
            let rest = list.drop_first();
            lemma_with_summary_roots(rest, s);
            let v = with_summary(rest, s);
            assert forall|i: int| 0 <= i < w.len() implies same_path((#[trigger] w[i]).root, s.root)
                || list.contains(w[i]) by {
                if i == 0 {
                    assert(list[0] == w[0]);
                } else {
                    assert(w[i] == v[i - 1]);
                    if rest.contains(v[i - 1]) {
                        let k = choose|k: int| 0 <= k < rest.len() && rest[k] == v[i - 1];
                        assert(list[k + 1] == w[i]);
                    }
                }
            }
        }
    }
}

proof fn lemma_replayed_keeps_nodes(stack: Seq<LevelView>, rest: Seq<usize>)
    requires
        stack.len() > 0,
    ensures
        replayed(stack, rest).0.len() >= stack.len(),
        forall|i: int|
            0 <= i < stack.len() ==> (#[trigger] replayed(stack, rest).0[i]).node == stack[i].node,
    decreases rest.len(),
{
    let level = stack.last();
    let kids = level.node.children();
    if !(rest.len() == 0 || level.node.listing_query() is Some || kids.len() == 0) {
        let i = least(level.selected as nat, last_row(kids.len()));
        let clamped = stack.update(
            stack.len() - 1,
            LevelView { node: level.node, selected: i as usize },
        );
        let child = kids[i as int];
        let next = clamped.push(
            LevelView { node: child, selected: selection_in(child, rest[0]) },
        );
        lemma_replayed_keeps_nodes(next, rest.drop_first());
        assert forall|k: int| 0 <= k < stack.len() implies (#[trigger] replayed(stack, rest).0[k]).node
            == stack[k].node by {
            assert(next[k].node == stack[k].node);
        }
    }
}

/// A repository that is open is shown as it is loaded now, and what is above it stays.
pub proof fn law_open_repo_is_renewed(a: AppView, root: Text)
    requires
        open_level(a.stack, root) < a.stack.len(),
        path_value(a.preloaded, root) is Some,
    ensures
        ({
            let n = open_level(a.stack, root) as int;
            let b = a.repo_replaced(root);
            &&& b.stack.len() > n
            &&& b.stack[n].node == (NodeView::Repo {
                meta: path_value(a.preloaded, root)->0,
                profiles: a.profiles,
            })
            &&& forall|i: int| 0 <= i < n ==> (#[trigger] b.stack[i]).node == a.stack[i].node
        }),
{
    let n = open_level(a.stack, root) as int;
    let b = a.repo_replaced(root);
    let kept = a.stack.take(n);
    let selections = a.stack.skip(n).map_values(|l: LevelView| l.selected);
    let node = NodeView::Repo { meta: path_value(a.preloaded, root)->0, profiles: a.profiles };
    let first = kept.push(LevelView { node, selected: selections[0] });
    lemma_replayed_keeps_nodes(first, selections.drop_first());
    assert(first[n].node == node);
    assert forall|i: int| 0 <= i < n implies (#[trigger] b.stack[i]).node == a.stack[i].node by {
        assert(first[i].node == a.stack[i].node);
    }
}

/// Whatever the user asks for, the stack keeps its shape: the top at its bottom, and a
/// repository being loaded only directly above that.
pub proof fn law_commands_keep_shape(a: AppView, cmd: Command, page: usize)
    requires
        a.wf(),
    ensures
        a.executed(cmd, page).wf(),
        a.executed(cmd, page).stack[0].node == a.stack[0].node,
{
    let b = a.executed(cmd, page);
    let kids = a.current().node.children();
    let k = a.current().selected as int;
    assert(a.stack[a.stack.len() - 1] == a.current());
    if k < kids.len() {
        law_only_the_top_leads_to_repositories(a.current().node, k);
    }
    assert forall|i: int| 0 < i < b.stack.len() implies fits_at((#[trigger] b.stack[i]).node, i) by {
        if i < a.stack.len() {
            assert(b.stack[i].node == a.stack[i].node);
        }
    }
}

proof fn lemma_left_keeps_shape(a: AppView)
    requires
        a.wf(),
    ensures
        a.left().wf(),
{
    let b = a.left();
    assert forall|i: int| 0 < i < b.stack.len() implies fits_at((#[trigger] b.stack[i]).node, i) by {
        assert(b.stack[i] == a.stack[i]);
    }
}

/// Whether a loaded repository stands only directly above the bottom.
pub open spec fn opens_above_top(a: AppView) -> bool {
    forall|i: int| 1 < i < a.stack.len() ==> !((#[trigger] a.stack[i]).node is Repo)
}

/// Whatever the user asks for, a loaded repository is opened only directly above the bottom.
pub proof fn law_commands_open_above_top(a: AppView, cmd: Command, page: usize)
    requires
        a.wf(),
        opens_above_top(a),
    ensures
        opens_above_top(a.executed(cmd, page)),
{
    let b = a.executed(cmd, page);
    let kids = a.current().node.children();
    let k = a.current().selected as int;
    assert(a.stack[a.stack.len() - 1] == a.current());
    if k < kids.len() {
        law_only_the_top_leads_to_repositories(a.current().node, k);
    }
    assert forall|i: int| 1 < i < b.stack.len() implies !((#[trigger] b.stack[i]).node is Repo) by {
        if i < a.stack.len() {
            assert(b.stack[i].node == a.stack[i].node);
        }
    }
}

/// A repository that is shown as loading stands directly above the bottom.
proof fn lemma_loading_stands_second(a: AppView)
    requires
        a.wf(),
        a.current().node is Loading,
    ensures
        a.stack.len() == 2,
        a.left().stack.len() == 1,
{
    assert(a.stack[a.stack.len() - 1] == a.current());
}

/// No level is a repository that is not shown.
proof fn lemma_none_open(stack: Seq<LevelView>, root: Text)
    requires
        open_level(stack, root) >= stack.len(),
    ensures
        forall|i: int| 0 <= i < stack.len() ==> !is_open(#[trigger] stack[i], root),
    decreases stack.len(),
{
    if stack.len() > 0 {
        let rest = stack.drop_first();
        lemma_none_open(rest, root);
        assert forall|i: int| 0 <= i < stack.len() implies !is_open(#[trigger] stack[i], root) by {
            if i > 0 {
                assert(stack[i] == rest[i - 1]);
            }
        }
    }
}

/// Where no level is the repository, nothing is entered again.
proof fn lemma_ingested_elsewhere(a: AppView, meta: MetaView)
    requires
        a.wf(),
        !a.shows(meta.root),
    ensures
        a.ingested(meta).stack.len() == a.stack.len(),
        forall|i: int|
            0 < i < a.stack.len() ==> #[trigger] a.ingested(meta).stack[i] == a.stack[i],
        a.ingested(meta).replay == a.replay,
        a.ingested(meta).held == a.held,
{
    let m = sized(meta);
    let taken = AppView {
        preloaded: with_path(a.preloaded, m.root, m),
        summaries: with_summary(a.summaries, named(summary_of(m))),
        ..a
    };
    law_refresh_keeps_levels(taken);
    let b = taken.root_refreshed().profiled();
    assert(a.ingested(meta) == b.repo_replaced(m.root));
    lemma_none_open(a.stack, m.root);
    assert forall|i: int| 0 <= i < b.stack.len() implies !is_open(#[trigger] b.stack[i], m.root) by {
        if i > 0 {
            assert(taken.root_refreshed().stack[i] == a.stack[i]);
        }
    }
    lemma_open_level(b.stack, m.root, b.stack.len() as int);
}

/// What is left does not show a repository that was not shown before.
proof fn lemma_left_shows(a: AppView, root: Text)
    requires
        !a.shows(root),
    ensures
        !a.loading_left().shows(root),
{
    let b = a.loading_left();
    lemma_none_open(a.stack, root);
    assert forall|i: int| 0 <= i < b.stack.len() implies !is_open(#[trigger] b.stack[i], root) by {
        assert(b.stack[i] == a.stack[i]);
    }
    lemma_open_level(b.stack, root, b.stack.len() as int);
}

/// The way up from a directory leads back to where that was entered from.
pub proof fn law_way_up_leads_back(a: AppView, page: usize)
    requires
        a.wf(),
        a.current().selected < a.current().node.children().len(),
        a.current().node.children()[a.current().selected as int] is ParentDir,
    ensures
        a.executed(Command::Descend, page) == a.executed(Command::Back, page),
        a.executed(Command::Back, page).stack == a.stack.drop_last(),
{
    let k = a.current().selected as int;
    reveal_strlit("parent");
    reveal_strlit("report");
    reveal_strlit("viz");
    assert("parent"@[0] == 'p' && "report"@[0] == 'r');
    assert("parent"@.len() != "viz"@.len());
    assert(a.stack[a.stack.len() - 1] == a.current());
    law_only_directories_have_a_way_up(a.current().node, k);
}

/// To show the summaries anew changes nothing below the top.
pub proof fn law_refresh_keeps_levels(a: AppView)
    requires
        a.wf(),
    ensures
        a.root_refreshed().stack.len() == a.stack.len(),
        forall|i: int|
            0 < i < a.stack.len() ==> #[trigger] a.root_refreshed().stack[i] == a.stack[i],
        a.root_refreshed().wf(),
{
    let root = NodeView::Root { scan_root: a.root_path, summaries: a.summaries };
    lemma_no_report(root.children());
}

/// Repositories are no reports.
proof fn lemma_no_report(nodes: Seq<NodeView>)
    requires
        forall|i: int| 0 <= i < nodes.len() ==> (#[trigger] nodes[i]) is Summary,
    ensures
        first_report(nodes) is None,
    decreases nodes.len(),
{
    reveal_strlit("repo");
    reveal_strlit("report");
    assert("repo"@.len() != "report"@.len());
    if nodes.len() > 0 {
        let rest = nodes.drop_first();
        assert(nodes[0] is Summary);
        assert forall|i: int| 0 <= i < rest.len() implies (#[trigger] rest[i]) is Summary by {
            assert(rest[i] == nodes[i + 1]);
        }
        lemma_no_report(rest);
    }
}

/// Entering levels again keeps the shape of the stack.
proof fn lemma_replayed_keeps_shape(a: AppView, rest: Seq<usize>)
    requires
        a.wf(),
        a.stack.len() > 1,
    ensures
        (AppView { stack: replayed(a.stack, rest).0, ..a }).wf(),
    decreases rest.len(),
{
    let stack = a.stack;
    let level = stack.last();
    let kids = level.node.children();
    if !(rest.len() == 0 || level.node.listing_query() is Some || kids.len() == 0) {
        let i = least(level.selected as nat, last_row(kids.len()));
        let clamped = stack.update(
            stack.len() - 1,
            LevelView { node: level.node, selected: i as usize },
        );
        let child = kids[i as int];
        let next = clamped.push(
            LevelView { node: child, selected: selection_in(child, rest[0]) },
        );
        assert(stack[stack.len() - 1] == level);
        law_only_the_top_leads_to_repositories(level.node, i as int);
        let b = AppView { stack: next, ..a };
        assert forall|k: int| 0 < k < b.stack.len() implies fits_at(
            (#[trigger] b.stack[k]).node,
            k,
        ) by {
            if k < stack.len() {
                assert(b.stack[k].node == stack[k].node);
            }
        }
        lemma_replayed_keeps_shape(b, rest.drop_first());
    }
}

proof fn lemma_open_level_is_open(stack: Seq<LevelView>, root: Text)
    requires
        open_level(stack, root) < stack.len(),
    ensures
        is_open(stack[open_level(stack, root) as int], root),
    decreases stack.len(),
{
    if stack.len() > 0 && !is_open(stack[0], root) {
        lemma_open_level_is_open(stack.drop_first(), root);
    }
}

proof fn lemma_replaced_keeps_shape(b: AppView, root: Text)
    requires
        b.wf(),
    ensures
        b.repo_replaced(root).wf(),
{
    let n = open_level(b.stack, root) as int;
    if n < b.stack.len() {
        lemma_open_level_is_open(b.stack, root);
        assert(b.stack[n].node is Repo);
        assert(n >= 1);
        let kept = b.stack.take(n);
        let selections = b.stack.skip(n).map_values(|l: LevelView| l.selected);
        if path_value(b.preloaded, root) is Some {
            let node = NodeView::Repo {
                meta: path_value(b.preloaded, root)->0,
                profiles: b.profiles,
            };
            let first = AppView {
                stack: kept.push(LevelView { node, selected: selections[0] }),
                ..b
            };
            assert forall|i: int| 0 < i < first.stack.len() implies fits_at(
                (#[trigger] first.stack[i]).node,
                i,
            ) by {
                if i < n {
                    assert(first.stack[i] == b.stack[i]);
                }
            }
            lemma_replayed_keeps_shape(first, selections.drop_first());
            let c = b.repo_replaced(root);
            let d = AppView { stack: replayed(first.stack, selections.drop_first()).0, ..first };
            assert(c.stack == d.stack);
            assert forall|i: int| 0 < i < c.stack.len() implies fits_at(
                (#[trigger] c.stack[i]).node,
                i,
            ) by {
                assert(d.stack[i] == c.stack[i]);
            }
        }
    }
}

/// When a repository is taken in, too, the stack keeps its shape.
pub proof fn law_taking_in_keeps_shape(a: AppView, meta: MetaView)
    requires
        a.wf(),
    ensures
        a.ingested(meta).wf(),
{
    let m = sized(meta);
    let taken = AppView {
        preloaded: with_path(a.preloaded, m.root, m),
        summaries: with_summary(a.summaries, named(summary_of(m))),
        ..a
    };
    law_refresh_keeps_levels(taken);
    let b = taken.root_refreshed().profiled();
    assert(a.ingested(meta) == b.repo_replaced(m.root));
    lemma_replaced_keeps_shape(b, m.root);
}

proof fn lemma_installed(a: AppView, meta: MetaView)
    requires
        a.wf(),
        !a.shows(meta.root),
    ensures
        ({
            let b = a.repo_installed(meta);
            let n = a.loading_left().stack.len();
            let c = a.loading_left().ingested(meta);
            &&& b.stack.len() == n + 1
            &&& b.preloaded == c.preloaded
            &&& b.profiles == c.profiles
            &&& b.status == "loaded"@
            &&& b.current() == (LevelView {
                node: NodeView::Repo {
                    meta: path_value(c.preloaded, meta.root)->0,
                    profiles: c.profiles,
                },
                selected: 0,
            })
            &&& forall|i: int| 0 < i < n ==> #[trigger] b.stack[i] == a.stack[i]
            &&& b.replay == a.replay
            &&& b.held == a.held
        }),
{
    let left = a.loading_left();
    lemma_left_keeps_shape(a);
    lemma_left_shows(a, meta.root);
    lemma_ingested_elsewhere(left, meta);
    law_taking_in_keeps_shape(left, meta);
    let c = left.ingested(meta);
    let node = NodeView::Repo {
        meta: path_value(c.preloaded, meta.root)->0,
        profiles: c.profiles,
    };
    let entered = AppView { status: "loaded"@, ..c.entering(node) };
    assert forall|i: int| 0 < i < entered.stack.len() implies fits_at(
        (#[trigger] entered.stack[i]).node,
        i,
    ) by {
        if i < c.stack.len() {
            assert(entered.stack[i] == c.stack[i]);
        }
    }
    law_refresh_keeps_levels(entered);
    let b = a.repo_installed(meta);
    assert(b == entered.root_refreshed());
    let n = left.stack.len() as int;
    assert(b.stack[n] == entered.stack[n]);
    assert forall|i: int| 0 < i < n implies #[trigger] b.stack[i] == a.stack[i] by {
        assert(b.stack[i] == entered.stack[i]);
        assert(entered.stack[i] == c.stack[i]);
        assert(c.stack[i] == left.stack[i]);
    }
}

/// A repository that is loaded is shown: in the place where it was loading, else one level
/// further, with the first row selected. What was below stays. This is so where it is not on
/// the stack already.
pub proof fn law_loaded_is_shown(a: AppView, meta: MetaView)
    requires
        a.wf(),
        !a.shows(meta.root),
        distinct_paths(a.preloaded),
    ensures
        ({
            let b = a.repo_installed(meta);
            let n = if a.current().node.loading_path() is Some {
                a.stack.len() - 1
            } else {
                a.stack.len() as int
            };
            &&& b.stack.len() == n + 1
            &&& b.current() == (LevelView {
                node: NodeView::Repo { meta: sized(meta), profiles: profiles_of(b.preloaded) },
                selected: 0,
            })
            &&& b.current().node.loading_path() is None
            &&& forall|i: int| 0 < i < n ==> #[trigger] b.stack[i] == a.stack[i]
            &&& path_value(b.preloaded, meta.root) == Some(sized(meta))
            &&& b.status == "loaded"@
            &&& b.replay == a.replay
            &&& b.held == a.held
        }),
{
    lemma_installed(a, meta);
    lemma_left_keeps_shape(a);
    assert(a.stack[a.stack.len() - 1] == a.current());
    law_ingested_is_loaded(a.loading_left(), meta);
}

/// A repository that was loading is shown.
pub proof fn lemma_installed_on_top(a: AppView, meta: MetaView)
    requires
        a.wf(),
        a.current().node is Loading,
    ensures
        a.repo_installed(meta).stack.len() == 2,
        a.repo_installed(meta).current().node is Repo,
{
    lemma_loading_stands_second(a);
    assert(a.stack[1] == a.current());
    lemma_open_level(a.stack, meta.root, 2);
    lemma_installed(a, meta);
}

/// What is held comes back on top, in its order, once all levels have been entered again.
pub proof fn law_held_comes_back(a: AppView, files: Seq<FileView>)
    ensures
        ({
            let b = a.listing_installed(files);
            &&& b.replay.len() > 0 ==> b.held == a.held
            &&& b.replay.len() == 0 ==> b.held.len() == 0 && b.stack.len() >= a.held.len()
                && b.stack.skip(b.stack.len() - a.held.len()) == a.held
        }),
{
    let b = a.listing_installed(files);
    if b.replay.len() == 0 {
        assert(b.stack.skip(b.stack.len() - a.held.len()) =~= a.held);
    }
}

} // verus!
