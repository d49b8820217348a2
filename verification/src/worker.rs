//! The scan in the background: what is loaded when, and what is stored.

use std::rc::Rc;
use vstd::prelude::*;
use crate::annex::{bare_summary, can_size, named, sized, summary_of, AnnexMetadata, MetaView, RepoSummary, SummaryView};
use crate::app::{law_commands_keep_shape, lemma_installed_on_top, App, AppView, Command};
use crate::paths::{is_under, names_same_path, path_is_under, same_path};
use crate::snapshot::ViewSnapshot;
use crate::table::{entries_listed, lists_path, pairs_of, path_listed, path_value, with_path, Dup, StrMap};
use crate::text::{count_text, decimal, labelled, Text};
use crate::tree::Node;

verus! {

/// What the views send.
pub enum WorkerMsg {
    /// A command, and how many rows a page has.
    Nav(Command, usize),
}

/// What the views are sent.
pub enum WorkerOut {
    /// The answer to a command.
    Nav(ViewSnapshot),
    /// What has changed by itself.
    Background(ViewSnapshot),
}

/// How many repositories are loaded at a time.
pub const MAX_HYDRATE: usize = 2;

/// How long ago something was stored last, in nanoseconds, when what is loaded is stored while
/// the scan goes on.
pub const SAVE_LOADED_AFTER: u128 = 4_000_000_000;

/// How long ago something was stored last, in nanoseconds, when the scan is stored while
/// nothing else is to be done.
pub const SAVE_SCAN_AFTER: u128 = 2_000_000_000;

/// What is to be done about a command.
#[derive(Debug)]
pub enum Step {
    /// The worker ends.
    End,
    /// Repositories are looked for again.
    Look,
    /// That repository is loaded, which is shown as loading.
    Load(String),
    /// The views are sent what is shown now.
    Answer,
}

/// What a [`Step`] stands for.
pub ghost enum StepView {
    End,
    Look,
    Load { path: Text },
    Answer,
}

impl DeepView for Step {
    type V = StepView;

    open spec fn deep_view(&self) -> StepView {
        match self {
            Step::End => StepView::End,
            Step::Look => StepView::Look,
            Step::Load(p) => StepView::Load { path: p@ },
            Step::Answer => StepView::Answer,
        }
    }
}

/// What is to be stored.
#[derive(Debug, Clone, Copy, PartialEq, Eq, Structural)]
pub enum Save {
    /// Nothing yet.
    Later,
    /// All that is loaded.
    Loaded,
    /// The scan, which is complete.
    Scan,
}

// ---------------------------------------------------------------------------------------
// The state of the browser during a scan

/// Whether a repository has a summary.
pub open spec fn is_listed(summaries: Seq<SummaryView>, p: Text) -> bool {
    exists|i: int| 0 <= i < summaries.len() && same_path((#[trigger] summaries[i]).root, p)
}

/// The summaries, with one for each repository that has none yet.
pub open spec fn with_bare(summaries: Seq<SummaryView>, found: Seq<Text>) -> Seq<SummaryView>
    decreases found.len(),
{
    if found.len() == 0 {
        summaries
    } else {
        let before = with_bare(summaries, found.drop_last());
        if is_listed(before, found.last()) {
            before
        } else {
            before.push(bare_summary(found.last()))
        }
    }
}

/// The repositories to load: first those that are loaded already and then those that are not.
/// The last is taken first.
pub open spec fn queue_of(preloaded: Seq<(Text, MetaView)>, found: Seq<Text>) -> Seq<Text> {
    found.filter(|p: Text| path_value(preloaded, p) is Some) + found.filter(
        |p: Text| path_value(preloaded, p) is None,
    )
}

impl AppView {
    /// Only the repositories `found` are kept.
    pub open spec fn keeping(self, found: Seq<Text>) -> AppView {
        AppView {
            summaries: self.summaries.filter(|s: SummaryView| path_listed(found, s.root)),
            preloaded: entries_listed(self.preloaded, found),
            ..self
        }
    }

    /// How far the scan is, with `in_flight` of `total` repositories being loaded.
    pub open spec fn progress(self, in_flight: usize, total: usize) -> AppView {
        let remaining = self.to_hydrate.len() + in_flight;
        if total == 0 {
            AppView { scanning: false, ..self }
        } else if remaining == 0 {
            AppView { scanning: false, ..self }
        } else {
            let done = if remaining <= total {
                (total - remaining) as nat
            } else {
                0
            };
            AppView {
                scanning: true,
                status: "scanning "@ + decimal(done) + "/"@ + decimal(total as nat) + "…"@,
                ..self
            }
        }
    }

    /// A stored repository is taken in, if it is under the scanned directory.
    pub open spec fn restored(self, path: Text, meta: MetaView) -> AppView {
        if is_under(path, self.root_path) {
            let m = sized(meta);
            AppView {
                preloaded: with_path(self.preloaded, path, m),
                summaries: self.summaries.push(named(summary_of(m))),
                ..self
            }
        } else {
            self
        }
    }

    /// The stored repositories are taken in.
    pub open spec fn all_restored(self, repos: Seq<(Text, MetaView)>) -> AppView
        decreases repos.len(),
    {
        if repos.len() == 0 {
            self
        } else {
            self.all_restored(repos.drop_last()).restored(repos.last().0, repos.last().1)
        }
    }
}

/// What the status says when all is loaded and stored.
pub open spec fn stored_status(a: AppView) -> Text {
    decimal(a.preloaded.len()) + " repos • cache updated"@
}

/// Sets which repositories are to be loaded.
pub fn queue_hydrate(app: &mut App, discovered: &Vec<String>)
    ensures
        final(app).deep_view() == (AppView {
            to_hydrate: queue_of(old(app).deep_view().preloaded, discovered.deep_view()),
            ..old(app).deep_view()
        }),
{
    let ghost before = app.deep_view();
    let ghost d = discovered.deep_view();
    let ghost known = |p: Text| path_value(before.preloaded, p) is Some;
    let ghost unknown = |p: Text| path_value(before.preloaded, p) is None;
    let mut cached: Vec<String> = Vec::new();
    let mut fresh: Vec<String> = Vec::new();
    let mut i: usize = 0;
    proof {
        reveal(Seq::filter);
        assert(d.take(0).filter(known) =~= Seq::<Text>::empty());
        assert(d.take(0).filter(unknown) =~= Seq::<Text>::empty());
        assert(cached.deep_view() =~= Seq::<Text>::empty());
        assert(fresh.deep_view() =~= Seq::<Text>::empty());
    }
    while i < discovered.len()
        invariant
            i <= discovered@.len(),
            d == discovered.deep_view(),
            before == app.deep_view(),
            known == (|p: Text| path_value(before.preloaded, p) is Some),
            unknown == (|p: Text| path_value(before.preloaded, p) is None),
            cached.deep_view() == d.take(i as int).filter(known),
            fresh.deep_view() == d.take(i as int).filter(unknown),
        decreases discovered@.len() - i,
    {
        let ghost cached0 = cached.deep_view();
        let ghost fresh0 = fresh.deep_view();
        proof {
            reveal(Seq::filter);
            assert(d.take(i + 1).drop_last() =~= d.take(i as int));
            assert(d.take(i + 1).last() == d[i as int]);
        }
        let p = &discovered[i];
        if app.preloaded.get(p.as_str()).is_some() {
            cached.push(p.clone());
            assert(cached.deep_view() =~= cached0.push(d[i as int]));
        } else {
            fresh.push(p.clone());
            assert(fresh.deep_view() =~= fresh0.push(d[i as int]));
        }
        i += 1;
    }
    assert(d.take(i as int) =~= d);
    let ghost c = cached.deep_view();
    let ghost f = fresh.deep_view();
    let mut queue = cached;
    let mut k: usize = 0;
    assert(queue.deep_view() =~= c + f.take(0));
    while k < fresh.len()
        invariant
            k <= fresh@.len(),
            f == fresh.deep_view(),
            queue.deep_view() == c + f.take(k as int),
        decreases fresh@.len() - k,
    {
        let ghost so_far = queue.deep_view();
        queue.push(fresh[k].clone());
        assert(queue.deep_view() =~= so_far.push(f[k as int]));
        assert(c + f.take(k + 1) =~= (c + f.take(k as int)).push(f[k as int]));
        k += 1;
    }
    assert(f.take(k as int) =~= f);
    app.to_hydrate = queue;
    assert(app.deep_view() =~= AppView { to_hydrate: c + f, ..before });
}

/// Says how far the scan is.
pub fn mark_scan_progress(app: &mut App, in_flight: usize, total: usize)
    ensures
        final(app).deep_view() == old(app).deep_view().progress(in_flight, total),
{
    let ghost before = app.deep_view();
    let remaining: usize = match app.to_hydrate.len().checked_add(in_flight) {
        Some(n) => n,
        None => usize::MAX,
    };
    app.scanning = remaining > 0;
    if total == 0 {
        app.scanning = false;
        assert(app.deep_view() =~= before.progress(in_flight, total));
        return;
    }
    if remaining > 0 {
        let done: usize = if remaining <= total {
            total - remaining
        } else {
            0
        };
        app.status = labelled("scanning ", count_text(done).as_str()).concat("/").concat(
            count_text(total).as_str(),
        ).concat("…");
    }
    assert(app.deep_view() =~= before.progress(in_flight, total));
}

/// Keeps only the repositories `found`.
fn keep_found(app: &mut App, found: &Vec<String>)
    ensures
        final(app).deep_view() == old(app).deep_view().keeping(found.deep_view()),
{
    let ghost before = app.deep_view();
    let ghost d = before.summaries;
    let ghost f = found.deep_view();
    let ghost keep = |s: SummaryView| path_listed(f, s.root);
    let mut kept: Vec<RepoSummary> = Vec::new();
    let mut i: usize = 0;
    proof {
        reveal(Seq::filter);
        assert(d.take(0).filter(keep) =~= Seq::<SummaryView>::empty());
        assert(kept.deep_view() =~= Seq::<SummaryView>::empty());
    }
    while i < app.summaries.len()
        invariant
            i <= app.summaries@.len(),
            d == app.summaries.deep_view(),
            app.deep_view() == before,
            f == found.deep_view(),
            keep == (|s: SummaryView| path_listed(f, s.root)),
            kept.deep_view() == d.take(i as int).filter(keep),
        decreases app.summaries@.len() - i,
    {
        let ghost so_far = kept.deep_view();
        proof {
            reveal(Seq::filter);
            assert(d.take(i + 1).drop_last() =~= d.take(i as int));
            assert(d.take(i + 1).last() == d[i as int]);
            assert(d[i as int] == app.summaries@[i as int].deep_view());
        }
        if lists_path(found, app.summaries[i].root.as_str()) {
            kept.push(app.summaries[i].dup());
            assert(kept.deep_view() =~= so_far.push(d[i as int]));
        }
        i += 1;
    }
    assert(d.take(i as int) =~= d);
    app.summaries = kept;
    app.preloaded.keep_listed(found);
    assert(app.deep_view() =~= before.keeping(f));
}

fn has_summary(summaries: &Vec<RepoSummary>, p: &str) -> (r: bool)
    ensures
        r == is_listed(summaries.deep_view(), p@),
{
    let ghost d = summaries.deep_view();
    let mut i: usize = 0;
    while i < summaries.len()
        invariant
            i <= summaries@.len(),
            d == summaries.deep_view(),
            forall|j: int| 0 <= j < i ==> !same_path((#[trigger] d[j]).root, p@),
        decreases summaries@.len() - i,
    {
        assert(d[i as int] == summaries@[i as int].deep_view());
        if names_same_path(summaries[i].root.as_str(), p) {
            return true;
        }
        i += 1;
    }
    false
}

fn add_bare(app: &mut App, found: &Vec<String>)
    ensures
        final(app).deep_view() == (AppView {
            summaries: with_bare(old(app).deep_view().summaries, found.deep_view()),
            ..old(app).deep_view()
        }),
{
    let ghost before = app.deep_view();
    let ghost f = found.deep_view();
    let mut i: usize = 0;
    while i < found.len()
        invariant
            i <= found@.len(),
            f == found.deep_view(),
            app.deep_view() == (AppView {
                summaries: with_bare(before.summaries, f.take(i as int)),
                ..before
            }),
        decreases found@.len() - i,
    {
        let ghost so_far = app.deep_view().summaries;
        proof {
            assert(f.take(i + 1).drop_last() =~= f.take(i as int));
            assert(f.take(i + 1).last() == f[i as int]);
        }
        if !has_summary(&app.summaries, found[i].as_str()) {
            app.summaries.push(RepoSummary::bare(&found[i]));
            assert(app.summaries.deep_view() =~= so_far.push(bare_summary(f[i as int])));
        }
        assert(app.deep_view() =~= AppView {
            summaries: with_bare(before.summaries, f.take(i + 1)),
            ..before
        });
        i += 1;
    }
    assert(f.take(i as int) =~= f);
}

// ---------------------------------------------------------------------------------------
// The scan

/// The browser, and how far its scan is.
pub struct Worker {
    pub app: App,
    /// How many repositories the scan is about.
    pub hydrate_total: usize,
    /// How many are being loaded.
    pub in_flight: usize,
    /// Whether something is loaded that is not stored yet.
    pub dirty: bool,
}

/// What a [`Worker`] stands for.
#[verifier::ext_equal]
pub ghost struct WorkerView {
    pub app: AppView,
    pub hydrate_total: usize,
    pub in_flight: usize,
    pub dirty: bool,
}

impl DeepView for Worker {
    type V = WorkerView;

    open spec fn deep_view(&self) -> WorkerView {
        WorkerView {
            app: self.app.deep_view(),
            hydrate_total: self.hydrate_total,
            in_flight: self.in_flight,
            dirty: self.dirty,
        }
    }
}

/// `n`, or the largest number that can be counted to.
pub open spec fn capped(n: nat) -> usize {
    if n <= usize::MAX {
        n as usize
    } else {
        usize::MAX
    }
}

/// One less, but not less than none.
pub open spec fn one_less(n: usize) -> usize {
    if n > 0 {
        (n - 1) as usize
    } else {
        0
    }
}

/// How many repositories are to be loaded now, with `in_flight` being loaded and `queued`
/// waiting.
pub open spec fn to_start(in_flight: usize, queued: nat) -> nat {
    if in_flight >= MAX_HYDRATE {
        0
    } else if queued < MAX_HYDRATE - in_flight {
        queued
    } else {
        (MAX_HYDRATE - in_flight) as nat
    }
}

/// Whether the sizes of all stored repositories under `root` are there or can be counted.
pub open spec fn can_restore(repos: Seq<(Text, MetaView)>, root: Text) -> bool {
    forall|i: int|
        0 <= i < repos.len() && is_under((#[trigger] repos[i]).0, root) ==> can_size(repos[i].1)
}

impl WorkerView {
    /// The state of the browser is as it is meant to be.
    pub open spec fn wf(self) -> bool {
        self.app.wf()
    }

    /// What was stored is shown until the scan is done.
    pub open spec fn restored(self, repos: Seq<(Text, MetaView)>) -> WorkerView {
        let a = self.app.all_restored(repos);
        WorkerView {
            app: AppView {
                scanning: true,
                ..AppView {
                    status: "loaded "@ + decimal(a.preloaded.len())
                        + " from cache — discovering…"@,
                    ..a
                }.profiled().root_refreshed()
            },
            ..self
        }
    }

    /// The directories of the repositories are known.
    pub open spec fn discovered(self, found: Seq<Text>) -> WorkerView {
        let kept = self.app.keeping(found);
        let listed = AppView { summaries: with_bare(kept.summaries, found), ..kept };
        let queued = AppView { to_hydrate: queue_of(listed.preloaded, found), ..listed };
        let total = queued.to_hydrate.len() as usize;
        WorkerView {
            app: queued.discovered(found).progress(0, total),
            hydrate_total: total,
            ..self
        }
    }

    /// A repository is loaded. What is to be stored goes by whether the scan is complete, and
    /// else by how long ago the last time is.
    pub open spec fn loaded(self, meta: MetaView, since: u128) -> (WorkerView, Save) {
        let in_flight = one_less(self.in_flight);
        let a = self.app.ingested(meta).progress(in_flight, self.hydrate_total);
        if !a.scanning {
            (
                WorkerView {
                    app: AppView { status: stored_status(a), ..a },
                    in_flight,
                    dirty: false,
                    ..self
                },
                Save::Scan,
            )
        } else if since > SAVE_LOADED_AFTER {
            (WorkerView { app: a, in_flight, dirty: false, ..self }, Save::Loaded)
        } else {
            (WorkerView { app: a, in_flight, dirty: true, ..self }, Save::Later)
        }
    }

    /// A repository could not be loaded.
    pub open spec fn failed(self, path: Text, error: Text) -> WorkerView {
        let in_flight = one_less(self.in_flight);
        WorkerView {
            app: AppView {
                status: "failed "@ + path + ": "@ + error,
                ..self.app.progress(in_flight, self.hydrate_total)
            },
            in_flight,
            ..self
        }
    }

    /// Nothing came for a while: the next repositories are loaded, which are given in the
    /// order in which that begins. When all is done it is stored, if something is not stored
    /// yet and the last time is long enough ago.
    pub open spec fn idled(self, since: u128) -> (WorkerView, Seq<Text>, bool) {
        let queue = self.app.to_hydrate;
        let n = to_start(self.in_flight, queue.len());
        let in_flight = (self.in_flight + n) as usize;
        let a = AppView { to_hydrate: queue.take(queue.len() - n), ..self.app }.progress(
            in_flight,
            self.hydrate_total,
        );
        let start = queue.skip(queue.len() - n).reverse();
        if in_flight == 0 && !a.scanning && self.dirty && since > SAVE_SCAN_AFTER {
            (
                WorkerView {
                    app: AppView { status: stored_status(a), ..a },
                    in_flight,
                    dirty: false,
                    ..self
                },
                start,
                true,
            )
        } else {
            (WorkerView { app: a, in_flight, ..self }, start, false)
        }
    }

    /// What is to be done next about a command that was carried out.
    pub open spec fn next_step(self) -> StepView {
        match self.app.current().node.loading_path() {
            Some(path) => StepView::Load { path },
            None => StepView::Answer,
        }
    }

    /// A command of the user is carried out, where a page has `page` rows.
    pub open spec fn commanded(self, cmd: Command, page: usize) -> (WorkerView, StepView) {
        if cmd == Command::Quit {
            (self, StepView::End)
        } else {
            let w = WorkerView { app: self.app.executed(cmd, page), ..self };
            if cmd == Command::Refresh {
                (w, StepView::Look)
            } else {
                (w, w.next_step())
            }
        }
    }

    /// The directories were looked for again.
    pub open spec fn rediscovered(self, found: Seq<Text>) -> WorkerView {
        let kept = self.app.keeping(found);
        let queued = AppView { to_hydrate: queue_of(kept.preloaded, found), ..kept };
        let total = capped(queued.to_hydrate.len() + self.in_flight as nat);
        let a = queued.discovered(found).profiled().progress(self.in_flight, total);
        WorkerView {
            app: AppView { stack: a.stack.take(1), ..a },
            hydrate_total: total,
            dirty: true,
            ..self
        }
    }

    /// The repository that was shown as loading is loaded.
    pub open spec fn installed(self, meta: MetaView) -> WorkerView {
        WorkerView { app: self.app.repo_installed(meta), dirty: true, ..self }
    }

    /// The repository that was shown as loading could not be loaded.
    pub open spec fn not_installed(self, error: Text) -> WorkerView {
        WorkerView {
            app: AppView {
                status: "load failed: "@ + error,
                stack: self.app.stack.drop_last(),
                ..self.app
            },
            ..self
        }
    }
}

/// Whether the sizes of all stored repositories under `root` are there or can be counted.
pub fn is_restorable(repos: &StrMap<AnnexMetadata>, root: &str) -> (r: bool)
    ensures
        r == can_restore(pairs_of(repos@), root@),
{
    let n: usize = repos.len();
    let ghost p = pairs_of(repos@);
    let mut i: usize = 0;
    while i < n
        invariant
            i <= n,
            n == p.len(),
            p == pairs_of(repos@),
            forall|j: int|
                0 <= j < i && is_under((#[trigger] p[j]).0, root@) ==> can_size(p[j].1),
        decreases n - i,
    {
        let under: bool = path_is_under(repos.key_at(i).as_str(), root);
        let fits: bool = repos.value_at(i).can_ensure_sizes();
        if under && !fits {
            assert(is_under(p[i as int].0, root@) && !can_size(p[i as int].1));
            return false;
        }
        i += 1;
    }
    true
}

impl Worker {
    /// A scan that has not begun.
    pub fn new(scan_root: String) -> (r: Worker)
        ensures
            r.deep_view() == (WorkerView {
                app: crate::app::new_app(scan_root@),
                hydrate_total: 0,
                in_flight: 0,
                dirty: false,
            }),
            r.deep_view().wf(),
    {
        Worker { app: App::new(scan_root), hydrate_total: 0, in_flight: 0, dirty: false }
    }

    /// Takes in what was stored, to show it until the scan is done.
    pub fn restore(&mut self, repos: &StrMap<AnnexMetadata>)
        requires
            old(self).deep_view().wf(),
            can_restore(pairs_of(repos@), old(self).deep_view().app.root_path),
        ensures
            final(self).deep_view() == old(self).deep_view().restored(pairs_of(repos@)),
            final(self).deep_view().wf(),
    {
        let ghost before = self.deep_view();
        let n: usize = repos.len();
        let ghost p = pairs_of(repos@);
        let mut i: usize = 0;
        while i < n
            invariant
                i <= n,
                n == p.len(),
                p == pairs_of(repos@),
                can_restore(p, before.app.root_path),
                self.deep_view() == (WorkerView {
                    app: before.app.all_restored(p.take(i as int)),
                    ..before
                }),
                self.app.deep_view().root_path == before.app.root_path,
                self.app.deep_view().stack == before.app.stack,
                self.app.deep_view().held == before.app.held,
            decreases n - i,
        {
            let ghost a = self.app.deep_view();
            proof {
                assert(p.take(i + 1).drop_last() =~= p.take(i as int));
                assert(p.take(i + 1).last() == p[i as int]);
            }
            let path = repos.key_at(i);
            if path_is_under(path.as_str(), self.app.root_path.as_str()) {
                let mut meta = repos.value_at(i).dup();
                assert(is_under(p[i as int].0, before.app.root_path));
                meta.ensure_sizes();
                let ghost m = meta.deep_view();
                let mut sum = meta.to_summary();
                self.app.preloaded.insert(path.clone(), Rc::new(meta));
                sum.ensure_name();
                self.app.summaries.push(sum);
                assert(self.app.summaries.deep_view() =~= a.summaries.push(
                    named(summary_of(m)),
                ));
            }
            assert(self.app.deep_view() =~= a.restored(p[i as int].0, p[i as int].1));
            i += 1;
        }
        assert(p.take(i as int) =~= p);
        let ghost a = self.app.deep_view();
        self.app.status = labelled("loaded ", count_text(self.app.preloaded.len()).as_str()).concat(
            " from cache — discovering…",
        );
        assert(self.app.deep_view() =~= AppView { status: self.app.status@, ..a });
        self.app.recompute_drive_profiles();
        self.app.refresh_root_view();
        let ghost shown = self.app.deep_view();
        self.app.scanning = true;
        assert(self.app.deep_view() =~= AppView { scanning: true, ..shown });
        assert(self.deep_view() =~= before.restored(p));
    }

    /// Takes in which directories are repositories.
    pub fn take_discovered(&mut self, found: &Vec<String>)
        requires
            old(self).deep_view().wf(),
        ensures
            final(self).deep_view() == old(self).deep_view().discovered(found.deep_view()),
            final(self).deep_view().wf(),
    {
        let ghost before = self.deep_view();
        keep_found(&mut self.app, found);
        add_bare(&mut self.app, found);
        queue_hydrate(&mut self.app, found);
        self.hydrate_total = self.app.to_hydrate.len();
        self.app.set_discovered(found);
        mark_scan_progress(&mut self.app, 0, self.hydrate_total);
        assert(self.deep_view() =~= before.discovered(found.deep_view()));
    }

    /// Takes in a repository that was loaded, and says what is to be stored. `since` says how
    /// many nanoseconds have passed since something was stored.
    pub fn take_loaded(&mut self, meta: AnnexMetadata, since: u128) -> (r: Save)
        requires
            old(self).deep_view().wf(),
            can_size(meta.deep_view()),
        ensures
            (final(self).deep_view(), r) == old(self).deep_view().loaded(
                meta.deep_view(),
                since,
            ),
            final(self).deep_view().wf(),
    {
        let ghost before = self.deep_view();
        let ghost m = meta.deep_view();
        if self.in_flight > 0 {
            self.in_flight = self.in_flight - 1;
        }
        self.app.ingest_meta(meta);
        self.dirty = true;
        mark_scan_progress(&mut self.app, self.in_flight, self.hydrate_total);
        let ghost a = self.app.deep_view();
        if !self.app.scanning {
            self.app.status = count_text(self.app.preloaded.len()).concat(
                " repos • cache updated",
            );
            assert(self.app.deep_view() =~= AppView { status: stored_status(a), ..a });
            self.dirty = false;
            assert(self.deep_view() =~= before.loaded(m, since).0);
            Save::Scan
        } else if since > SAVE_LOADED_AFTER {
            self.dirty = false;
            assert(self.deep_view() =~= before.loaded(m, since).0);
            Save::Loaded
        } else {
            assert(self.deep_view() =~= before.loaded(m, since).0);
            Save::Later
        }
    }

    /// Takes in that a repository could not be loaded.
    pub fn take_failed(&mut self, path: &str, error: &str)
        requires
            old(self).deep_view().wf(),
        ensures
            final(self).deep_view() == old(self).deep_view().failed(path@, error@),
            final(self).deep_view().wf(),
    {
        let ghost before = self.deep_view();
        if self.in_flight > 0 {
            self.in_flight = self.in_flight - 1;
        }
        mark_scan_progress(&mut self.app, self.in_flight, self.hydrate_total);
        let ghost a = self.app.deep_view();
        self.app.status = labelled("failed ", path).concat(": ").concat(error);
        assert(self.app.deep_view() =~= AppView { status: self.app.status@, ..a });
        assert(self.deep_view() =~= before.failed(path@, error@));
    }

    /// Nothing came for a while. Says which repositories are to be loaded now, and whether the
    /// scan is to be stored. `since` says how many nanoseconds have passed since something was
    /// stored.
    pub fn idle(&mut self, since: u128) -> (r: (Vec<String>, bool))
        requires
            old(self).deep_view().wf(),
        ensures
            (final(self).deep_view(), r.0.deep_view(), r.1) == old(self).deep_view().idled(
                since,
            ),
            final(self).deep_view().wf(),
    {
        let ghost before = self.deep_view();
        let ghost queue = before.app.to_hydrate;
        let ghost n = to_start(before.in_flight, queue.len());
        let mut start: Vec<String> = Vec::new();
        let ghost mut k: int = 0;
        assert(start.deep_view() =~= queue.skip(queue.len() as int).reverse());
        assert(queue.take(queue.len() as int) =~= queue);
        while self.in_flight < MAX_HYDRATE && self.app.to_hydrate.len() > 0
            invariant
                0 <= k <= n <= queue.len(),
                n == to_start(before.in_flight, queue.len()),
                queue == before.app.to_hydrate,
                self.in_flight == before.in_flight + k,
                self.app.to_hydrate.deep_view() == queue.take(queue.len() - k),
                start.deep_view() == queue.skip(queue.len() - k).reverse(),
                self.deep_view() == (WorkerView {
                    app: AppView { to_hydrate: queue.take(queue.len() - k), ..before.app },
                    in_flight: (before.in_flight + k) as usize,
                    ..before
                }),
            decreases MAX_HYDRATE - self.in_flight,
        {
            let ghost so_far = start.deep_view();
            let ghost waiting = self.app.to_hydrate.deep_view();
            assert(waiting.last() == queue[queue.len() - k - 1]);
            match self.app.to_hydrate.pop() {
                Some(p) => {
                    assert(p@ == waiting.last());
                    self.in_flight = self.in_flight + 1;
                    start.push(p);
                    proof {
                        assert(start.deep_view() =~= so_far.push(waiting.last()));
                        k = k + 1;
                        assert(start.deep_view() =~= queue.skip(queue.len() - k).reverse());
                        assert(self.app.to_hydrate.deep_view() =~= queue.take(queue.len() - k));
                        assert(self.app.deep_view() =~= AppView {
                            to_hydrate: queue.take(queue.len() - k),
                            ..before.app
                        });
                    }
                },
                None => {
                    assert(false);
                },
            }
        }
        assert(k == n);
        mark_scan_progress(&mut self.app, self.in_flight, self.hydrate_total);
        let ghost a = self.app.deep_view();
        if self.in_flight == 0 && !self.app.scanning && self.dirty && since > SAVE_SCAN_AFTER {
            self.dirty = false;
            self.app.status = count_text(self.app.preloaded.len()).concat(
                " repos • cache updated",
            );
            assert(self.app.deep_view() =~= AppView { status: stored_status(a), ..a });
            assert(self.deep_view() =~= before.idled(since).0);
            (start, true)
        } else {
            assert(self.deep_view() =~= before.idled(since).0);
            (start, false)
        }
    }

    /// Carries a command of the user out, and says what is to be done about it.
    pub fn take_command(&mut self, cmd: Command, page: usize) -> (r: Step)
        requires
            old(self).deep_view().wf(),
        ensures
            (final(self).deep_view(), r.deep_view()) == old(self).deep_view().commanded(cmd, page),
            final(self).deep_view().wf(),
    {
        if cmd == Command::Quit {
            return Step::End;
        }
        let ghost before = self.deep_view();
        self.app.execute(cmd, page);
        assert(self.deep_view() =~= before.commanded(cmd, page).0);
        if cmd == Command::Refresh {
            Step::Look
        } else {
            self.next_step()
        }
    }

    /// What is to be done next about a command that was carried out.
    pub fn next_step(&self) -> (r: Step)
        requires
            self.deep_view().wf(),
        ensures
            r.deep_view() == self.deep_view().next_step(),
    {
        match self.app.stack[self.app.stack.len() - 1].node.loading_path() {
            Some(p) => Step::Load(p),
            None => Step::Answer,
        }
    }

    /// Takes in which directories are repositories, after the user has asked to look again.
    pub fn take_rediscovered(&mut self, found: &Vec<String>)
        requires
            old(self).deep_view().wf(),
        ensures
            final(self).deep_view() == old(self).deep_view().rediscovered(found.deep_view()),
            final(self).deep_view().wf(),
    {
        let ghost before = self.deep_view();
        keep_found(&mut self.app, found);
        queue_hydrate(&mut self.app, found);
        self.hydrate_total = match self.app.to_hydrate.len().checked_add(self.in_flight) {
            Some(n) => n,
            None => usize::MAX,
        };
        self.app.set_discovered(found);
        self.app.recompute_drive_profiles();
        mark_scan_progress(&mut self.app, self.in_flight, self.hydrate_total);
        let ghost a = self.app.deep_view();
        self.app.stack.truncate(1);
        assert(self.app.stack.deep_view() =~= a.stack.take(1));
        assert(self.app.deep_view() =~= AppView { stack: a.stack.take(1), ..a });
        self.dirty = true;
        assert(self.deep_view() =~= before.rediscovered(found.deep_view()));
    }

    /// Takes in the repository that was shown as loading.
    pub fn take_installed(&mut self, meta: AnnexMetadata)
        requires
            old(self).deep_view().wf(),
            can_size(meta.deep_view()),
        ensures
            final(self).deep_view() == old(self).deep_view().installed(meta.deep_view()),
            final(self).deep_view().wf(),
    {
        let ghost before = self.deep_view();
        let ghost m = meta.deep_view();
        self.app.install_loaded_repo(meta);
        self.dirty = true;
        assert(self.deep_view() =~= before.installed(m));
    }

    /// Takes in that the repository that was shown as loading could not be loaded.
    pub fn take_not_installed(&mut self, error: &str)
        requires
            old(self).deep_view().wf(),
            old(self).deep_view().app.current().node.loading_path() is Some,
        ensures
            final(self).deep_view() == old(self).deep_view().not_installed(error@),
            final(self).deep_view().wf(),
    {
        let ghost before = self.deep_view();
        self.app.status = labelled("load failed: ", error);
        self.app.stack.pop();
        assert(self.app.stack.deep_view() =~= before.app.stack.drop_last());
        assert(self.deep_view() =~= before.not_installed(error@));
    }

    /// All that is loaded, to be stored.
    pub fn persist_preloaded(&self) -> (r: Vec<(String, AnnexMetadata)>)
        ensures
            r.deep_view() == self.deep_view().app.preloaded,
    {
        let n: usize = self.app.preloaded.len();
        let ghost p = self.app.preloaded@;
        let mut out: Vec<(String, AnnexMetadata)> = Vec::new();
        let mut i: usize = 0;
        assert(out.deep_view() =~= p.take(0));
        while i < n
            invariant
                i <= n,
                n == p.len(),
                p == self.app.preloaded@,
                out.deep_view() == p.take(i as int),
            decreases n - i,
        {
            let ghost so_far = out.deep_view();
            let meta = (**self.app.preloaded.value_at(i)).dup();
            out.push((self.app.preloaded.path_at(i).clone(), meta));
            assert(out.deep_view() =~= so_far.push(p[i as int]));
            assert(p.take(i + 1) =~= p.take(i as int).push(p[i as int]));
            i += 1;
        }
        assert(p.take(i as int) =~= p);
        out
    }

    /// What is loaded under the scanned directory, to be stored as its scan.
    pub fn persist_scan(&self) -> (r: StrMap<AnnexMetadata>)
        ensures
            r@ == by_path(
                self.deep_view().app.preloaded.filter(
                    |e: (Text, MetaView)| is_under(e.0, self.deep_view().app.root_path),
                ),
            ),
    {
        let n: usize = self.app.preloaded.len();
        let ghost p = self.app.preloaded@;
        let ghost keep = |e: (Text, MetaView)| is_under(e.0, self.deep_view().app.root_path);
        let mut out: StrMap<AnnexMetadata> = StrMap::new();
        let mut i: usize = 0;
        proof {
            reveal(Seq::filter);
            assert(p.take(0).filter(keep) =~= Seq::<(Text, MetaView)>::empty());
        }
        while i < n
            invariant
                i <= n,
                n == p.len(),
                p == self.app.preloaded@,
                keep == (|e: (Text, MetaView)| is_under(e.0, self.deep_view().app.root_path)),
                out@ == by_path(p.take(i as int).filter(keep)),
            decreases n - i,
        {
            let ghost kept = p.take(i as int).filter(keep);
            proof {
                reveal(Seq::filter);
                assert(p.take(i + 1).drop_last() =~= p.take(i as int));
                assert(p.take(i + 1).last() == p[i as int]);
            }
            let path = self.app.preloaded.path_at(i);
            if path_is_under(path.as_str(), self.app.root_path.as_str()) {
                let meta = (**self.app.preloaded.value_at(i)).dup();
                out.insert(path.clone(), meta);
                assert(kept.push(p[i as int]).drop_last() =~= kept);
            }
            i += 1;
        }
        assert(p.take(i as int) =~= p);
        out
    }
}

/// The entries by path; of two with a path the later counts.
pub open spec fn by_path(entries: Seq<(Text, MetaView)>) -> Map<Text, MetaView>
    decreases entries.len(),
{
    if entries.len() == 0 {
        Map::empty()
    } else {
        by_path(entries.drop_last()).insert(entries.last().0, entries.last().1)
    }
}

// ---------------------------------------------------------------------------------------
// Laws

/// Every repository that was found is queued, and those that are not loaded yet are taken
/// first: from the end.
pub proof fn law_uncached_first(preloaded: Seq<(Text, MetaView)>, found: Seq<Text>)
    ensures
        queue_of(preloaded, found).len() == found.len(),
        forall|p: Text| #[trigger]
            queue_of(preloaded, found).contains(p) <==> found.contains(p),
        forall|i: int, j: int|
            0 <= i < j < queue_of(preloaded, found).len() && path_value(
                preloaded,
                #[trigger] queue_of(preloaded, found)[i],
            ) is None ==> path_value(preloaded, #[trigger] queue_of(preloaded, found)[j]) is None,
{
    let known = |p: Text| path_value(preloaded, p) is Some;
    let unknown = |p: Text| path_value(preloaded, p) is None;
    let a = found.filter(known);
    let b = found.filter(unknown);
    let q = queue_of(preloaded, found);
    lemma_split_len(found, known, unknown);
    assert forall|i: int, j: int|
        0 <= i < j < q.len() && path_value(preloaded, #[trigger] q[i]) is None implies path_value(
        preloaded,
        #[trigger] q[j],
    ) is None by {
        if i < a.len() {
            found.lemma_filter_pred(known, i);
        }
        if j >= a.len() {
            found.lemma_filter_pred(unknown, j - a.len());
        }
    }
    assert forall|p: Text| #[trigger] q.contains(p) <==> found.contains(p) by {
        if q.contains(p) {
            let i = choose|i: int| 0 <= i < q.len() && q[i] == p;
            if i < a.len() {
                assert(a[i] == p);
                assert(a.contains(p));
                found.lemma_filter_contains_rev(known, p);
            } else {
                assert(b[i - a.len()] == p);
                assert(b.contains(p));
                found.lemma_filter_contains_rev(unknown, p);
            }
        }
        if found.contains(p) {
            let k = choose|k: int| 0 <= k < found.len() && found[k] == p;
            if known(p) {
                found.lemma_filter_contains(known, k);
                let i = choose|i: int| 0 <= i < a.len() && a[i] == p;
                assert(q[i] == p);
            } else {
                found.lemma_filter_contains(unknown, k);
                let i = choose|i: int| 0 <= i < b.len() && b[i] == p;
                assert(q[a.len() + i] == p);
            }
        }
    }
}

proof fn lemma_split_len(s: Seq<Text>, f: spec_fn(Text) -> bool, g: spec_fn(Text) -> bool)
    requires
        forall|x: Text| #[trigger] f(x) <==> !g(x),
    ensures
        s.filter(f).len() + s.filter(g).len() == s.len(),
    decreases s.len(),
{
    reveal(Seq::filter);
    if s.len() > 0 {
        lemma_split_len(s.drop_last(), f, g);
    }
}

/// No more repositories are loaded at a time than are meant to be.
pub proof fn law_loads_are_bounded(w: WorkerView, since: u128)
    requires
        w.in_flight <= MAX_HYDRATE,
    ensures
        w.idled(since).0.in_flight <= MAX_HYDRATE,
        w.idled(since).1.len() == w.idled(since).0.in_flight - w.in_flight,
        w.idled(since).0.app.to_hydrate.len() + w.idled(since).1.len()
            == w.app.to_hydrate.len(),
{
}

/// Every repository that was found is listed.
pub proof fn law_found_are_listed(w: WorkerView, found: Seq<Text>, k: int)
    requires
        0 <= k < found.len(),
    ensures
        is_listed(w.discovered(found).app.summaries, found[k]),
{
    let kept = w.app.keeping(found);
    lemma_with_bare(kept.summaries, found);
    let s = with_bare(kept.summaries, found);
    assert(is_listed(s, found[k]));
    assert(s.len() > 0);
    assert(w.discovered(found).app.summaries == s);
}

proof fn lemma_with_bare(summaries: Seq<SummaryView>, found: Seq<Text>)
    ensures
        forall|k: int|
            0 <= k < found.len() ==> is_listed(with_bare(summaries, found), #[trigger] found[k]),
        with_bare(summaries, found).len() >= summaries.len(),
    decreases found.len(),
{
    if found.len() > 0 {
        let rest = found.drop_last();
        lemma_with_bare(summaries, rest);
        let before = with_bare(summaries, rest);
        let after = with_bare(summaries, found);
        assert forall|k: int| 0 <= k < found.len() implies is_listed(after, #[trigger] found[k]) by {
            if k < rest.len() {
                assert(found[k] == rest[k]);
                assert(is_listed(before, rest[k]));
                let i = choose|i: int|
                    0 <= i < before.len() && same_path((#[trigger] before[i]).root, rest[k]);
                assert(after[i] == before[i]);
            } else if !is_listed(before, found.last()) {
                assert(after[before.len() as int].root == found.last());
            }
        }
    }
}

/// A repository that was not found is neither listed nor loaded, unless it was just listed by
/// its directory.
pub proof fn law_missing_are_dropped(a: AppView, found: Seq<Text>)
    ensures
        forall|i: int|
            0 <= i < a.keeping(found).summaries.len() ==> path_listed(
                found,
                (#[trigger] a.keeping(found).summaries[i]).root,
            ),
        forall|i: int|
            0 <= i < a.keeping(found).preloaded.len() ==> path_listed(
                found,
                (#[trigger] a.keeping(found).preloaded[i]).0,
            ),
{
    let b = a.keeping(found);
    assert forall|i: int| 0 <= i < b.summaries.len() implies path_listed(
        found,
        (#[trigger] b.summaries[i]).root,
    ) by {
        a.summaries.lemma_filter_pred(|s: SummaryView| path_listed(found, s.root), i);
    }
    assert forall|i: int| 0 <= i < b.preloaded.len() implies path_listed(
        found,
        (#[trigger] b.preloaded[i]).0,
    ) by {
        a.preloaded.lemma_filter_pred(|e: (Text, MetaView)| path_listed(found, e.0), i);
    }
}

/// A scan is said to run exactly while a repository is waiting or being loaded.
pub proof fn law_scanning_while_loading(a: AppView, in_flight: usize, total: usize)
    requires
        total > 0,
    ensures
        a.progress(in_flight, total).scanning <==> a.to_hydrate.len() + in_flight > 0,
{
}

/// How many answers a command gets, where `found` are the repositories that are found and
/// `loaded` is what comes of loading one.
pub open spec fn answers_to(
    w: WorkerView,
    cmd: Command,
    page: usize,
    found: Seq<Text>,
    loaded: Result<MetaView, Text>,
) -> nat {
    let (v, step) = w.commanded(cmd, page);
    let after = match step {
        StepView::End => StepView::End,
        StepView::Look => v.rediscovered(found).next_step(),
        StepView::Load { .. } => match loaded {
            Ok(meta) => v.installed(meta).next_step(),
            Err(error) => v.not_installed(error).next_step(),
        },
        StepView::Answer => StepView::Answer,
    };
    if after is Answer {
        1
    } else {
        0
    }
}

/// Each command gets one answer, after at most one step before it; only the end has none.
pub proof fn law_each_command_is_answered_once(
    w: WorkerView,
    cmd: Command,
    page: usize,
    found: Seq<Text>,
    loaded: Result<MetaView, Text>,
)
    requires
        w.wf(),
    ensures
        answers_to(w, cmd, page, found, loaded) == (if cmd == Command::Quit {
            0nat
        } else {
            1
        }),
{
    if cmd != Command::Quit {
        law_commands_keep_shape(w.app, cmd, page);
        let (v, step) = w.commanded(cmd, page);
        match step {
            StepView::Look => {
                lemma_rediscovered_at_top(v, found);
            },
            StepView::Load { path } => {
                lemma_loading_above_top(v.app);
                match loaded {
                    Ok(meta) => {
                        lemma_installed_on_top(v.app, meta);
                    },
                    Err(error) => {},
                }
            },
            _ => {},
        }
    }
}

proof fn lemma_rediscovered_at_top(w: WorkerView, found: Seq<Text>)
    requires
        w.wf(),
    ensures
        w.rediscovered(found).app.stack.len() == 1,
        w.rediscovered(found).app.stack[0].node is Root,
{
}

proof fn lemma_loading_above_top(a: AppView)
    requires
        a.wf(),
        a.current().node is Loading,
    ensures
        a.stack.len() == 2,
        a.stack.drop_last().last().node is Root,
{
    assert(a.stack[a.stack.len() - 1] == a.current());
}

} // verus!
