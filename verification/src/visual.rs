//! What the dashboards show: sizes and how the numbers of copies stand.

use vstd::prelude::*;
use crate::annex::{RepoSummary, SummaryView, UsageView};
use crate::order::{arrange, arranged, before, key_less, law_sorted, lemma_order, order, sorted_by, SortKey};
use crate::text::{text_less, Text};

verus! {

/// How the numbers of copies stand where `under` of the `keys` have too few.
pub open spec fn copy_health(keys: usize, under: usize) -> Text {
    if keys == 0 {
        "unknown"@
    } else if under == 0 {
        "ok"@
    } else if 2 * under >= keys {
        "poor"@
    } else {
        "mixed"@
    }
}

/// How the numbers of copies stand where `under` of the `keys` have too few.
pub fn copy_health_kind(keys: usize, under: usize) -> (r: &'static str)
    ensures
        r@ == copy_health(keys, under),
{
    if keys == 0 {
        "unknown"
    } else if under == 0 {
        "ok"
    } else if under >= keys || under >= keys - under {
        "poor"
    } else {
        "mixed"
    }
}

/// The number of copies that is asked for; at least one.
pub open spec fn copies_asked(n: Option<u32>) -> u32 {
    match n {
        Some(c) if c > 1 => c,
        _ => 1,
    }
}

fn copies_asked_of(n: Option<u32>) -> (r: u32)
    ensures
        r == copies_asked(n),
{
    match n {
        Some(c) => if c > 1 {
            c
        } else {
            1
        },
        None => 1,
    }
}

// ---------------------------------------------------------------------------------------
// All repositories

/// A repository on the dashboard of all repositories.
#[derive(Debug)]
pub struct VisualRepo {
    pub name: String,
    pub unique_size: u64,
    pub numcopies: u32,
    pub keys_tracked: usize,
    pub keys_under: usize,
    pub keys_ok: usize,
    pub keys_over: usize,
}

/// What a [`VisualRepo`] stands for.
#[verifier::ext_equal]
pub ghost struct VisualRepoView {
    pub name: Text,
    pub unique_size: u64,
    pub numcopies: u32,
    pub keys_tracked: usize,
    pub keys_under: usize,
    pub keys_ok: usize,
    pub keys_over: usize,
}

impl DeepView for VisualRepo {
    type V = VisualRepoView;

    open spec fn deep_view(&self) -> VisualRepoView {
        VisualRepoView {
            name: self.name@,
            unique_size: self.unique_size,
            numcopies: self.numcopies,
            keys_tracked: self.keys_tracked,
            keys_under: self.keys_under,
            keys_ok: self.keys_ok,
            keys_over: self.keys_over,
        }
    }
}

impl VisualRepo {
    /// How the numbers of copies stand.
    pub fn health_kind(&self) -> (r: &'static str)
        ensures
            r@ == copy_health(self.keys_tracked, self.keys_under),
    {
        copy_health_kind(self.keys_tracked, self.keys_under)
    }
}

/// The dashboard of all repositories.
#[derive(Debug)]
pub struct VisualReport {
    pub unique_size: u64,
    pub consumed_size: u64,
    pub repos: Vec<VisualRepo>,
    pub remotes: Vec<(String, u64)>,
}

/// What a [`VisualReport`] stands for.
#[verifier::ext_equal]
pub ghost struct ReportView {
    pub unique_size: u64,
    pub consumed_size: u64,
    pub repos: Seq<VisualRepoView>,
    pub remotes: Seq<(Text, u64)>,
}

impl DeepView for VisualReport {
    type V = ReportView;

    open spec fn deep_view(&self) -> ReportView {
        ReportView {
            unique_size: self.unique_size,
            consumed_size: self.consumed_size,
            repos: self.repos.deep_view(),
            remotes: self.remotes.deep_view(),
        }
    }
}

/// A repository as it stands on the dashboard.
pub open spec fn visual_repo(s: SummaryView) -> VisualRepoView {
    VisualRepoView {
        name: s.name,
        unique_size: s.unique_size,
        numcopies: copies_asked(s.numcopies),
        keys_tracked: s.keys_tracked,
        keys_under: s.keys_under,
        keys_ok: s.keys_ok,
        keys_over: s.keys_over,
    }
}

/// The sizes of all repositories, each key counted once in each.
pub open spec fn unique_total(summaries: Seq<SummaryView>) -> nat
    decreases summaries.len(),
{
    if summaries.len() == 0 {
        0
    } else {
        unique_total(summaries.drop_last()) + summaries.last().unique_size as nat
    }
}

/// The sizes of all repositories, with all copies.
pub open spec fn consumed_total(summaries: Seq<SummaryView>) -> nat
    decreases summaries.len(),
{
    if summaries.len() == 0 {
        0
    } else {
        consumed_total(summaries.drop_last()) + summaries.last().consumed_size as nat
    }
}

/// Whether both totals can be counted.
pub open spec fn totals_fit(summaries: Seq<SummaryView>) -> bool {
    unique_total(summaries) <= u64::MAX && consumed_total(summaries) <= u64::MAX
}

/// The dashboard of the repositories, the largest first, with the bytes of `usage` by drive.
pub open spec fn report_of(
    summaries: Seq<SummaryView>,
    usage: Seq<(Text, u64, usize, usize)>,
) -> ReportView {
    ReportView {
        unique_size: unique_total(summaries) as u64,
        consumed_size: consumed_total(summaries) as u64,
        repos: sorted_by(
            summaries.map_values(|s: SummaryView| visual_repo(s)),
            |r: VisualRepoView| (-(r.unique_size as int), r.name),
        ),
        remotes: usage.map_values(|u: (Text, u64, usize, usize)| (u.0, u.1)),
    }
}

proof fn lemma_totals_grow(summaries: Seq<SummaryView>, i: int)
    requires
        0 <= i <= summaries.len(),
    ensures
        unique_total(summaries.take(i)) <= unique_total(summaries),
        consumed_total(summaries.take(i)) <= consumed_total(summaries),
    decreases summaries.len() - i,
{
    if i < summaries.len() {
        lemma_totals_grow(summaries, i + 1);
        assert(summaries.take(i + 1).drop_last() =~= summaries.take(i));
    } else {
        assert(summaries.take(i) =~= summaries);
    }
}

/// Both totals, or nothing where one cannot be counted.
pub fn summary_totals(summaries: &Vec<RepoSummary>) -> (r: Option<(u64, u64)>)
    ensures
        r is Some == totals_fit(summaries.deep_view()),
        r matches Some(t) ==> t.0 == unique_total(summaries.deep_view()) && t.1 == consumed_total(
            summaries.deep_view(),
        ),
{
    let ghost d = summaries.deep_view();
    let mut unique: u64 = 0;
    let mut consumed: u64 = 0;
    let mut i: usize = 0;
    while i < summaries.len()
        invariant
            i <= summaries@.len(),
            d == summaries.deep_view(),
            unique == unique_total(d.take(i as int)),
            consumed == consumed_total(d.take(i as int)),
        decreases summaries@.len() - i,
    {
        proof {
            assert(d.take(i + 1).drop_last() =~= d.take(i as int));
            assert(d.take(i + 1).last() == d[i as int]);
            lemma_totals_grow(d, i + 1);
        }
        let s = &summaries[i];
        if s.unique_size > u64::MAX - unique || s.consumed_size > u64::MAX - consumed {
            return None;
        }
        unique = unique + s.unique_size;
        consumed = consumed + s.consumed_size;
        i += 1;
    }
    assert(d.take(i as int) =~= d);
    Some((unique, consumed))
}

fn visual_repos(summaries: &Vec<RepoSummary>) -> (r: Vec<VisualRepo>)
    ensures
        r.deep_view() == report_of(summaries.deep_view(), Seq::empty()).repos,
{
    let ghost d = summaries.deep_view();
    let ghost repo = |s: SummaryView| visual_repo(s);
    let ghost key = |r: VisualRepoView| (-(r.unique_size as int), r.name);
    let mut list: Vec<VisualRepo> = Vec::new();
    let mut keys: Vec<SortKey> = Vec::new();
    let mut i: usize = 0;
    assert(list.deep_view() =~= d.take(0).map_values(repo));
    assert(keys.deep_view() =~= d.take(0).map_values(repo).map_values(key));
    while i < summaries.len()
        invariant
            i <= summaries@.len(),
            d == summaries.deep_view(),
            repo == (|s: SummaryView| visual_repo(s)),
            key == (|r: VisualRepoView| (-(r.unique_size as int), r.name)),
            list@.len() == i,
            keys@.len() == i,
            list.deep_view() == d.take(i as int).map_values(repo),
            keys.deep_view() == d.take(i as int).map_values(repo).map_values(key),
        decreases summaries@.len() - i,
    {
        let ghost before = list.deep_view();
        let ghost before_keys = keys.deep_view();
        let s = &summaries[i];
        assert(s.deep_view() == d[i as int]);
        keys.push(SortKey::new(-(s.unique_size as i128), s.name.as_str()));
        list.push(
            VisualRepo {
                name: s.name.clone(),
                unique_size: s.unique_size,
                numcopies: copies_asked_of(s.numcopies),
                keys_tracked: s.keys_tracked,
                keys_under: s.keys_under,
                keys_ok: s.keys_ok,
                keys_over: s.keys_over,
            },
        );
        proof {
            let x = repo(d[i as int]);
            assert(list.deep_view() =~= before.push(x));
            assert(keys.deep_view() =~= before_keys.push(key(x)));
            assert(d.take(i + 1).map_values(repo) =~= before.push(x));
            assert(before.push(x).map_values(key) =~= before_keys.push(key(x)));
        }
        i += 1;
    }
    assert(d.take(i as int) =~= d);
    let out = arrange(list, &keys);
    proof {
        lemma_order(keys.deep_view());
        assert(out.deep_view() =~= arranged(d.map_values(repo), keys.deep_view()));
    }
    out
}

impl VisualReport {
    /// The dashboard of the repositories. `usage` holds what each drive holds over all
    /// repositories: its name, bytes, keys and repositories.
    pub fn from_summaries(
        summaries: &Vec<RepoSummary>,
        usage: &Vec<(String, u64, usize, usize)>,
    ) -> (r: VisualReport)
        requires
            totals_fit(summaries.deep_view()),
        ensures
            r.deep_view() == report_of(summaries.deep_view(), usage.deep_view()),
    {
        let repos = visual_repos(summaries);
        let ghost u = usage.deep_view();
        let ghost pair = |x: (Text, u64, usize, usize)| (x.0, x.1);
        let mut remotes: Vec<(String, u64)> = Vec::new();
        let mut i: usize = 0;
        assert(remotes.deep_view() =~= u.take(0).map_values(pair));
        while i < usage.len()
            invariant
                i <= usage@.len(),
                u == usage.deep_view(),
                pair == (|x: (Text, u64, usize, usize)| (x.0, x.1)),
                remotes.deep_view() == u.take(i as int).map_values(pair),
            decreases usage@.len() - i,
        {
            let ghost before = remotes.deep_view();
            remotes.push((usage[i].0.clone(), usage[i].1));
            assert(remotes.deep_view() =~= before.push(pair(u[i as int])));
            assert(u.take(i + 1).map_values(pair) =~= u.take(i as int).map_values(pair).push(
                pair(u[i as int]),
            ));
            i += 1;
        }
        assert(u.take(i as int) =~= u);
        let (unique_size, consumed_size) = match summary_totals(summaries) {
            Some(t) => t,
            None => (0, 0),
        };
        VisualReport { unique_size, consumed_size, repos, remotes }
    }
}

/// The repositories come largest first, and those of a size by name.
pub proof fn law_report_largest_first(
    summaries: Seq<SummaryView>,
    usage: Seq<(Text, u64, usize, usize)>,
    i: int,
    j: int,
)
    requires
        0 <= i < j < summaries.len(),
    ensures
        report_of(summaries, usage).repos.len() == summaries.len(),
        ({
            let a = report_of(summaries, usage).repos[i];
            let b = report_of(summaries, usage).repos[j];
            a.unique_size > b.unique_size || (a.unique_size == b.unique_size && (a.name == b.name
                || text_less(a.name, b.name)))
        }),
{
    let s = summaries.map_values(|x: SummaryView| visual_repo(x));
    let keys = s.map_values(|r: VisualRepoView| (-(r.unique_size as int), r.name));
    lemma_order(keys);
    assert(before(keys, order(keys)[i], order(keys)[j]));
}

// ---------------------------------------------------------------------------------------
// One repository

/// What a drive is to the repository.
#[derive(Debug, Clone, Copy, PartialEq, Eq, Structural)]
pub enum VisualRemoteKind {
    Here,
    Special,
    Other,
}

/// A drive on the dashboard of a repository.
#[derive(Debug)]
pub struct VisualRemote {
    pub name: String,
    pub size: u64,
    pub count: usize,
    pub kind: VisualRemoteKind,
}

/// What a [`VisualRemote`] stands for.
#[verifier::ext_equal]
pub ghost struct VisualRemoteView {
    pub name: Text,
    pub size: u64,
    pub count: usize,
    pub kind: VisualRemoteKind,
}

impl DeepView for VisualRemote {
    type V = VisualRemoteView;

    open spec fn deep_view(&self) -> VisualRemoteView {
        VisualRemoteView { name: self.name@, size: self.size, count: self.count, kind: self.kind }
    }
}

/// The dashboard of a repository.
#[derive(Debug)]
pub struct VisualRepoDetail {
    pub name: String,
    pub unique_size: u64,
    pub consumed_size: u64,
    pub numcopies: u32,
    pub keys_tracked: usize,
    pub keys_under: usize,
    pub keys_ok: usize,
    pub keys_over: usize,
    pub remotes: Vec<VisualRemote>,
}

/// What a [`VisualRepoDetail`] stands for.
#[verifier::ext_equal]
pub ghost struct DetailView {
    pub name: Text,
    pub unique_size: u64,
    pub consumed_size: u64,
    pub numcopies: u32,
    pub keys_tracked: usize,
    pub keys_under: usize,
    pub keys_ok: usize,
    pub keys_over: usize,
    pub remotes: Seq<VisualRemoteView>,
}

impl DeepView for VisualRepoDetail {
    type V = DetailView;

    open spec fn deep_view(&self) -> DetailView {
        DetailView {
            name: self.name@,
            unique_size: self.unique_size,
            consumed_size: self.consumed_size,
            numcopies: self.numcopies,
            keys_tracked: self.keys_tracked,
            keys_under: self.keys_under,
            keys_ok: self.keys_ok,
            keys_over: self.keys_over,
            remotes: self.remotes.deep_view(),
        }
    }
}

/// A drive as it stands on the dashboard of the repository `uuid`.
pub open spec fn visual_remote(u: UsageView, uuid: Text) -> VisualRemoteView {
    VisualRemoteView {
        name: u.name,
        size: u.present_size,
        count: u.present_count,
        kind: if u.uuid == uuid {
            VisualRemoteKind::Here
        } else if u.transfer {
            VisualRemoteKind::Special
        } else {
            VisualRemoteKind::Other
        },
    }
}

/// The drives that hold something, the one that holds the most first.
pub open spec fn visual_remotes(s: SummaryView) -> Seq<VisualRemoteView> {
    sorted_by(
        s.remote_usage.filter(|u: UsageView| u.present_count > 0 || u.present_size > 0).map_values(
            |u: UsageView| visual_remote(u, s.uuid),
        ),
        |r: VisualRemoteView| (-(r.size as int), r.name),
    )
}

/// The dashboard of a repository.
pub open spec fn detail_of(s: SummaryView) -> DetailView {
    DetailView {
        name: s.name,
        unique_size: s.unique_size,
        consumed_size: s.consumed_size,
        numcopies: copies_asked(s.numcopies),
        keys_tracked: s.keys_tracked,
        keys_under: s.keys_under,
        keys_ok: s.keys_ok,
        keys_over: s.keys_over,
        remotes: visual_remotes(s),
    }
}

impl VisualRepoDetail {
    /// How the numbers of copies stand.
    pub fn health_kind(&self) -> (r: &'static str)
        ensures
            r@ == copy_health(self.keys_tracked, self.keys_under),
    {
        copy_health_kind(self.keys_tracked, self.keys_under)
    }

    /// The dashboard of a repository.
    pub fn from_summary(s: &RepoSummary) -> (r: VisualRepoDetail)
        ensures
            r.deep_view() == detail_of(s.deep_view()),
    {
        let ghost d = s.remote_usage.deep_view();
        let ghost keep = |u: UsageView| u.present_count > 0 || u.present_size > 0;
        let ghost remote = |u: UsageView| visual_remote(u, s.uuid@);
        let ghost key = |r: VisualRemoteView| (-(r.size as int), r.name);
        let mut list: Vec<VisualRemote> = Vec::new();
        let mut keys: Vec<SortKey> = Vec::new();
        let mut i: usize = 0;
        proof {
            reveal(Seq::filter);
            assert(d.take(0).filter(keep) =~= Seq::<UsageView>::empty());
            assert(list.deep_view() =~= d.take(0).filter(keep).map_values(remote));
            assert(keys.deep_view() =~= d.take(0).filter(keep).map_values(remote).map_values(key));
        }
        while i < s.remote_usage.len()
            invariant
                i <= s.remote_usage@.len(),
                d == s.remote_usage.deep_view(),
                keep == (|u: UsageView| u.present_count > 0 || u.present_size > 0),
                remote == (|u: UsageView| visual_remote(u, s.uuid@)),
                key == (|r: VisualRemoteView| (-(r.size as int), r.name)),
                list@.len() == keys@.len(),
                list.deep_view() == d.take(i as int).filter(keep).map_values(remote),
                keys.deep_view() == d.take(i as int).filter(keep).map_values(remote).map_values(
                    key,
                ),
            decreases s.remote_usage@.len() - i,
        {
            let ghost before = list.deep_view();
            let ghost before_keys = keys.deep_view();
            let ghost kept = d.take(i as int).filter(keep);
            let u = &s.remote_usage[i];
            proof {
                reveal(Seq::filter);
                assert(d.take(i + 1).drop_last() =~= d.take(i as int));
                assert(d.take(i + 1).last() == d[i as int]);
                assert(d[i as int] == u.deep_view());
            }
            if u.present_count > 0 || u.present_size > 0 {
                let kind = if u.uuid == s.uuid {
                    VisualRemoteKind::Here
                } else if u.is_transfer_remote() {
                    VisualRemoteKind::Special
                } else {
                    VisualRemoteKind::Other
                };
                keys.push(SortKey::new(-(u.present_size as i128), u.name.as_str()));
                list.push(
                    VisualRemote {
                        name: u.name.clone(),
                        size: u.present_size,
                        count: u.present_count,
                        kind,
                    },
                );
                proof {
                    let x = remote(d[i as int]);
                    assert(list.deep_view() =~= before.push(x));
                    assert(keys.deep_view() =~= before_keys.push(key(x)));
                    assert(d.take(i + 1).filter(keep) == kept.push(d[i as int]));
                    assert(kept.push(d[i as int]).map_values(remote) =~= before.push(x));
                    assert(before.push(x).map_values(key) =~= before_keys.push(key(x)));
                }
            }
            i += 1;
        }
        assert(d.take(i as int) =~= d);
        let remotes = arrange(list, &keys);
        proof {
            lemma_order(keys.deep_view());
            assert(remotes.deep_view() =~= arranged(
                d.filter(keep).map_values(remote),
                keys.deep_view(),
            ));
        }
        VisualRepoDetail {
            name: s.name.clone(),
            unique_size: s.unique_size,
            consumed_size: s.consumed_size,
            numcopies: copies_asked_of(s.numcopies),
            keys_tracked: s.keys_tracked,
            keys_under: s.keys_under,
            keys_ok: s.keys_ok,
            keys_over: s.keys_over,
            remotes,
        }
    }
}

/// The totals of a report are the sums over the summaries.
pub proof fn law_report_totals(
    summaries: Seq<SummaryView>,
    usage: Seq<(Text, u64, usize, usize)>,
    s: SummaryView,
)
    ensures
        unique_total(summaries.push(s)) == unique_total(summaries) + s.unique_size,
        consumed_total(summaries.push(s)) == consumed_total(summaries) + s.consumed_size,
        unique_total(Seq::empty()) == 0,
        consumed_total(Seq::empty()) == 0,
        totals_fit(summaries) ==> report_of(summaries, usage).unique_size == unique_total(summaries)
            && report_of(summaries, usage).consumed_size == consumed_total(summaries),
{
    assert(summaries.push(s).drop_last() =~= summaries);
}

/// Whether the row of a report tells of the repository. A repository that asks for no copies,
/// or does not say how many, asks for one.
pub open spec fn tells_of_repository(r: VisualRepoView, s: SummaryView) -> bool {
    &&& r.name == s.name
    &&& r.unique_size == s.unique_size
    &&& r.keys_tracked == s.keys_tracked
    &&& r.keys_under == s.keys_under
    &&& r.keys_ok == s.keys_ok
    &&& r.keys_over == s.keys_over
    &&& (s.numcopies is None || s.numcopies == Some(0u32) ==> r.numcopies == 1)
    &&& (s.numcopies matches Some(n) ==> n > 0 ==> r.numcopies == n)
}

/// A report tells of every repository and of every drive that is used, and of nothing else.
#[verifier::rlimit(40)]
pub proof fn law_report_tells_of_all(
    summaries: Seq<SummaryView>,
    usage: Seq<(Text, u64, usize, usize)>,
)
    ensures
        ({
            let v = report_of(summaries, usage);
            &&& v.repos.len() == summaries.len()
            &&& forall|i: int|
                0 <= i < summaries.len() ==> exists|k: int|
                    0 <= k < v.repos.len() && tells_of_repository(
                        #[trigger] v.repos[k],
                        #[trigger] summaries[i],
                    )
            &&& forall|k: int|
                0 <= k < v.repos.len() ==> exists|i: int|
                    0 <= i < summaries.len() && tells_of_repository(
                        #[trigger] v.repos[k],
                        #[trigger] summaries[i],
                    )
            &&& v.remotes.len() == usage.len()
            &&& forall|i: int|
                0 <= i < usage.len() ==> (#[trigger] v.remotes[i]).0 == usage[i].0 && v.remotes[i].1
                    == usage[i].1
        }),
{
    let v = report_of(summaries, usage);
    let rows = summaries.map_values(|s: SummaryView| visual_repo(s));
    law_sorted(rows, |r: VisualRepoView| (-(r.unique_size as int), r.name));
    assert forall|i: int| 0 <= i < summaries.len() implies exists|k: int|
        0 <= k < v.repos.len() && tells_of_repository(
            #[trigger] v.repos[k],
            #[trigger] summaries[i],
        ) by {
        assert(rows.contains(rows[i]));
        assert(v.repos.contains(rows[i]));
        let k = choose|k: int| 0 <= k < v.repos.len() && v.repos[k] == rows[i];
        assert(tells_of_repository(v.repos[k], summaries[i]));
    }
    assert forall|k: int| 0 <= k < v.repos.len() implies exists|i: int|
        0 <= i < summaries.len() && tells_of_repository(
            #[trigger] v.repos[k],
            #[trigger] summaries[i],
        ) by {
        assert(v.repos.contains(v.repos[k]));
        assert(rows.contains(v.repos[k]));
        let i = choose|i: int| 0 <= i < rows.len() && rows[i] == v.repos[k];
        assert(tells_of_repository(v.repos[k], summaries[i]));
    }
}

/// The copies of a repository are well if no key has too few, poor if half of the keys or more
/// have, and mixed otherwise; of a repository without keys nothing is known.
pub proof fn law_copy_health(keys: usize, under: usize)
    ensures
        keys == 0 ==> copy_health(keys, under) == "unknown"@,
        keys > 0 && under == 0 ==> copy_health(keys, under) == "ok"@,
        keys > 0 && 0 < under && 2 * under < keys ==> copy_health(keys, under) == "mixed"@,
        keys > 0 && 0 < under && 2 * under >= keys ==> copy_health(keys, under) == "poor"@,
{
}

/// Whether the row of a dashboard tells how the drive is used.
pub open spec fn tells_of_usage(r: VisualRemoteView, u: UsageView, uuid: Text) -> bool {
    &&& r.name == u.name
    &&& r.size == u.present_size
    &&& r.count == u.present_count
    &&& (r.kind == VisualRemoteKind::Here <==> u.uuid == uuid)
    &&& (r.kind == VisualRemoteKind::Special <==> u.uuid != uuid && u.transfer)
}

/// Whether any content is on the drive.
pub open spec fn has_some(u: UsageView) -> bool {
    u.present_count > 0 || u.present_size > 0
}

/// Whether a row tells how the drive is used.
pub open spec fn is_told(rows: Seq<VisualRemoteView>, u: UsageView, uuid: Text) -> bool {
    exists|k: int| 0 <= k < rows.len() && tells_of_usage(#[trigger] rows[k], u, uuid)
}

/// Whether the row tells of a drive that has content.
pub open spec fn tells_of_some(r: VisualRemoteView, s: SummaryView) -> bool {
    exists|i: int|
        0 <= i < s.remote_usage.len() && has_some(#[trigger] s.remote_usage[i]) && tells_of_usage(
            r,
            s.remote_usage[i],
            s.uuid,
        )
}

/// The dashboard of a repository tells of every drive that has any of its content, those with
/// most of it first, and of no other.
#[verifier::rlimit(40)]
pub proof fn law_dashboard_tells_of_drives(s: SummaryView)
    ensures
        ({
            let v = detail_of(s);
            &&& v.name == s.name && v.unique_size == s.unique_size && v.consumed_size
                == s.consumed_size
            &&& v.keys_tracked == s.keys_tracked && v.keys_under == s.keys_under && v.keys_ok
                == s.keys_ok && v.keys_over == s.keys_over
            &&& (s.numcopies is None || s.numcopies == Some(0u32) ==> v.numcopies == 1)
            &&& (s.numcopies matches Some(n) ==> n > 0 ==> v.numcopies == n)
            &&& forall|i: int|
                0 <= i < s.remote_usage.len() && has_some(#[trigger] s.remote_usage[i]) ==> is_told(
                    v.remotes,
                    s.remote_usage[i],
                    s.uuid,
                )
            &&& forall|k: int|
                0 <= k < v.remotes.len() ==> tells_of_some(#[trigger] v.remotes[k], s)
            &&& forall|i: int, j: int|
                0 <= i < j < v.remotes.len() ==> (#[trigger] v.remotes[i]).size >= (
                #[trigger] v.remotes[j]).size
        }),
{
    let v = detail_of(s);
    let keep = |u: UsageView| u.present_count > 0 || u.present_size > 0;
    let kept = s.remote_usage.filter(keep);
    let rows = kept.map_values(|u: UsageView| visual_remote(u, s.uuid));
    let key = |r: VisualRemoteView| (-(r.size as int), r.name);
    law_sorted(rows, key);
    assert forall|i: int|
        0 <= i < s.remote_usage.len() && has_some(#[trigger] s.remote_usage[i]) implies is_told(
        v.remotes,
        s.remote_usage[i],
        s.uuid,
    ) by {
        s.remote_usage.lemma_filter_contains(keep, i);
        let j = choose|j: int| 0 <= j < kept.len() && kept[j] == s.remote_usage[i];
        assert(rows.contains(rows[j]));
        assert(v.remotes.contains(rows[j]));
        let k = choose|k: int| 0 <= k < v.remotes.len() && v.remotes[k] == rows[j];
        assert(tells_of_usage(v.remotes[k], s.remote_usage[i], s.uuid));
    }
    assert forall|k: int| 0 <= k < v.remotes.len() implies tells_of_some(
        #[trigger] v.remotes[k],
        s,
    ) by {
        assert(v.remotes.contains(v.remotes[k]));
        assert(rows.contains(v.remotes[k]));
        let j = choose|j: int| 0 <= j < rows.len() && rows[j] == v.remotes[k];
        s.remote_usage.lemma_filter_pred(keep, j);
        assert(kept.contains(kept[j]));
        s.remote_usage.lemma_filter_contains_rev(keep, kept[j]);
        let i = choose|i: int| 0 <= i < s.remote_usage.len() && s.remote_usage[i] == kept[j];
        assert(tells_of_usage(v.remotes[k], s.remote_usage[i], s.uuid));
    }
    assert forall|i: int, j: int| 0 <= i < j < v.remotes.len() implies (
    #[trigger] v.remotes[i]).size >= (#[trigger] v.remotes[j]).size by {
        assert(!key_less(key(v.remotes[j]), key(v.remotes[i])));
    }
}

} // verus!
