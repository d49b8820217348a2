//! The stored metadata of all repositories.

use vstd::prelude::*;
use crate::annex::{AnnexMetadata, MetaView, Remote, RemoteView};
use crate::logs::{is_secret, is_secret_remote_key, kept_value};
use crate::paths::{is_under, join_path, join_path_of, path_is_under};
use crate::table::{distinct_keys, has_key, lemma_map_of, lemma_map_of_drop_last, lemma_ordered_distinct, map_of, pairs_of, Dup, StrMap};
use crate::text::Text;

verus! {

/// The version of the stored form.
pub const CACHE_VERSION: u32 = 1;

/// The stored metadata of all repositories.
#[derive(Debug)]
pub struct AnnexCache {
    pub version: u32,
    /// When it was written, in unix seconds.
    pub updated: i64,
    /// The repositories by path.
    pub repos: StrMap<AnnexMetadata>,
}

/// What a [`AnnexCache`] stands for.
#[verifier::ext_equal]
pub ghost struct CacheView {
    pub version: u32,
    pub updated: i64,
    pub repos: Map<Text, MetaView>,
}

impl DeepView for AnnexCache {
    type V = CacheView;

    open spec fn deep_view(&self) -> CacheView {
        CacheView { version: self.version, updated: self.updated, repos: self.repos@ }
    }
}

impl Default for AnnexCache {
    fn default() -> (r: Self)
        ensures
            r.deep_view() == (CacheView { version: 0, updated: 0, repos: Map::empty() }),
    {
        AnnexCache { version: 0, updated: 0, repos: StrMap::new() }
    }
}

// ---------------------------------------------------------------------------------------
// Where it is

/// The directory of the stored form, by the settings of the environment.
pub open spec fn cache_home(xdg: Option<Text>, home: Option<Text>) -> Text {
    match xdg {
        Some(x) if x.len() > 0 => join_path(x, "git-annex-browser"@),
        _ => {
            let base = match home {
                Some(h) => h,
                None => "."@,
            };
            join_path(join_path(base, ".cache"@), "git-annex-browser"@)
        },
    }
}

/// The directory of the stored form, where `xdg` and `home` are what the environment has for
/// `XDG_CACHE_HOME` and `HOME`.
pub fn cache_dir(xdg: &Option<String>, home: &Option<String>) -> (r: String)
    ensures
        r@ == cache_home(xdg.deep_view(), home.deep_view()),
{
    if let Some(x) = xdg {
        if !x.as_str().is_empty() {
            return join_path_of(x.as_str(), "git-annex-browser");
        }
    }
    let base = match home {
        Some(h) => h.clone(),
        None => ".".to_string(),
    };
    join_path_of(join_path_of(base.as_str(), ".cache").as_str(), "git-annex-browser")
}

/// The file of the stored form, where `chosen` is what the environment has for
/// `GIT_ANNEX_BROWSER_CACHE`.
pub fn cache_path(chosen: &Option<String>, xdg: &Option<String>, home: &Option<String>) -> (r: String)
    ensures
        r@ == (match chosen.deep_view() {
            Some(p) if p.len() > 0 => p,
            _ => join_path(cache_home(xdg.deep_view(), home.deep_view()), "cache.json"@),
        }),
{
    if let Some(p) = chosen {
        if !p.as_str().is_empty() {
            return p.clone();
        }
    }
    join_path_of(cache_dir(xdg, home).as_str(), "cache.json")
}

/// Whether a stored form of that version can be read. Version zero is from before versions
/// were written.
pub open spec fn is_understood(version: u32) -> bool {
    version == 0 || version == CACHE_VERSION
}

/// What was read, if its version is one that is understood.
pub fn load_cache(read: AnnexCache) -> (r: Option<AnnexCache>)
    ensures
        r == (if is_understood(read.deep_view().version) {
            Some(read)
        } else {
            None
        }),
{
    if read.version != 0 && read.version != CACHE_VERSION {
        return None;
    }
    Some(read)
}

// ---------------------------------------------------------------------------------------
// Secrets

/// Settings without the values of the secret ones.
pub open spec fn redacted_config(config: Map<Text, Text>) -> Map<Text, Text> {
    Map::new(|k: Text| config.contains_key(k), |k: Text| kept_value(k, config[k]))
}

/// A drive without its secrets.
pub open spec fn redacted_drive(r: RemoteView) -> RemoteView {
    RemoteView { config: redacted_config(r.config), ..r }
}

/// Metadata without the secrets of the drives.
pub open spec fn redacted(m: MetaView) -> MetaView {
    MetaView { remotes: m.remotes.map_values(|r: RemoteView| redacted_drive(r)), ..m }
}

fn redact_config(config: &StrMap<String>) -> (r: StrMap<String>)
    ensures
        r@ == redacted_config(config@),
{
    let n: usize = config.len();
    let ghost p = pairs_of(config@);
    let mut out: StrMap<String> = StrMap::new();
    let mut i: usize = 0;
    proof {
        lemma_ordered_distinct(p);
        assert(map_of(p.take(0)) =~= Map::<Text, Text>::empty());
        assert(redacted_config(map_of(p.take(0))) =~= Map::<Text, Text>::empty());
    }
    while i < n
        invariant
            i <= n,
            n == p.len(),
            p == pairs_of(config@),
            distinct_keys(p),
            out@ == redacted_config(map_of(p.take(i as int))),
        decreases n - i,
    {
        proof {
            let s = p.take(i + 1);
            assert(s.drop_last() =~= p.take(i as int));
            assert(s.last() == p[i as int]);
            lemma_map_of_drop_last(s);
        }
        let k = config.key_at(i);
        let v = if is_secret_remote_key(k.as_str()) {
            "[redacted]".to_string()
        } else {
            config.value_at(i).clone()
        };
        out.insert(k.clone(), v);
        assert(out@ =~= redacted_config(map_of(p.take(i + 1))));
        i += 1;
    }
    assert(p.take(i as int) =~= p);
    out
}

/// Takes the values of the secret settings of the drives out.
pub fn redact_meta(meta: AnnexMetadata) -> (r: AnnexMetadata)
    ensures
        r.deep_view() == redacted(meta.deep_view()),
{
    let n: usize = meta.remotes.len();
    let ghost p = pairs_of(meta.remotes@);
    let ghost f = |r: RemoteView| redacted_drive(r);
    let mut remotes: StrMap<Remote> = StrMap::new();
    let mut i: usize = 0;
    proof {
        lemma_ordered_distinct(p);
        assert(map_of(p.take(0)) =~= Map::<Text, RemoteView>::empty());
        assert(map_of(p.take(0)).map_values(f) =~= Map::<Text, RemoteView>::empty());
    }
    while i < n
        invariant
            i <= n,
            n == p.len(),
            p == pairs_of(meta.remotes@),
            distinct_keys(p),
            f == (|r: RemoteView| redacted_drive(r)),
            remotes@ == map_of(p.take(i as int)).map_values(f),
        decreases n - i,
    {
        proof {
            let s = p.take(i + 1);
            assert(s.drop_last() =~= p.take(i as int));
            assert(s.last() == p[i as int]);
            lemma_map_of_drop_last(s);
        }
        let mut remote = meta.remotes.value_at(i).dup();
        remote.config = redact_config(&remote.config);
        assert(remote.deep_view() =~= f(p[i as int].1));
        remotes.insert(meta.remotes.key_at(i).clone(), remote);
        assert(remotes@ =~= map_of(p.take(i + 1)).map_values(f));
        i += 1;
    }
    assert(p.take(i as int) =~= p);
    let mut out = meta;
    out.remotes = remotes;
    assert(out.deep_view() =~= redacted(meta.deep_view()));
    out
}

// ---------------------------------------------------------------------------------------
// Merging

/// The stored repositories after a scan of `root` that came upon `found`: those outside
/// `root` stay, those under it are the ones that were found.
pub open spec fn merged(
    existing: Map<Text, MetaView>,
    root: Text,
    found: Map<Text, MetaView>,
) -> Map<Text, MetaView> {
    Map::new(
        |p: Text| found.contains_key(p) || (existing.contains_key(p) && !is_under(p, root)),
        |p: Text|
            if found.contains_key(p) {
                redacted(found[p])
            } else {
                existing[p]
            },
    )
}

/// The stored repositories with some put in.
pub open spec fn upserted(
    existing: Map<Text, MetaView>,
    repos: Seq<(Text, MetaView)>,
) -> Map<Text, MetaView>
    decreases repos.len(),
{
    if repos.len() == 0 {
        existing
    } else {
        upserted(existing, repos.drop_last()).insert(
            repos.last().0,
            redacted(repos.last().1),
        )
    }
}

/// Puts the repositories in, without their secrets.
fn put_in(existing: StrMap<AnnexMetadata>, repos: Vec<(String, AnnexMetadata)>) -> (r: StrMap<
    AnnexMetadata,
>)
    ensures
        r@ == upserted(existing@, repos.deep_view()),
{
    let ghost start = existing@;
    let ghost d = repos.deep_view();
    let mut out = existing;
    let mut i: usize = 0;
    while i < repos.len()
        invariant
            i <= repos@.len(),
            d == repos.deep_view(),
            out@ == upserted(start, d.take(i as int)),
        decreases repos@.len() - i,
    {
        proof {
            assert(d.take(i + 1).drop_last() =~= d.take(i as int));
            assert(d.take(i + 1).last() == d[i as int]);
        }
        let path = repos[i].0.clone();
        let meta = redact_meta(repos[i].1.dup());
        out.insert(path, meta);
        i += 1;
    }
    assert(d.take(i as int) =~= d);
    out
}

proof fn lemma_upserted(existing: Map<Text, MetaView>, repos: Seq<(Text, MetaView)>)
    requires
        distinct_keys(repos),
    ensures
        forall|p: Text| #[trigger]
            upserted(existing, repos).contains_key(p) <==> existing.contains_key(p) || map_of(
                repos,
            ).contains_key(p),
        forall|p: Text| #[trigger]
            upserted(existing, repos).contains_key(p) ==> upserted(existing, repos)[p] == (if map_of(
                repos,
            ).contains_key(p) {
                redacted(map_of(repos)[p])
            } else {
                existing[p]
            }),
    decreases repos.len(),
{
    if repos.len() == 0 {
        assert(map_of(repos) =~= Map::<Text, MetaView>::empty());
    } else {
        lemma_map_of_drop_last(repos);
        lemma_upserted(existing, repos.drop_last());
    }
}

/// Merges a scan of `scan_root` into the stored repositories: those under it that were not
/// found are dropped, all others stay.
pub fn merge_scan_repos(
    existing: StrMap<AnnexMetadata>,
    scan_root: &str,
    found: StrMap<AnnexMetadata>,
) -> (r: StrMap<AnnexMetadata>)
    ensures
        r@ == merged(existing@, scan_root@, found@),
{
    let n: usize = existing.len();
    let ghost p = pairs_of(existing@);
    let ghost start = existing@;
    let ghost keep = |q: Text| !is_under(q, scan_root@) || found@.contains_key(q);
    let mut kept: StrMap<AnnexMetadata> = StrMap::new();
    let mut rest = existing.into_pairs();
    proof {
        lemma_ordered_distinct(p);
        lemma_map_of(p);
        assert(rest.deep_view() == p.take(n as int)) by {
            assert(p.take(n as int) =~= p);
        }
    }
    let ghost mut m = n as int;
    while rest.len() > 0
        invariant
            m == rest@.len(),
            0 <= m <= p.len(),
            distinct_keys(p),
            map_of(p) == start,
            rest.deep_view() == p.take(m),
            keep == (|q: Text| !is_under(q, scan_root@) || found@.contains_key(q)),
            forall|j: int|
                0 <= j < p.len() ==> start.contains_key((#[trigger] p[j]).0) && start[p[j].0]
                    == p[j].1,
            forall|q: Text|
                #![trigger kept@.contains_key(q)]
                kept@.contains_key(q) <==> keep(q) && exists|j: int|
                    m <= j < p.len() && (#[trigger] p[j]).0 == q,
            forall|q: Text| #[trigger] kept@.contains_key(q) ==> kept@[q] == start[q],
        decreases rest@.len(),
    {
        let ghost before = kept@;
        proof {
            assert(rest.deep_view()[m - 1] == p[m - 1]);
        }
        if let Some((path, meta)) = rest.pop() {
            proof {
                m = m - 1;
                assert(rest.deep_view() =~= p.take(m));
                assert(p[m].0 == path@);
                assert(p[m].1 == meta.deep_view());
            }
            if !path_is_under(path.as_str(), scan_root) || found.contains_key(path.as_str()) {
                kept.insert(path, meta);
            }
            proof {
                assert forall|q: Text| #[trigger] kept@.contains_key(q) implies keep(q) && exists|
                    j: int,
                | m <= j < p.len() && (#[trigger] p[j]).0 == q by {
                    if q == path@ {
                        assert(p[m].0 == q);
                    } else {
                        assert(before.contains_key(q));
                    }
                }
                assert forall|q: Text|
                    keep(q) && (exists|j: int| m <= j < p.len() && (#[trigger] p[j]).0 == q) implies #[trigger] kept@.contains_key(
                    q,
                ) by {
                    if q != path@ {
                        assert(before.contains_key(q));
                    }
                }
            }
        }
    }
    proof {
        assert forall|q: Text| #[trigger] kept@.contains_key(q) <==> keep(q) && start.contains_key(
            q,
        ) by {
            if start.contains_key(q) {
                assert(has_key(p, q));
                let j = choose|j: int| 0 <= j < p.len() && (#[trigger] p[j]).0 == q;
                assert(p[j].0 == q);
            }
        }
    }
    let ghost kept_map = kept@;
    let list = found.into_pairs();
    proof {
        lemma_ordered_distinct(list.deep_view());
        lemma_upserted(kept_map, list.deep_view());
    }
    let out = put_in(kept, list);
    assert(out@ =~= merged(start, scan_root@, found@));
    out
}

/// The repositories of a stored form, if there is one.
pub open spec fn stored_repos(stored: Option<CacheView>) -> Map<Text, MetaView> {
    match stored {
        Some(c) => c.repos,
        None => Map::empty(),
    }
}

/// The stored form after a scan of `root`, written at the time `now`.
pub open spec fn scan_stored(
    stored: Option<CacheView>,
    root: Text,
    found: Map<Text, MetaView>,
    now: i64,
) -> CacheView {
    CacheView {
        version: CACHE_VERSION,
        updated: now,
        repos: merged(stored_repos(stored), root, found),
    }
}

/// The stored form after some repositories were put in, written at the time `now`.
pub open spec fn repos_stored(
    stored: Option<CacheView>,
    repos: Seq<(Text, MetaView)>,
    now: i64,
) -> CacheView {
    CacheView {
        version: CACHE_VERSION,
        updated: now,
        repos: upserted(stored_repos(stored), repos),
    }
}

/// The stored form after a scan of `scan_root`, written at the time `now`.
pub fn merge_scan_into_cache(
    stored: Option<AnnexCache>,
    scan_root: &str,
    found: StrMap<AnnexMetadata>,
    now: i64,
) -> (r: AnnexCache)
    ensures
        r.deep_view() == scan_stored(stored.deep_view(), scan_root@, found@, now),
{
    let existing = match stored {
        Some(c) => c.repos,
        None => StrMap::new(),
    };
    let repos = merge_scan_repos(existing, scan_root, found);
    AnnexCache { version: CACHE_VERSION, updated: now, repos }
}

/// The stored form after some repositories were put in, written at the time `now`.
pub fn upsert_cache_repos(
    stored: Option<AnnexCache>,
    repos: Vec<(String, AnnexMetadata)>,
    now: i64,
) -> (r: AnnexCache)
    ensures
        r.deep_view() == repos_stored(stored.deep_view(), repos.deep_view(), now),
{
    let existing = match stored {
        Some(c) => c.repos,
        None => StrMap::new(),
    };
    AnnexCache { version: CACHE_VERSION, updated: now, repos: put_in(existing, repos) }
}

// ---------------------------------------------------------------------------------------
// Laws

/// What is written can be read.
pub proof fn law_written_is_understood(
    stored: Option<CacheView>,
    root: Text,
    found: Map<Text, MetaView>,
    repos: Seq<(Text, MetaView)>,
    now: i64,
)
    ensures
        is_understood(scan_stored(stored, root, found, now).version),
        is_understood(repos_stored(stored, repos, now).version),
{
}

/// A scan leaves the repositories outside its root as they were.
pub proof fn law_scan_keeps_others(
    existing: Map<Text, MetaView>,
    root: Text,
    found: Map<Text, MetaView>,
    p: Text,
)
    requires
        !is_under(p, root),
        !found.contains_key(p),
    ensures
        merged(existing, root, found).contains_key(p) <==> existing.contains_key(p),
        existing.contains_key(p) ==> merged(existing, root, found)[p] == existing[p],
{
}

/// A scan drops the repositories under its root that it did not find.
pub proof fn law_scan_drops_missing(
    existing: Map<Text, MetaView>,
    root: Text,
    found: Map<Text, MetaView>,
    p: Text,
)
    requires
        is_under(p, root),
        !found.contains_key(p),
    ensures
        !merged(existing, root, found).contains_key(p),
{
}

/// A scan stores each repository that it found, without its secrets.
pub proof fn law_scan_stores_found(
    existing: Map<Text, MetaView>,
    root: Text,
    found: Map<Text, MetaView>,
    p: Text,
)
    requires
        found.contains_key(p),
    ensures
        merged(existing, root, found).contains_key(p),
        merged(existing, root, found)[p] == redacted(found[p]),
{
}

/// To merge a scan twice is to merge it once.
pub proof fn law_merge_twice(existing: Map<Text, MetaView>, root: Text, found: Map<Text, MetaView>)
    ensures
        merged(merged(existing, root, found), root, found) == merged(existing, root, found),
{
    assert(merged(merged(existing, root, found), root, found) =~= merged(existing, root, found));
}

/// To put repositories in drops none.
pub proof fn law_upsert_drops_none(
    existing: Map<Text, MetaView>,
    repos: Seq<(Text, MetaView)>,
    p: Text,
)
    requires
        existing.contains_key(p),
    ensures
        upserted(existing, repos).contains_key(p),
        !has_key(repos, p) ==> upserted(existing, repos)[p] == existing[p],
    decreases repos.len(),
{
    if repos.len() > 0 {
        let rest = repos.drop_last();
        law_upsert_drops_none(existing, rest, p);
        assert(repos[repos.len() - 1] == repos.last());
        if has_key(rest, p) {
            let i = choose|i: int| 0 <= i < rest.len() && (#[trigger] rest[i]).0 == p;
            assert(repos[i].0 == p);
        }
    }
}

/// No secret is left: every secret setting of every drive has the placeholder for a value,
/// and no setting is lost.
pub proof fn law_no_secret_left(m: MetaView, u: Text, k: Text)
    requires
        m.remotes.contains_key(u),
        m.remotes[u].config.contains_key(k),
    ensures
        redacted(m).remotes.contains_key(u),
        redacted(m).remotes[u].config.contains_key(k),
        is_secret(k) ==> redacted(m).remotes[u].config[k] == "[redacted]"@,
        !is_secret(k) ==> redacted(m).remotes[u].config[k] == m.remotes[u].config[k],
{
}

/// To take the secrets out twice is to take them out once.
pub proof fn law_redact_twice(m: MetaView)
    ensures
        redacted(redacted(m)) == redacted(m),
{
    let a = redacted(m).remotes;
    let b = redacted(redacted(m)).remotes;
    assert forall|u: Text| a.contains_key(u) implies a[u] == #[trigger] b[u] by {
        assert(a[u].config =~= b[u].config);
        assert(a[u] =~= b[u]);
    }
    assert(a =~= b);
    assert(redacted(redacted(m)) =~= redacted(m));
}

/// What is written of a repository is all of it, but for the secrets of its drives.
pub proof fn law_redacted_keeps_the_rest(m: MetaView, u: Text)
    ensures
        redacted(m).root == m.root,
        redacted(m).uuid == m.uuid,
        redacted(m).description == m.description,
        redacted(m).version == m.version,
        redacted(m).numcopies == m.numcopies,
        redacted(m).additional_configs == m.additional_configs,
        redacted(m).locations == m.locations,
        redacted(m).files == m.files,
        redacted(m).total_keys == m.total_keys,
        redacted(m).unique_size == m.unique_size,
        redacted(m).consumed_size == m.consumed_size,
        redacted(m).remotes.contains_key(u) <==> m.remotes.contains_key(u),
        m.remotes.contains_key(u) ==> {
            let r = m.remotes[u];
            let s = redacted(m).remotes[u];
            &&& s.uuid == r.uuid
            &&& s.description == r.description
            &&& s.trust == r.trust
            &&& s.last_fsck == r.last_fsck
            &&& s.present_count == r.present_count
            &&& s.available_space == r.available_space
            &&& s.groups == r.groups
            &&& s.wanted == r.wanted
            &&& s.required == r.required
            &&& forall|k: Text| #[trigger] s.config.contains_key(k) <==> r.config.contains_key(k)
        },
{
}

/// A repository that is stored is read back as it was stored last; none comes from nowhere.
pub proof fn law_upsert_stores_the_last(
    existing: Map<Text, MetaView>,
    repos: Seq<(Text, MetaView)>,
    p: Text,
    i: int,
)
    requires
        0 <= i < repos.len(),
        repos[i].0 == p,
        forall|j: int| i < j < repos.len() ==> (#[trigger] repos[j]).0 != p,
    ensures
        upserted(existing, repos).contains_key(p),
        upserted(existing, repos)[p] == redacted(repos[i].1),
    decreases repos.len(),
{
    let n = repos.len() - 1;
    if i < n {
        assert(repos[n].0 != p);
        let rest = repos.drop_last();
        assert forall|j: int| i < j < rest.len() implies (#[trigger] rest[j]).0 != p by {
            assert(rest[j] == repos[j]);
        }
        assert(rest[i] == repos[i]);
        law_upsert_stores_the_last(existing, rest, p, i);
    }
}

/// What is stored holds what was there and what is put in, and no more.
pub proof fn law_upsert_adds_nothing_else(
    existing: Map<Text, MetaView>,
    repos: Seq<(Text, MetaView)>,
    p: Text,
)
    requires
        upserted(existing, repos).contains_key(p),
    ensures
        existing.contains_key(p) || exists|i: int|
            0 <= i < repos.len() && (#[trigger] repos[i]).0 == p,
    decreases repos.len(),
{
    if repos.len() > 0 {
        let rest = repos.drop_last();
        if repos[repos.len() - 1].0 != p {
            law_upsert_adds_nothing_else(existing, rest, p);
            if !existing.contains_key(p) {
                let i = choose|i: int| 0 <= i < rest.len() && (#[trigger] rest[i]).0 == p;
                assert(repos[i] == rest[i]);
            }
        }
    }
}

/// What is written has the version of this program and the time, and builds on what was there.
pub proof fn law_what_is_written(
    stored: Option<CacheView>,
    root: Text,
    found: Map<Text, MetaView>,
    repos: Seq<(Text, MetaView)>,
    now: i64,
    version: u32,
)
    ensures
        scan_stored(stored, root, found, now).version == CACHE_VERSION,
        scan_stored(stored, root, found, now).updated == now,
        repos_stored(stored, repos, now).version == CACHE_VERSION,
        repos_stored(stored, repos, now).updated == now,
        stored matches Some(c) ==> scan_stored(stored, root, found, now).repos == merged(
            c.repos,
            root,
            found,
        ) && repos_stored(stored, repos, now).repos == upserted(c.repos, repos),
        stored is None ==> scan_stored(stored, root, found, now).repos == merged(
            Map::empty(),
            root,
            found,
        ) && repos_stored(stored, repos, now).repos == upserted(Map::empty(), repos),
        is_understood(version) ==> version == 0 || version == CACHE_VERSION,
        is_understood(0),
{
}

/// Where the cache is: below `XDG_CACHE_HOME` if that is set, else below `.cache` in the home
/// directory, else in the current one.
pub proof fn law_where_the_cache_is(xdg: Option<Text>, home: Option<Text>)
    ensures
        (xdg matches Some(x) && x.len() > 0) ==> cache_home(xdg, home) == join_path(
            xdg->0,
            "git-annex-browser"@,
        ),
        (xdg matches Some(x) ==> x.len() == 0) && home is Some ==> cache_home(xdg, home)
            == join_path(join_path(home->0, ".cache"@), "git-annex-browser"@),
        (xdg matches Some(x) ==> x.len() == 0) && home is None ==> cache_home(xdg, home)
            == join_path(join_path("."@, ".cache"@), "git-annex-browser"@),
{
}

} // verus!
