//! Putting together what git and git-annex answer about a repository.

use vstd::prelude::*;
use crate::annex::{keys_on, count_keys_on, law_keys_on_a_drive, sizes_fit, total_consumed, total_sizes, total_unique, AnnexMetadata, AnnexedFile, FileView, MetaView, Remote, RemoteView};
use crate::logs::{activity_log, content_log, count_log, group_log, key_size, lemma_locations_finite, lemma_newest_finite, locations_of, log_lines, parse_activity_log, parse_content_log, parse_count_log, parse_group_log, parse_remote_log, parse_size_from_key, parse_trust_log, parse_uuid_log, parse_whereis_records, remote_log, trust_log, uuid_entry, uuid_log, uuid_rows, WhereisJson, WhereisView};
use crate::reading::law_pieces_are_read;
use crate::table::{has_key, lemma_filter_front, lemma_map_of, lemma_ordered_distinct, lemma_pairs_of_finite, map_of, ordered, pairs_of, Dup, StrMap, StrSet};
use crate::text::{chars_of, contains_text, decimal, decimal_of, has_text, lemma_chars_deep, lines, lines_of, parse_u32, same_text, split_chars, split_on, string_of, trim, trim_of, u32_of, Text};
use crate::trust::TrustLevel;

verus! {

/// What git and git-annex answer about a repository, before any of it is read.
pub struct RepoAnswers {
    pub root: String,
    /// `annex.uuid` and `annex.describe`, empty where they are not set.
    pub uuid: String,
    pub describe: String,
    /// `annex.numcopies` and `numcopies.log`, where there are any.
    pub numcopies: Option<String>,
    pub numcopies_log: Option<String>,
    pub uuid_log: String,
    pub remote_log: String,
    pub trust_log: String,
    pub activity_log: String,
    pub group_log: String,
    pub preferred_log: String,
    pub required_log: String,
    /// The top-level `.gitattributes`.
    pub gitattributes: Option<String>,
    /// The settings whose names begin with `annex.`, a line each.
    pub settings: Option<String>,
    /// The annexed paths, with a NUL after each.
    pub paths: String,
    /// The keys of the paths, a line each; a line that is no text is missing.
    pub keys: Vec<Option<String>>,
    /// The records about the locations of the keys.
    pub whereis: Vec<Option<WhereisJson>>,
}

/// What a [`RepoAnswers`] stands for.
#[verifier::ext_equal]
pub ghost struct AnswersView {
    pub root: Text,
    pub uuid: Text,
    pub describe: Text,
    pub numcopies: Option<Text>,
    pub numcopies_log: Option<Text>,
    pub uuid_log: Text,
    pub remote_log: Text,
    pub trust_log: Text,
    pub activity_log: Text,
    pub group_log: Text,
    pub preferred_log: Text,
    pub required_log: Text,
    pub gitattributes: Option<Text>,
    pub settings: Option<Text>,
    pub paths: Text,
    pub keys: Seq<Option<Text>>,
    pub whereis: Seq<Option<WhereisView>>,
}

impl DeepView for RepoAnswers {
    type V = AnswersView;

    open spec fn deep_view(&self) -> AnswersView {
        AnswersView {
            root: self.root@,
            uuid: self.uuid@,
            describe: self.describe@,
            numcopies: self.numcopies.deep_view(),
            numcopies_log: self.numcopies_log.deep_view(),
            uuid_log: self.uuid_log@,
            remote_log: self.remote_log@,
            trust_log: self.trust_log@,
            activity_log: self.activity_log@,
            group_log: self.group_log@,
            preferred_log: self.preferred_log@,
            required_log: self.required_log@,
            gitattributes: self.gitattributes.deep_view(),
            settings: self.settings.deep_view(),
            paths: self.paths@,
            keys: self.keys.deep_view(),
            whereis: self.whereis.deep_view(),
        }
    }
}

impl AnswersView {
    /// The uuid of the repository.
    pub open spec fn here(self) -> Text {
        trim(self.uuid)
    }

    /// The description that the repository has in its own settings.
    pub open spec fn here_description(self) -> Text {
        trim(self.describe)
    }

    /// How many copies there are to be: what the settings say, else what the log says.
    pub open spec fn copies(self) -> Option<u32> {
        let set = match self.numcopies {
            Some(t) => parse_u32(trim(t)),
            None => None,
        };
        match set {
            Some(n) => Some(n),
            None => match self.numcopies_log {
                Some(t) => count_log(t),
                None => None,
            },
        }
    }
}

// ---------------------------------------------------------------------------------------
// Drives

/// Whether the drive `u` is known: by a log, or as the repository itself.
pub open spec fn knows_drive(a: AnswersView, u: Text) -> bool {
    uuid_log(a.uuid_log).contains_key(u) || remote_log(a.remote_log).contains_key(u) || (u
        == a.here() && u.len() > 0)
}

/// What `m` holds for `u`, or `other`.
pub open spec fn value_or<B>(m: Map<Text, B>, u: Text, other: B) -> B {
    if m.contains_key(u) {
        m[u]
    } else {
        other
    }
}

/// What `m` holds for `u`.
pub open spec fn value_for<B>(m: Map<Text, B>, u: Text) -> Option<B> {
    if m.contains_key(u) {
        Some(m[u])
    } else {
        None
    }
}

/// The settings of the drive `u`. The repository itself, where no log speaks of it, is named
/// `here`.
pub open spec fn drive_config(a: AnswersView, u: Text) -> Map<Text, Text> {
    if remote_log(a.remote_log).contains_key(u) {
        remote_log(a.remote_log)[u]
    } else if uuid_log(a.uuid_log).contains_key(u) {
        Map::empty()
    } else {
        Map::<Text, Text>::empty().insert("name"@, "here"@)
    }
}

/// The description of the drive `u`.
pub open spec fn drive_description(a: AnswersView, u: Text) -> Text {
    let config = drive_config(a, u);
    if uuid_log(a.uuid_log).contains_key(u) {
        let d = uuid_log(a.uuid_log)[u].1;
        if d == u && config.contains_key("name"@) {
            config["name"@]
        } else if d.len() == 0 {
            u
        } else {
            d
        }
    } else if remote_log(a.remote_log).contains_key(u) {
        value_or(config, "name"@, u)
    } else if a.here_description().len() == 0 {
        "here"@
    } else {
        a.here_description()
    }
}

/// What the logs say of the drive `u`.
pub open spec fn logged_drive(a: AnswersView, u: Text) -> RemoteView {
    RemoteView {
        uuid: u,
        description: drive_description(a, u),
        config: drive_config(a, u),
        trust: value_or(trust_log(a.trust_log), u, TrustLevel::SemiTrusted),
        last_fsck: value_for(activity_log(a.activity_log), u),
        present_count: 0,
        available_space: None,
        groups: value_or(group_log(a.group_log), u, Seq::empty()),
        wanted: value_for(content_log(a.preferred_log), u),
        required: value_for(content_log(a.required_log), u),
    }
}

/// The drives that the logs know, and the repository itself.
pub open spec fn logged_drives(a: AnswersView) -> Map<Text, RemoteView> {
    Map::new(|u: Text| knows_drive(a, u), |u: Text| logged_drive(a, u))
}

/// The logs of a repository, read.
struct Logs {
    configs: StrMap<StrMap<String>>,
    trusts: StrMap<TrustLevel>,
    fscks: StrMap<i64>,
    groups: StrMap<Vec<String>>,
    wanted: StrMap<String>,
    required: StrMap<String>,
}

impl Logs {
    spec fn reads(self, a: AnswersView) -> bool {
        &&& self.configs@ == remote_log(a.remote_log)
        &&& self.trusts@ == trust_log(a.trust_log)
        &&& self.fscks@ == activity_log(a.activity_log)
        &&& self.groups@ == group_log(a.group_log)
        &&& self.wanted@ == content_log(a.preferred_log)
        &&& self.required@ == content_log(a.required_log)
    }

    fn read(a: &RepoAnswers) -> (r: Logs)
        ensures
            r.reads(a.deep_view()),
    {
        Logs {
            configs: parse_remote_log(a.remote_log.as_str()),
            trusts: parse_trust_log(a.trust_log.as_str()),
            fscks: parse_activity_log(a.activity_log.as_str()),
            groups: parse_group_log(a.group_log.as_str()),
            wanted: parse_content_log(a.preferred_log.as_str()),
            required: parse_content_log(a.required_log.as_str()),
        }
    }

    /// The drive `u` with what is the same for every drive.
    fn drive(
        &self,
        a: Ghost<AnswersView>,
        u: &String,
        description: String,
        config: StrMap<String>,
    ) -> (r: Remote)
        requires
            self.reads(a@),
            description@ == drive_description(a@, u@),
            config@ == drive_config(a@, u@),
        ensures
            r.deep_view() == logged_drive(a@, u@),
    {
        let trust = match self.trusts.get(u.as_str()) {
            Some(t) => *t,
            None => TrustLevel::SemiTrusted,
        };
        let last_fsck = match self.fscks.get(u.as_str()) {
            Some(t) => Some(*t),
            None => None,
        };
        let groups = match self.groups.get(u.as_str()) {
            Some(g) => g.dup(),
            None => Vec::new(),
        };
        let wanted = match self.wanted.get(u.as_str()) {
            Some(e) => Some(e.clone()),
            None => None,
        };
        let required = match self.required.get(u.as_str()) {
            Some(e) => Some(e.clone()),
            None => None,
        };
        let r = Remote {
            uuid: u.clone(),
            description,
            config,
            trust,
            last_fsck,
            present_count: 0,
            available_space: None,
            groups,
            wanted,
            required,
        };
        assert(r.deep_view() =~= logged_drive(a@, u@));
        r
    }
}

/// The drives that the logs know, and the repository itself.
pub fn known_remotes(a: &RepoAnswers) -> (r: StrMap<Remote>)
    ensures
        r@ == logged_drives(a.deep_view()),
{
    let ghost v = a.deep_view();
    let logs = Logs::read(a);
    let rows = parse_uuid_log(a.uuid_log.as_str());
    let ghost named = uuid_log(v.uuid_log);
    let ghost pairs = pairs_of(named);
    let ghost d = rows.deep_view();
    proof {
        lemma_uuid_rows(v.uuid_log);
    }
    let mut remotes: StrMap<Remote> = StrMap::new();
    let mut i: usize = 0;
    while i < rows.len()
        invariant
            i <= rows@.len(),
            v == a.deep_view(),
            logs.reads(v),
            named == uuid_log(v.uuid_log),
            d == rows.deep_view(),
            d.len() == pairs.len(),
            forall|k: int|
                0 <= k < d.len() ==> named.contains_key((#[trigger] d[k]).0) && named[d[k].0].1
                    == d[k].1,
            forall|u: Text|
                #![trigger remotes@.contains_key(u)]
                remotes@.contains_key(u) <==> exists|k: int| 0 <= k < i && (#[trigger] d[k]).0 == u,
            forall|u: Text| #[trigger]
                remotes@.contains_key(u) ==> remotes@[u] == logged_drive(v, u),
        decreases rows@.len() - i,
    {
        let u = &rows[i].0;
        let desc = &rows[i].1;
        assert(d[i as int].0 == u@);
        assert(d[i as int].1 == desc@);
        let config = match logs.configs.get(u.as_str()) {
            Some(c) => c.dup(),
            None => StrMap::new(),
        };
        let name = match config.get("name") {
            Some(n) => Some(n.clone()),
            None => None,
        };
        let description = if *desc == *u && name.is_some() {
            match name {
                Some(n) => n,
                None => u.clone(),
            }
        } else if desc.as_str().is_empty() {
            u.clone()
        } else {
            desc.clone()
        };
        let ghost before = remotes@;
        let remote = logs.drive(Ghost(v), u, description, config);
        remotes.insert(u.clone(), remote);
        i += 1;
        proof {
            assert forall|w: Text| #[trigger] remotes@.contains_key(w) implies exists|k: int|
                0 <= k < i && (#[trigger] d[k]).0 == w by {
                if w == u@ {
                    assert(d[i - 1].0 == w);
                } else {
                    assert(before.contains_key(w));
                }
            }
            assert forall|w: Text|
                (exists|k: int| 0 <= k < i && (#[trigger] d[k]).0 == w) implies #[trigger] remotes@.contains_key(
                w,
            ) by {
                if w != u@ {
                    assert(before.contains_key(w));
                }
            }
        }
    }
    proof {
        assert forall|u: Text| remotes@.contains_key(u) <==> named.contains_key(u) by {
            lemma_uuid_rows(v.uuid_log);
            if named.contains_key(u) {
                assert(exists|k: int| 0 <= k < d.len() && (#[trigger] d[k]).0 == u);
            }
        }
    }
    let n: usize = logs.configs.len();
    let ghost configs = pairs_of(logs.configs@);
    let mut j: usize = 0;
    while j < n
        invariant
            j <= n,
            n == configs.len(),
            v == a.deep_view(),
            logs.reads(v),
            named == uuid_log(v.uuid_log),
            configs == pairs_of(logs.configs@),
            ordered(configs),
            map_of(configs) == logs.configs@,
            forall|u: Text|
                #![trigger remotes@.contains_key(u)]
                remotes@.contains_key(u) <==> named.contains_key(u) || exists|k: int|
                    0 <= k < j && (#[trigger] configs[k]).0 == u,
            forall|u: Text| #[trigger]
                remotes@.contains_key(u) ==> remotes@[u] == logged_drive(v, u),
        decreases n - j,
    {
        let ghost before = remotes@;
        let u = logs.configs.key_at(j);
        let config = logs.configs.value_at(j);
        proof {
            lemma_ordered_distinct(configs);
            lemma_map_of(configs);
            assert(configs[j as int].0 == u@);
            assert(logs.configs@.contains_key(u@));
            assert(logs.configs@[u@] == config@);
        }
        if !remotes.contains_key(u.as_str()) {
            let description = match config.get("name") {
                Some(name) => name.clone(),
                None => u.clone(),
            };
            let remote = logs.drive(Ghost(v), u, description, config.dup());
            remotes.insert(u.clone(), remote);
        }
        j += 1;
        proof {
            assert forall|w: Text| #[trigger] remotes@.contains_key(w) implies named.contains_key(w)
                || exists|k: int| 0 <= k < j && (#[trigger] configs[k]).0 == w by {
                if w == u@ {
                    assert(configs[j - 1].0 == w);
                } else {
                    assert(before.contains_key(w));
                }
            }
            assert forall|w: Text|
                named.contains_key(w) || (exists|k: int|
                    0 <= k < j && (#[trigger] configs[k]).0 == w) implies #[trigger] remotes@.contains_key(
                w,
            ) by {
                if w != u@ {
                    assert(before.contains_key(w));
                }
            }
        }
    }
    proof {
        lemma_ordered_distinct(configs);
        lemma_map_of(configs);
        assert forall|u: Text|
            remotes@.contains_key(u) <==> named.contains_key(u) || logs.configs@.contains_key(u) by {
            if logs.configs@.contains_key(u) {
                assert(has_key(configs, u));
                assert(exists|k: int| 0 <= k < configs.len() && (#[trigger] configs[k]).0 == u);
            }
        }
    }
    let uuid_chars = chars_of(a.uuid.as_str());
    let here = string_of(trim_of(uuid_chars.as_slice()));
    if !here.as_str().is_empty() && !remotes.contains_key(here.as_str()) {
        let describe_chars = chars_of(a.describe.as_str());
        let desc = string_of(trim_of(describe_chars.as_slice()));
        let mut config: StrMap<String> = StrMap::new();
        config.insert("name".to_string(), "here".to_string());
        let description = if desc.as_str().is_empty() {
            "here".to_string()
        } else {
            desc
        };
        let remote = logs.drive(Ghost(v), &here, description, config);
        remotes.insert(here, remote);
    }
    assert(remotes@ =~= logged_drives(v));
    remotes
}

proof fn lemma_uuid_rows(text: Text)
    ensures
        uuid_rows(text).len() == pairs_of(uuid_log(text)).len(),
        forall|k: int|
            0 <= k < uuid_rows(text).len() ==> uuid_log(text).contains_key(
                (#[trigger] uuid_rows(text)[k]).0,
            ) && uuid_log(text)[uuid_rows(text)[k].0].1 == uuid_rows(text)[k].1,
        forall|u: Text|
            uuid_log(text).contains_key(u) ==> exists|k: int|
                0 <= k < uuid_rows(text).len() && (#[trigger] uuid_rows(text)[k]).0 == u,
{
    let m = uuid_log(text);
    lemma_newest_finite(log_lines(text), |l: Text| uuid_entry(l));
    lemma_pairs_of_finite(m);
    let p = pairs_of(m);
    lemma_ordered_distinct(p);
    lemma_map_of(p);
    assert forall|k: int| 0 <= k < uuid_rows(text).len() implies m.contains_key(
        (#[trigger] uuid_rows(text)[k]).0,
    ) && m[uuid_rows(text)[k].0].1 == uuid_rows(text)[k].1 by {
        assert(map_of(p).contains_key(p[k].0));
    }
    assert forall|u: Text| m.contains_key(u) implies exists|k: int|
        0 <= k < uuid_rows(text).len() && (#[trigger] uuid_rows(text)[k]).0 == u by {
        assert(has_key(p, u));
        let k = choose|k: int| 0 <= k < p.len() && (#[trigger] p[k]).0 == u;
        assert(uuid_rows(text)[k].0 == u);
    }
}

// ---------------------------------------------------------------------------------------
// Settings

/// The lines of `.gitattributes` that set something of git-annex.
pub open spec fn attribute_rows(text: Text) -> Seq<Text> {
    lines(text).map_values(|l: Text| trim(l)).filter(
        |l: Text| contains_text(l, "annex."@),
    ).map_values(|l: Text| ".gitattributes: "@ + l)
}

/// The settings that are not shown elsewhere.
pub open spec fn setting_rows(text: Text) -> Seq<Text> {
    lines(text).filter(
        |l: Text|
            !contains_text(l, "numcopies"@) && !contains_text(l, "uuid"@) && !contains_text(
                l,
                "describe"@,
            ),
    )
}

/// The further settings of the repository, a line each.
pub open spec fn config_rows(a: AnswersView) -> Seq<Text> {
    let copies = match a.copies() {
        Some(n) => seq!["annex.numcopies="@ + decimal(n as nat)],
        None => Seq::empty(),
    };
    let attributes = match a.gitattributes {
        Some(t) => attribute_rows(t),
        None => Seq::empty(),
    };
    let settings = match a.settings {
        Some(t) => setting_rows(t),
        None => Seq::empty(),
    };
    copies + attributes + settings
}

fn copies_of(a: &RepoAnswers) -> (r: Option<u32>)
    ensures
        r == a.deep_view().copies(),
{
    if let Some(t) = &a.numcopies {
        let c = chars_of(t.as_str());
        let n = u32_of(trim_of(c.as_slice()));
        if n.is_some() {
            return n;
        }
    }
    match &a.numcopies_log {
        Some(t) => parse_count_log(t.as_str()),
        None => None,
    }
}

fn attribute_rows_of(text: &str) -> (r: Vec<String>)
    ensures
        r.deep_view() == attribute_rows(text@),
{
    let c = chars_of(text);
    let all = lines_of(c.as_slice());
    let ghost trimmed = all.deep_view().map_values(|l: Text| trim(l));
    let ghost keep = |l: Text| contains_text(l, "annex."@);
    let ghost label = |l: Text| ".gitattributes: "@ + l;
    let mut out: Vec<String> = Vec::new();
    let mut i: usize = 0;
    proof {
        reveal(Seq::filter);
        assert(trimmed.take(0).filter(keep) =~= Seq::<Text>::empty());
        assert(out.deep_view() =~= trimmed.take(0).filter(keep).map_values(label));
    }
    while i < all.len()
        invariant
            i <= all@.len(),
            trimmed == all.deep_view().map_values(|l: Text| trim(l)),
            keep == (|l: Text| contains_text(l, "annex."@)),
            label == (|l: Text| ".gitattributes: "@ + l),
            out.deep_view() == trimmed.take(i as int).filter(keep).map_values(label),
        decreases all@.len() - i,
    {
        let ghost before = out.deep_view();
        let line = trim_of(all[i].as_slice());
        proof {
            lemma_chars_deep(all@[i as int]);
            reveal(Seq::filter);
            assert(trimmed.take(i + 1).drop_last() =~= trimmed.take(i as int));
            assert(trimmed.take(i + 1).last() == line@);
        }
        if has_text(line, "annex.") {
            out.push(".gitattributes: ".to_string().concat(string_of(line).as_str()));
            proof {
                assert(out.deep_view() =~= before.push(label(line@)));
                assert(trimmed.take(i + 1).filter(keep) == trimmed.take(i as int).filter(keep).push(
                    line@,
                ));
                assert(trimmed.take(i + 1).filter(keep).map_values(label) =~= before.push(
                    label(line@),
                ));
            }
        }
        i += 1;
    }
    assert(trimmed.take(i as int) =~= trimmed);
    out
}

fn setting_rows_of(text: &str) -> (r: Vec<String>)
    ensures
        r.deep_view() == setting_rows(text@),
{
    let c = chars_of(text);
    let all = lines_of(c.as_slice());
    let ghost l = all.deep_view();
    let ghost keep = |s: Text|
        !contains_text(s, "numcopies"@) && !contains_text(s, "uuid"@) && !contains_text(
            s,
            "describe"@,
        );
    let mut out: Vec<String> = Vec::new();
    let mut i: usize = 0;
    proof {
        reveal(Seq::filter);
        assert(l.take(0).filter(keep) =~= Seq::<Text>::empty());
        assert(out.deep_view() =~= Seq::<Text>::empty());
    }
    while i < all.len()
        invariant
            i <= all@.len(),
            l == all.deep_view(),
            keep == (|s: Text|
                !contains_text(s, "numcopies"@) && !contains_text(s, "uuid"@) && !contains_text(
                    s,
                    "describe"@,
                )),
            out.deep_view() == l.take(i as int).filter(keep),
        decreases all@.len() - i,
    {
        let ghost before = out.deep_view();
        let line = all[i].as_slice();
        proof {
            lemma_chars_deep(all@[i as int]);
            reveal(Seq::filter);
            assert(l.take(i + 1).drop_last() =~= l.take(i as int));
            assert(l.take(i + 1).last() == line@);
        }
        if !has_text(line, "numcopies") && !has_text(line, "uuid") && !has_text(line, "describe") {
            out.push(string_of(line));
            assert(out.deep_view() =~= before.push(line@));
        }
        i += 1;
    }
    assert(l.take(i as int) =~= l);
    out
}

fn append_rows(out: &mut Vec<String>, more: Vec<String>)
    ensures
        final(out).deep_view() == old(out).deep_view() + more.deep_view(),
{
    let ghost start = out.deep_view();
    let ghost d = more.deep_view();
    let mut i: usize = 0;
    assert(start + d.take(0) =~= start);
    while i < more.len()
        invariant
            i <= more@.len(),
            d == more.deep_view(),
            out.deep_view() == start + d.take(i as int),
        decreases more@.len() - i,
    {
        let ghost before = out.deep_view();
        out.push(more[i].clone());
        assert(out.deep_view() =~= before.push(d[i as int]));
        assert(start + d.take(i + 1) =~= (start + d.take(i as int)).push(d[i as int]));
        i += 1;
    }
    assert(d.take(i as int) =~= d);
}

fn config_rows_of(a: &RepoAnswers, copies: Option<u32>) -> (r: Vec<String>)
    requires
        copies == a.deep_view().copies(),
    ensures
        r.deep_view() == config_rows(a.deep_view()),
{
    let mut out: Vec<String> = Vec::new();
    if let Some(n) = copies {
        out.push("annex.numcopies=".to_string().concat(decimal_of(n as u64).as_str()));
        assert(out.deep_view() =~= seq!["annex.numcopies="@ + decimal(n as nat)]);
    } else {
        assert(out.deep_view() =~= Seq::<Text>::empty());
    }
    let ghost first = out.deep_view();
    if let Some(t) = &a.gitattributes {
        append_rows(&mut out, attribute_rows_of(t.as_str()));
    } else {
        assert(first + Seq::<Text>::empty() =~= first);
    }
    let ghost second = out.deep_view();
    if let Some(t) = &a.settings {
        append_rows(&mut out, setting_rows_of(t.as_str()));
    } else {
        assert(second + Seq::<Text>::empty() =~= second);
    }
    out
}

// ---------------------------------------------------------------------------------------
// Files

/// The pieces of `text` between NULs, without the empty ones.
pub open spec fn nul_pieces(text: Text) -> Seq<Text> {
    split_on(text, '\0').filter(|p: Text| p.len() > 0)
}

/// The pieces of `text` between NULs, without the empty ones: the paths in an answer with a
/// NUL after each.
pub fn paths_in(text: &str) -> (r: Vec<String>)
    ensures
        r.deep_view() == nul_pieces(text@),
{
    let c = chars_of(text);
    let all = split_chars(c.as_slice(), '\0');
    let ghost l = all.deep_view();
    let ghost keep = |p: Text| p.len() > 0;
    let mut out: Vec<String> = Vec::new();
    let mut i: usize = 0;
    proof {
        reveal(Seq::filter);
        assert(l.take(0).filter(keep) =~= Seq::<Text>::empty());
        assert(out.deep_view() =~= Seq::<Text>::empty());
    }
    while i < all.len()
        invariant
            i <= all@.len(),
            l == all.deep_view(),
            keep == (|p: Text| p.len() > 0),
            out.deep_view() == l.take(i as int).filter(keep),
        decreases all@.len() - i,
    {
        let ghost before = out.deep_view();
        let piece = all[i].as_slice();
        proof {
            lemma_chars_deep(all@[i as int]);
            reveal(Seq::filter);
            assert(l.take(i + 1).drop_last() =~= l.take(i as int));
            assert(l.take(i + 1).last() == piece@);
        }
        if piece.len() > 0 {
            out.push(string_of(piece));
            assert(out.deep_view() =~= before.push(piece@));
        }
        i += 1;
    }
    assert(l.take(i as int) =~= l);
    out
}

/// The files with the given paths and keys. A path whose key is missing is left out, and so
/// are keys beyond the last path.
pub open spec fn keyed_files(paths: Seq<Text>, keys: Seq<Option<Text>>) -> Seq<FileView>
    decreases keys.len(),
{
    if keys.len() == 0 {
        Seq::empty()
    } else {
        let before = keyed_files(paths, keys.drop_last());
        let i = keys.len() - 1;
        match keys.last() {
            Some(key) if i < paths.len() => before.push(
                FileView { path: paths[i], key, size: key_size(key) },
            ),
            _ => before,
        }
    }
}

/// The files with the given paths and keys.
pub fn files_with_keys(paths: &Vec<String>, keys: &Vec<Option<String>>) -> (r: Vec<AnnexedFile>)
    ensures
        r.deep_view() == keyed_files(paths.deep_view(), keys.deep_view()),
{
    let ghost p = paths.deep_view();
    let ghost k = keys.deep_view();
    let mut out: Vec<AnnexedFile> = Vec::new();
    let mut i: usize = 0;
    assert(out.deep_view() =~= Seq::<FileView>::empty());
    while i < keys.len()
        invariant
            i <= keys@.len(),
            p == paths.deep_view(),
            k == keys.deep_view(),
            out.deep_view() == keyed_files(p, k.take(i as int)),
        decreases keys@.len() - i,
    {
        let ghost before = out.deep_view();
        proof {
            assert(k.take(i + 1).drop_last() =~= k.take(i as int));
            assert(k.take(i + 1).last() == k[i as int]);
        }
        if let Some(key) = &keys[i] {
            if i < paths.len() {
                let file = AnnexedFile {
                    path: paths[i].clone(),
                    key: key.clone(),
                    size: parse_size_from_key(key.as_str()),
                };
                out.push(file);
                assert(out.deep_view() =~= before.push(
                    FileView { path: p[i as int], key: key@, size: key_size(key@) },
                ));
            }
        }
        i += 1;
    }
    assert(k.take(i as int) =~= k);
    out
}

// ---------------------------------------------------------------------------------------
// Space

/// Where the drive is on this machine: its directory, if that exists; the repository itself
/// is at its root.
pub open spec fn drive_path(r: RemoteView, root: Text, here: Text, there: bool) -> Option<Text> {
    if there && r.config.contains_key("directory"@) {
        Some(r.config["directory"@])
    } else if r.uuid == here {
        Some(root)
    } else {
        None
    }
}

/// Where the drive is on this machine. `there` says whether the directory of its settings
/// exists: a drive may not be mounted.
pub fn remote_drive_path(rem: &Remote, root: &str, here: &str, there: bool) -> (r: Option<String>)
    ensures
        r.deep_view() == drive_path(rem.deep_view(), root@, here@, there),
{
    if there {
        if let Some(dir) = rem.config.get("directory") {
            return Some(dir.clone());
        }
    }
    if same_text(rem.uuid.as_str(), here) {
        return Some(root.to_string());
    }
    None
}

/// Free and total bytes of a file system with blocks of `block` bytes, as many as can be
/// counted.
pub fn fs_space(block: u64, free: u64, total: u64) -> (r: (u64, u64))
    ensures
        r.0 == (if free * block <= u64::MAX {
            free * block
        } else {
            u64::MAX as int
        }),
        r.1 == (if total * block <= u64::MAX {
            total * block
        } else {
            u64::MAX as int
        }),
{
    let free_bytes: u64 = match free.checked_mul(block) {
        Some(n) => n,
        None => u64::MAX,
    };
    let total_bytes: u64 = match total.checked_mul(block) {
        Some(n) => n,
        None => u64::MAX,
    };
    (free_bytes, total_bytes)
}

/// The drives, with the free bytes that are known of some.
pub open spec fn with_spaces(remotes: Map<Text, RemoteView>, spaces: Map<Text, u64>) -> Map<
    Text,
    RemoteView,
> {
    Map::new(
        |u: Text| remotes.contains_key(u),
        |u: Text|
            if spaces.contains_key(u) {
                RemoteView { available_space: Some(spaces[u]), ..remotes[u] }
            } else {
                remotes[u]
            },
    )
}

/// The drives, with the number of keys that are present on each.
pub open spec fn with_counts(remotes: Map<Text, RemoteView>, locations: Map<Text, Set<Text>>) -> Map<
    Text,
    RemoteView,
> {
    Map::new(
        |u: Text| remotes.contains_key(u),
        |u: Text|
            RemoteView {
                present_count: keys_on(pairs_of(locations), u) as usize,
                ..remotes[u]
            },
    )
}

/// Fills in the free bytes of the drives of which they are known.
pub fn fill_drive_spaces(remotes: &StrMap<Remote>, spaces: &StrMap<u64>) -> (r: StrMap<Remote>)
    ensures
        r@ == with_spaces(remotes@, spaces@),
{
    let n: usize = remotes.len();
    let ghost p = pairs_of(remotes@);
    let mut out: StrMap<Remote> = StrMap::new();
    let mut i: usize = 0;
    proof {
        lemma_ordered_distinct(p);
        lemma_map_of(p);
    }
    while i < n
        invariant
            i <= n,
            n == p.len(),
            p == pairs_of(remotes@),
            map_of(p) == remotes@,
            forall|j: int|
                0 <= j < p.len() ==> map_of(p).contains_key((#[trigger] p[j]).0) && map_of(
                    p,
                )[p[j].0] == p[j].1,
            forall|u: Text|
                #![trigger out@.contains_key(u)]
                out@.contains_key(u) <==> exists|j: int| 0 <= j < i && (#[trigger] p[j]).0 == u,
            forall|u: Text| #[trigger]
                out@.contains_key(u) ==> out@[u] == with_spaces(remotes@, spaces@)[u],
        decreases n - i,
    {
        let ghost before = out@;
        let u = remotes.key_at(i);
        let mut remote = remotes.value_at(i).dup();
        assert(p[i as int].0 == u@);
        assert(remotes@[u@] == remote.deep_view());
        if let Some(space) = spaces.get(u.as_str()) {
            remote.available_space = Some(*space);
        }
        assert(remote.deep_view() =~= with_spaces(remotes@, spaces@)[u@]);
        out.insert(u.clone(), remote);
        i += 1;
        proof {
            assert forall|w: Text| #[trigger] out@.contains_key(w) implies exists|j: int|
                0 <= j < i && (#[trigger] p[j]).0 == w by {
                if w == u@ {
                    assert(p[i - 1].0 == w);
                } else {
                    assert(before.contains_key(w));
                }
            }
            assert forall|w: Text|
                (exists|j: int| 0 <= j < i && (#[trigger] p[j]).0 == w) implies #[trigger] out@.contains_key(
                w,
            ) by {
                if w != u@ {
                    assert(before.contains_key(w));
                }
            }
        }
    }
    proof {
        assert forall|u: Text| out@.contains_key(u) <==> remotes@.contains_key(u) by {
            if remotes@.contains_key(u) {
                assert(has_key(p, u));
                assert(exists|j: int| 0 <= j < p.len() && (#[trigger] p[j]).0 == u);
            }
        }
        assert(out@ =~= with_spaces(remotes@, spaces@));
    }
    out
}

fn fill_counts(remotes: &StrMap<Remote>, locations: &StrMap<StrSet>) -> (r: StrMap<Remote>)
    ensures
        r@ == with_counts(remotes@, locations@),
{
    let n: usize = remotes.len();
    let ghost p = pairs_of(remotes@);
    let mut out: StrMap<Remote> = StrMap::new();
    let mut i: usize = 0;
    proof {
        lemma_ordered_distinct(p);
        lemma_map_of(p);
    }
    while i < n
        invariant
            i <= n,
            n == p.len(),
            p == pairs_of(remotes@),
            map_of(p) == remotes@,
            forall|j: int|
                0 <= j < p.len() ==> map_of(p).contains_key((#[trigger] p[j]).0) && map_of(
                    p,
                )[p[j].0] == p[j].1,
            forall|u: Text|
                #![trigger out@.contains_key(u)]
                out@.contains_key(u) <==> exists|j: int| 0 <= j < i && (#[trigger] p[j]).0 == u,
            forall|u: Text| #[trigger]
                out@.contains_key(u) ==> out@[u] == with_counts(remotes@, locations@)[u],
        decreases n - i,
    {
        let ghost before = out@;
        let u = remotes.key_at(i);
        let mut remote = remotes.value_at(i).dup();
        assert(p[i as int].0 == u@);
        assert(remotes@[u@] == remote.deep_view());
        remote.present_count = count_keys_on(locations, u.as_str());
        assert(remote.deep_view() =~= with_counts(remotes@, locations@)[u@]);
        out.insert(u.clone(), remote);
        i += 1;
        proof {
            assert forall|w: Text| #[trigger] out@.contains_key(w) implies exists|j: int|
                0 <= j < i && (#[trigger] p[j]).0 == w by {
                if w == u@ {
                    assert(p[i - 1].0 == w);
                } else {
                    assert(before.contains_key(w));
                }
            }
            assert forall|w: Text|
                (exists|j: int| 0 <= j < i && (#[trigger] p[j]).0 == w) implies #[trigger] out@.contains_key(
                w,
            ) by {
                if w != u@ {
                    assert(before.contains_key(w));
                }
            }
        }
    }
    proof {
        assert forall|u: Text| out@.contains_key(u) <==> remotes@.contains_key(u) by {
            if remotes@.contains_key(u) {
                assert(has_key(p, u));
                assert(exists|j: int| 0 <= j < p.len() && (#[trigger] p[j]).0 == u);
            }
        }
        assert(out@ =~= with_counts(remotes@, locations@));
    }
    out
}

// ---------------------------------------------------------------------------------------
// All of it

/// The annexed files of the working tree.
pub open spec fn answered_files(a: AnswersView) -> Seq<FileView> {
    keyed_files(nul_pieces(a.paths), a.keys)
}

/// Whether the sizes of the keys can be counted.
pub open spec fn answers_fit(a: AnswersView) -> bool {
    sizes_fit(answered_files(a), locations_of(a.whereis))
}

/// What the answers say of the repository, with the free bytes that are known of some drives.
pub open spec fn assembled(a: AnswersView, spaces: Map<Text, u64>) -> MetaView {
    let files = answered_files(a);
    let locations = locations_of(a.whereis);
    MetaView {
        root: a.root,
        uuid: a.here(),
        description: if a.here_description().len() > 0 {
            a.here_description()
        } else if uuid_log(a.uuid_log).contains_key(a.here()) {
            uuid_log(a.uuid_log)[a.here()].1
        } else {
            a.here()
        },
        version: None,
        numcopies: a.copies(),
        additional_configs: config_rows(a),
        remotes: with_counts(with_spaces(logged_drives(a), spaces), locations),
        locations,
        files,
        total_keys: locations.len() as usize,
        unique_size: total_unique(files, locations) as u64,
        consumed_size: total_consumed(files, locations) as u64,
    }
}

/// Whether the sizes of the keys can be counted.
pub fn can_load(a: &RepoAnswers) -> (r: bool)
    ensures
        r == answers_fit(a.deep_view()),
{
    let paths = paths_in(a.paths.as_str());
    let files = files_with_keys(&paths, &a.keys);
    let locations = parse_whereis_records(&a.whereis);
    total_sizes(&files, &locations).is_some()
}

/// The description that `uuid.log` has of the repository, or its uuid.
fn described(a: &RepoAnswers, here: &String) -> (r: String)
    ensures
        r@ == (if uuid_log(a.uuid_log@).contains_key(here@) {
            uuid_log(a.uuid_log@)[here@].1
        } else {
            here@
        }),
{
    let rows = parse_uuid_log(a.uuid_log.as_str());
    let ghost d = rows.deep_view();
    proof {
        lemma_uuid_rows(a.uuid_log@);
    }
    let mut i: usize = 0;
    while i < rows.len()
        invariant
            i <= rows@.len(),
            d == rows.deep_view(),
            d == uuid_rows(a.uuid_log@),
            forall|k: int|
                0 <= k < d.len() ==> uuid_log(a.uuid_log@).contains_key((#[trigger] d[k]).0)
                    && uuid_log(a.uuid_log@)[d[k].0].1 == d[k].1,
            forall|k: int| 0 <= k < i ==> (#[trigger] d[k]).0 != here@,
        decreases rows@.len() - i,
    {
        assert(d[i as int].0 == rows@[i as int].0@);
        assert(d[i as int].1 == rows@[i as int].1@);
        if rows[i].0 == *here {
            return rows[i].1.clone();
        }
        i += 1;
    }
    here.clone()
}

/// Puts together what the answers say of the repository. `spaces` holds the free bytes of
/// the drives of which they are known.
pub fn load_metadata(a: &RepoAnswers, spaces: &StrMap<u64>) -> (r: AnnexMetadata)
    requires
        answers_fit(a.deep_view()),
    ensures
        r.deep_view() == assembled(a.deep_view(), spaces@),
{
    let uuid_chars = chars_of(a.uuid.as_str());
    let uuid = string_of(trim_of(uuid_chars.as_slice()));
    let describe_chars = chars_of(a.describe.as_str());
    let desc = string_of(trim_of(describe_chars.as_slice()));
    let numcopies = copies_of(a);
    let additional_configs = config_rows_of(a, numcopies);
    let logged = known_remotes(a);
    let spaced = fill_drive_spaces(&logged, spaces);
    let paths = paths_in(a.paths.as_str());
    let files = files_with_keys(&paths, &a.keys);
    let locations = parse_whereis_records(&a.whereis);
    let remotes = fill_counts(&spaced, &locations);
    let total_keys: usize = locations.len();
    let (unique_size, consumed_size) = match total_sizes(&files, &locations) {
        Some(t) => t,
        None => (0, 0),
    };
    let description = if desc.as_str().is_empty() {
        described(a, &uuid)
    } else {
        desc
    };
    let r = AnnexMetadata {
        root: a.root.clone(),
        uuid,
        description,
        version: None,
        numcopies,
        additional_configs,
        remotes,
        locations,
        files,
        total_keys,
        unique_size,
        consumed_size,
    };
    assert(r.deep_view() =~= assembled(a.deep_view(), spaces@));
    r
}

/// The count of a drive is the number of keys that have it among their locations.
pub proof fn law_present_counts(a: AnswersView, spaces: Map<Text, u64>, u: Text)
    requires
        assembled(a, spaces).remotes.contains_key(u),
        keys_on(pairs_of(locations_of(a.whereis)), u) <= usize::MAX,
    ensures
        assembled(a, spaces).remotes[u].present_count == keys_on(
            pairs_of(assembled(a, spaces).locations),
            u,
        ),
        assembled(a, spaces).remotes[u].uuid == u,
{
}

/// The repository itself is among its drives, if it has a uuid.
pub proof fn law_here_is_a_drive(a: AnswersView, spaces: Map<Text, u64>)
    requires
        a.here().len() > 0,
    ensures
        assembled(a, spaces).remotes.contains_key(assembled(a, spaces).uuid),
{
}

// ---------------------------------------------------------------------------------------
// What a loaded repository holds

/// A file has the path and the key of one place, and the size that the key records.
pub open spec fn is_file_at(f: FileView, paths: Seq<Text>, keys: Seq<Option<Text>>, i: int) -> bool {
    &&& 0 <= i < paths.len()
    &&& i < keys.len()
    &&& keys[i] == Some(f.key)
    &&& f.path == paths[i]
    &&& f.size == key_size(f.key)
}

/// Every path that has a key is a file, whatever directories it goes through, and every file
/// is such a path. Where no key is missing, the files are the paths, one for one and in order.
pub proof fn law_every_path_is_a_file(paths: Seq<Text>, keys: Seq<Option<Text>>)
    ensures
        forall|i: int, k: Text|
            0 <= i < paths.len() && i < keys.len() && #[trigger] keys[i] == Some(k)
                ==> #[trigger] keyed_files(paths, keys).contains(
                (FileView { path: paths[i], key: k, size: key_size(k) }),
            ),
        forall|f: FileView| #[trigger]
            keyed_files(paths, keys).contains(f) ==> exists|i: int| is_file_at(f, paths, keys, i),
        keys.len() == paths.len() && (forall|i: int|
            0 <= i < keys.len() ==> (#[trigger] keys[i]) is Some) ==> {
            &&& keyed_files(paths, keys).len() == paths.len()
            &&& forall|i: int|
                0 <= i < paths.len() ==> is_file_at(
                    #[trigger] keyed_files(paths, keys)[i],
                    paths,
                    keys,
                    i,
                )
        },
{
    lemma_files_at(paths, keys);
    let r = keyed_files(paths, keys);
    assert forall|i: int, k: Text|
        0 <= i < paths.len() && i < keys.len() && #[trigger] keys[i] == Some(k) implies #[trigger] r.contains(
        (FileView { path: paths[i], key: k, size: key_size(k) }),
    ) by {
        let f = FileView { path: paths[i], key: k, size: key_size(k) };
        assert(is_file_at(f, paths, keys, i));
    }
}

proof fn lemma_files_at(paths: Seq<Text>, keys: Seq<Option<Text>>)
    ensures
        forall|f: FileView, i: int| #[trigger]
            is_file_at(f, paths, keys, i) ==> keyed_files(paths, keys).contains(f),
        forall|f: FileView| #[trigger]
            keyed_files(paths, keys).contains(f) ==> exists|i: int| is_file_at(f, paths, keys, i),
        keys.len() <= paths.len() && (forall|i: int|
            0 <= i < keys.len() ==> (#[trigger] keys[i]) is Some) ==> {
            &&& keyed_files(paths, keys).len() == keys.len()
            &&& forall|i: int|
                0 <= i < keys.len() ==> is_file_at(
                    #[trigger] keyed_files(paths, keys)[i],
                    paths,
                    keys,
                    i,
                )
        },
    decreases keys.len(),
{
    let r = keyed_files(paths, keys);
    if keys.len() > 0 {
        let rest = keys.drop_last();
        let n = keys.len() - 1;
        let before = keyed_files(paths, rest);
        lemma_files_at(paths, rest);
        assert forall|f: FileView, i: int| #[trigger] is_file_at(f, paths, keys, i) implies r.contains(
            f,
        ) by {
            if i < n {
                assert(is_file_at(f, paths, rest, i));
                let j = choose|j: int| 0 <= j < before.len() && before[j] == f;
                assert(r[j] == f);
            } else {
                assert(r[r.len() - 1] == f);
            }
        }
        assert forall|f: FileView| #[trigger] r.contains(f) implies exists|i: int|
            is_file_at(f, paths, keys, i) by {
            let j = choose|j: int| 0 <= j < r.len() && r[j] == f;
            if j < before.len() {
                assert(before[j] == f);
                assert(before.contains(f));
                let i = choose|i: int| is_file_at(f, paths, rest, i);
                assert(is_file_at(f, paths, keys, i));
            } else {
                assert(is_file_at(f, paths, keys, n));
            }
        }
        if keys.len() <= paths.len() && (forall|i: int|
            0 <= i < keys.len() ==> (#[trigger] keys[i]) is Some) {
            assert forall|i: int| 0 <= i < rest.len() implies (#[trigger] rest[i]) is Some by {
                assert(keys[i] is Some);
            }
            assert(keys[n] is Some);
            assert forall|i: int| 0 <= i < keys.len() implies is_file_at(
                #[trigger] r[i],
                paths,
                keys,
                i,
            ) by {
                if i < n {
                    assert(is_file_at(before[i], paths, rest, i));
                }
            }
        }
    }
}

/// One more answer adds one file at the end, or none where its key is missing; what was there
/// stays.
pub proof fn law_files_come_in_order(paths: Seq<Text>, keys: Seq<Option<Text>>, k: Text)
    ensures
        keyed_files(paths, Seq::empty()).len() == 0,
        keyed_files(paths, keys.push(None)) == keyed_files(paths, keys),
        keys.len() < paths.len() ==> keyed_files(paths, keys.push(Some(k))) == keyed_files(
            paths,
            keys,
        ).push((FileView { path: paths[keys.len() as int], key: k, size: key_size(k) })),
        keys.len() >= paths.len() ==> keyed_files(paths, keys.push(Some(k))) == keyed_files(
            paths,
            keys,
        ),
{
    assert(keys.push(None).drop_last() =~= keys);
    assert(keys.push(Some(k)).drop_last() =~= keys);
}

/// A repository has the drives that a log speaks of and itself, and no other.
pub proof fn law_drives_are_those_on_record(a: AnswersView, spaces: Map<Text, u64>, u: Text)
    ensures
        assembled(a, spaces).remotes.contains_key(u) <==> {
            ||| uuid_log(a.uuid_log).contains_key(u)
            ||| remote_log(a.remote_log).contains_key(u)
            ||| u == trim(a.uuid) && u.len() > 0
        },
{
}

/// A drive is trusted as its log says, whatever the level, and is semi-trusted where the log
/// says nothing. The last check, the groups and the wanted and required content are those of
/// the logs too.
pub proof fn law_drive_is_as_logged(a: AnswersView, spaces: Map<Text, u64>, u: Text)
    requires
        assembled(a, spaces).remotes.contains_key(u),
    ensures
        ({
            let r = assembled(a, spaces).remotes[u];
            let trusts = trust_log(a.trust_log);
            let fscks = activity_log(a.activity_log);
            let groups = group_log(a.group_log);
            let wanted = content_log(a.preferred_log);
            let required = content_log(a.required_log);
            &&& trusts.contains_key(u) ==> r.trust == trusts[u]
            &&& !trusts.contains_key(u) ==> r.trust == TrustLevel::SemiTrusted
            &&& fscks.contains_key(u) ==> r.last_fsck == Some(fscks[u])
            &&& !fscks.contains_key(u) ==> r.last_fsck is None
            &&& groups.contains_key(u) ==> r.groups == groups[u]
            &&& !groups.contains_key(u) ==> r.groups.len() == 0
            &&& wanted.contains_key(u) ==> r.wanted == Some(wanted[u])
            &&& !wanted.contains_key(u) ==> r.wanted is None
            &&& required.contains_key(u) ==> r.required == Some(required[u])
            &&& !required.contains_key(u) ==> r.required is None
            &&& r.uuid == u
            &&& spaces.contains_key(u) ==> r.available_space == Some(spaces[u])
            &&& !spaces.contains_key(u) ==> r.available_space is None
        }),
{
}

/// A drive that has settings on record has those and no others. One that has none has no
/// settings, but the repository itself, where no log speaks of it, is named `here`.
pub proof fn law_drive_settings_are_as_logged(a: AnswersView, spaces: Map<Text, u64>, u: Text)
    requires
        assembled(a, spaces).remotes.contains_key(u),
    ensures
        ({
            let r = assembled(a, spaces).remotes[u];
            let settings = remote_log(a.remote_log);
            &&& settings.contains_key(u) ==> r.config == settings[u]
            &&& !settings.contains_key(u) && uuid_log(a.uuid_log).contains_key(u)
                ==> r.config == Map::<Text, Text>::empty()
            &&& !settings.contains_key(u) && !uuid_log(a.uuid_log).contains_key(u) ==> {
                &&& u == trim(a.uuid)
                &&& forall|k: Text| #[trigger] r.config.contains_key(k) <==> k == "name"@
                &&& r.config["name"@] == "here"@
            }
        }),
{
}

/// How a drive is described: as `uuid.log` says; where that repeats the uuid, by its name, if
/// it has one; a drive without a description goes by its name or its uuid. The repository
/// itself, where no log speaks of it, goes by the description in its settings, or as `here`.
pub proof fn law_drive_description(a: AnswersView, spaces: Map<Text, u64>, u: Text)
    requires
        assembled(a, spaces).remotes.contains_key(u),
    ensures
        ({
            let r = assembled(a, spaces).remotes[u];
            let logged = uuid_log(a.uuid_log);
            let settings = remote_log(a.remote_log);
            let named = settings.contains_key(u) && settings[u].contains_key("name"@);
            &&& logged.contains_key(u) && logged[u].1.len() > 0 && logged[u].1 != u
                ==> r.description == logged[u].1
            &&& logged.contains_key(u) && logged[u].1 == u && named ==> r.description
                == settings[u]["name"@]
            &&& logged.contains_key(u) && logged[u].1 == u && !named ==> r.description == u
            &&& logged.contains_key(u) && logged[u].1.len() == 0 && u.len() > 0 ==> r.description
                == u
            &&& !logged.contains_key(u) && named ==> r.description == settings[u]["name"@]
            &&& !logged.contains_key(u) && settings.contains_key(u) && !named ==> r.description
                == u
            &&& !logged.contains_key(u) && !settings.contains_key(u) && trim(a.describe).len() > 0
                ==> r.description == trim(a.describe)
            &&& !logged.contains_key(u) && !settings.contains_key(u) && trim(a.describe).len() == 0
                ==> r.description == "here"@
        }),
{
}

/// The count of a drive is the number of keys that have it among their locations.
pub proof fn law_drive_counts_its_keys(a: AnswersView, spaces: Map<Text, u64>, u: Text)
    requires
        assembled(a, spaces).remotes.contains_key(u),
        locations_of(a.whereis).dom().len() <= usize::MAX,
    ensures
        assembled(a, spaces).remotes[u].present_count == assembled(
            a,
            spaces,
        ).locations.dom().filter(
            |k: Text| assembled(a, spaces).locations[k].contains(u),
        ).len(),
        assembled(a, spaces).total_keys == assembled(a, spaces).locations.dom().len(),
{
    let locations = locations_of(a.whereis);
    lemma_locations_finite(a.whereis);
    law_keys_on_a_drive(locations, u);
    let on = locations.dom().filter(|k: Text| locations[k].contains(u));
    vstd::set_lib::lemma_len_subset(on, locations.dom());
    assert(assembled(a, spaces).locations == locations);
    assert(assembled(a, spaces).locations.dom().filter(
        |k: Text| assembled(a, spaces).locations[k].contains(u),
    ) =~= on);
}

/// What else is known of a repository: where it is, its uuid and description, and how many
/// copies it wants. A setting of the number of copies comes before what the log says.
pub proof fn law_repository_is_as_answered(a: AnswersView, spaces: Map<Text, u64>)
    ensures
        ({
            let m = assembled(a, spaces);
            let logged = uuid_log(a.uuid_log);
            &&& m.root == a.root
            &&& m.uuid == trim(a.uuid)
            &&& m.version is None
            &&& m.files == keyed_files(nul_pieces(a.paths), a.keys)
            &&& m.locations == locations_of(a.whereis)
            &&& trim(a.describe).len() > 0 ==> m.description == trim(a.describe)
            &&& trim(a.describe).len() == 0 && logged.contains_key(m.uuid) ==> m.description
                == logged[m.uuid].1
            &&& trim(a.describe).len() == 0 && !logged.contains_key(m.uuid) ==> m.description
                == m.uuid
            &&& a.numcopies matches Some(t) ==> (parse_u32(trim(t)) matches Some(n) ==> m.numcopies
                == Some(n))
            &&& (a.numcopies matches Some(t) ==> parse_u32(trim(t)) is None) ==> m.numcopies == (
            match a.numcopies_log {
                Some(t) => count_log(t),
                None => None,
            })
        }),
{
}

/// The sizes of a repository, where they can be counted, are the totals over its files and
/// locations.
pub proof fn law_loaded_sizes(a: AnswersView, spaces: Map<Text, u64>)
    requires
        answers_fit(a),
    ensures
        ({
            let m = assembled(a, spaces);
            &&& m.unique_size == total_unique(m.files, m.locations)
            &&& m.consumed_size == total_consumed(m.files, m.locations)
        }),
{
}

/// The paths of an answer are what stands before each NUL; nothing is no path.
pub proof fn law_paths_are_read(x: Text, y: Text)
    requires
        forall|i: int| 0 <= i < x.len() ==> #[trigger] x[i] != '\0',
    ensures
        x.len() > 0 ==> nul_pieces(x + seq!['\0'] + y) == seq![x] + nul_pieces(y),
        x.len() == 0 ==> nul_pieces(x + seq!['\0'] + y) == nul_pieces(y),
        nul_pieces(Seq::empty()).len() == 0,
{
    law_pieces_are_read(x, y, '\0');
    let keep = |p: Text| p.len() > 0;
    lemma_filter_front(split_on(y, '\0'), keep, x);
    let none = Seq::<char>::empty();
    law_pieces_are_read(none, none, '\0');
    reveal(Seq::filter);
    let one = seq![none];
    assert(one.drop_last() =~= Seq::<Text>::empty());
    assert(one.drop_last().filter(keep) =~= Seq::<Text>::empty());
    assert(one.filter(keep) =~= Seq::<Text>::empty());
}

/// Whether a line of the settings is shown elsewhere.
pub open spec fn is_shown_elsewhere(line: Text) -> bool {
    contains_text(line, "numcopies"@) || contains_text(line, "uuid"@) || contains_text(
        line,
        "describe"@,
    )
}

/// Whether a row repeats a line of `.gitattributes` about git-annex.
pub open spec fn is_attribute_row(a: AnswersView, row: Text) -> bool {
    a.gitattributes matches Some(t) && exists|i: int|
        0 <= i < lines(t).len() && contains_text(trim(#[trigger] lines(t)[i]), "annex."@) && row
            == ".gitattributes: "@ + trim(lines(t)[i])
}

/// Whether a row repeats a setting that is shown nowhere else.
pub open spec fn is_setting_row(a: AnswersView, row: Text) -> bool {
    a.settings matches Some(t) && exists|i: int|
        0 <= i < lines(t).len() && !is_shown_elsewhere(#[trigger] lines(t)[i]) && row == lines(t)[i]
}

/// The further settings of a repository are the number of copies, every line of
/// `.gitattributes` about git-annex, and every setting that is shown nowhere else; there are no
/// others.
#[verifier::rlimit(40)]
pub proof fn law_further_settings(a: AnswersView, spaces: Map<Text, u64>)
    ensures
        ({
            let rows = assembled(a, spaces).additional_configs;
            let n = assembled(a, spaces).numcopies;
            &&& n matches Some(c) ==> rows.len() > 0 && rows[0] == "annex.numcopies="@ + decimal(
                c as nat,
            )
            &&& a.gitattributes matches Some(t) ==> forall|i: int|
                0 <= i < lines(t).len() && contains_text(trim(#[trigger] lines(t)[i]), "annex."@)
                    ==> rows.contains(".gitattributes: "@ + trim(lines(t)[i]))
            &&& a.settings matches Some(t) ==> forall|i: int|
                0 <= i < lines(t).len() && !is_shown_elsewhere(#[trigger] lines(t)[i])
                    ==> rows.contains(lines(t)[i])
            &&& forall|i: int|
                0 <= i < rows.len() && (i > 0 || n is None) ==> is_attribute_row(
                    a,
                    #[trigger] rows[i],
                ) || is_setting_row(a, rows[i])
        }),
{
    let rows = assembled(a, spaces).additional_configs;
    let n = assembled(a, spaces).numcopies;
    let c = if n is Some {
        1int
    } else {
        0
    };
    let attributes = match a.gitattributes {
        Some(t) => attribute_rows(t),
        None => Seq::empty(),
    };
    let rest = match a.settings {
        Some(t) => setting_rows(t),
        None => Seq::empty(),
    };
    if let Some(t) = a.gitattributes {
        let trimmed = lines(t).map_values(|l: Text| trim(l));
        let keep = |l: Text| contains_text(l, "annex."@);
        let kept = trimmed.filter(keep);
        assert forall|i: int|
            0 <= i < lines(t).len() && contains_text(
                trim(#[trigger] lines(t)[i]),
                "annex."@,
            ) implies rows.contains(".gitattributes: "@ + trim(lines(t)[i])) by {
            assert(trimmed[i] == trim(lines(t)[i]));
            trimmed.lemma_filter_contains(keep, i);
            let k = choose|k: int| 0 <= k < kept.len() && kept[k] == trimmed[i];
            assert(attributes[k] == ".gitattributes: "@ + trimmed[i]);
            assert(rows[c + k] == attributes[k]);
        }
        assert forall|k: int| 0 <= k < attributes.len() implies is_attribute_row(
            a,
            #[trigger] attributes[k],
        ) by {
            trimmed.lemma_filter_pred(keep, k);
            assert(kept.contains(kept[k]));
            trimmed.lemma_filter_contains_rev(keep, kept[k]);
            let i = choose|i: int| 0 <= i < trimmed.len() && trimmed[i] == kept[k];
            assert(trim(lines(t)[i]) == kept[k]);
        }
    }
    if let Some(t) = a.settings {
        let all = lines(t);
        let keep = |l: Text|
            !contains_text(l, "numcopies"@) && !contains_text(l, "uuid"@) && !contains_text(
                l,
                "describe"@,
            );
        let kept = all.filter(keep);
        assert forall|i: int|
            0 <= i < lines(t).len() && !is_shown_elsewhere(
                #[trigger] lines(t)[i],
            ) implies rows.contains(lines(t)[i]) by {
            all.lemma_filter_contains(keep, i);
            let k = choose|k: int| 0 <= k < kept.len() && kept[k] == all[i];
            assert(rows[c + attributes.len() + k] == rest[k]);
        }
        assert forall|k: int| 0 <= k < rest.len() implies is_setting_row(a, #[trigger] rest[k]) by {
            all.lemma_filter_pred(keep, k);
            assert(kept.contains(kept[k]));
            all.lemma_filter_contains_rev(keep, kept[k]);
            let i = choose|i: int| 0 <= i < all.len() && all[i] == kept[k];
            assert(lines(t)[i] == kept[k]);
        }
    }
    assert forall|i: int| 0 <= i < rows.len() && (i > 0 || n is None) implies is_attribute_row(
        a,
        #[trigger] rows[i],
    ) || is_setting_row(a, rows[i]) by {
        if i - c < attributes.len() {
            assert(rows[i] == attributes[i - c]);
        } else {
            assert(rows[i] == rest[i - c - attributes.len()]);
        }
    }
}

/// A drive is where its settings say if that is there; else only the repository itself can be
/// found on this machine, at its root.
pub proof fn law_where_a_drive_is(r: RemoteView, root: Text, here: Text, there: bool)
    ensures
        there && r.config.contains_key("directory"@) ==> drive_path(r, root, here, there) == Some(
            r.config["directory"@],
        ),
        (!there || !r.config.contains_key("directory"@)) && r.uuid == here ==> drive_path(
            r,
            root,
            here,
            there,
        ) == Some(root),
        (!there || !r.config.contains_key("directory"@)) && r.uuid != here ==> drive_path(
            r,
            root,
            here,
            there,
        ) is None,
{
}

} // verus!
