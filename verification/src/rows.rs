//! What the tree shows of repositories and drives.

use vstd::prelude::*;
use crate::annex::{name_or, MetaView, RemoteView, SummaryView};
use crate::node::{by_fsck, fsck_or_start, has_drive_named, law_drives_by_fsck, missing_drives, setting_rows, trusted_as, with_content, NodeView};
use crate::order::{key_less, law_sorted};
use crate::profile::ProfileView;
use crate::table::{lemma_count_pairs, lemma_map_of, lemma_ordered_distinct, lemma_pairs_of_finite, map_of, pairs_of};
use crate::tally::all_counts;
use crate::text::{decimal, join, text_less, Text};
use crate::trust::{trust_letter, trust_word, TrustLevel};
use crate::util::{short_uuid_text, unix_text};

verus! {

// ---------------------------------------------------------------------------------------
// The top

/// The top lists every repository, in the order of the summaries, and counts them.
pub proof fn law_top_lists_repositories(
    scan_root: Text,
    summaries: Seq<SummaryView>,
    live: Set<Text>,
)
    ensures
        ({
            let n = NodeView::Root { scan_root, summaries };
            &&& n.children().len() == summaries.len()
            &&& forall|i: int|
                0 <= i < summaries.len() ==> (#[trigger] n.children()[i]) == (NodeView::Summary {
                    summary: summaries[i],
                })
            &&& n.label() == "scan: "@ + scan_root
            &&& n.details(live)[0] == "root: "@ + scan_root
            &&& n.details(live)[1] == "annex repos found: "@ + decimal(summaries.len())
        }),
{
}

/// The row of a repository shows its name, its description where that says more, and how many
/// files and drives it has; it leads to the repository.
pub proof fn law_summary_row(s: SummaryView)
    ensures
        ({
            let n = NodeView::Summary { summary: s };
            let tail = " — "@ + decimal(s.file_count as nat) + " files, "@ + decimal(
                s.remote_count as nat,
            ) + " drives"@;
            &&& s.annex_description.len() == 0 || s.annex_description == s.name ==> n.label()
                == s.name + tail
            &&& s.annex_description.len() > 0 && s.annex_description != s.name ==> n.label()
                == s.name + " ("@ + s.annex_description + ")"@ + tail
            &&& n.annex_repo_path() == Some(s.root)
            &&& n.kind() == "repo"@
            &&& n.children().len() == 0
        }),
{
    let n = NodeView::Summary { summary: s };
    let tail = " — "@ + decimal(s.file_count as nat) + " files, "@ + decimal(
        s.remote_count as nat,
    ) + " drives"@;
    if s.annex_description.len() == 0 || s.annex_description == s.name {
        assert(n.label() =~= s.name + tail);
    } else {
        assert(n.label() =~= s.name + " ("@ + s.annex_description + ")"@ + tail);
    }
}

/// The details of a repository that is not loaded yet.
pub proof fn law_summary_details(s: SummaryView, live: Set<Text>)
    ensures
        ({
            let d = (NodeView::Summary { summary: s }).details(live);
            &&& d[0] == "path: "@ + s.root
            &&& s.uuid.len() > 0 ==> d[1] == "uuid: "@ + s.uuid
            &&& s.annex_description.len() > 0 ==> d.contains(
                "annex description: "@ + s.annex_description,
            )
            &&& d.contains("files in working tree: "@ + decimal(s.file_count as nat))
            &&& d.contains("known remotes/drives: "@ + decimal(s.remote_count as nat))
            &&& d.contains("keys present here: "@ + decimal(s.here_present_count as nat))
            &&& d.len() == 5 + (if s.uuid.len() > 0 {
                1int
            } else {
                0
            }) + (if s.annex_description.len() > 0 {
                1int
            } else {
                0
            })
        }),
{
    let d = (NodeView::Summary { summary: s }).details(live);
    let n = d.len() as int;
    assert(d[n - 4] == "files in working tree: "@ + decimal(s.file_count as nat));
    assert(d[n - 3] == "known remotes/drives: "@ + decimal(s.remote_count as nat));
    assert(d[n - 2] == "keys present here: "@ + decimal(s.here_present_count as nat));
    if s.annex_description.len() > 0 {
        assert(d[n - 5] == "annex description: "@ + s.annex_description);
    }
}

// ---------------------------------------------------------------------------------------
// A repository

/// A repository leads to its drives and to what is known of it; to all of its files, if it has
/// any; to the files that are here, if it is a drive of its own; and to nothing else.
pub proof fn law_repository_leads_to(m: MetaView, profiles: Map<Text, ProfileView>)
    ensures
        ({
            let kids = (NodeView::Repo { meta: m, profiles }).children();
            let here = NodeView::FilesOnDrive {
                meta: m,
                drive_uuid: m.uuid,
                drive_name: "here"@,
                listing: None,
            };
            &&& kids[0] == (NodeView::Drives { meta: m, profiles })
            &&& kids[1] == (NodeView::RepoInfo { meta: m })
            &&& m.files.len() > 0 <==> kids.contains((NodeView::AllFiles { meta: m }))
            &&& m.remotes.contains_key(m.uuid) <==> kids.contains(here)
            &&& kids.len() == 2 + (if m.files.len() > 0 {
                1int
            } else {
                0
            }) + (if m.remotes.contains_key(m.uuid) {
                1int
            } else {
                0
            })
        }),
        (NodeView::Repo { meta: m, profiles }).loaded_repo_path() == Some(m.root),
{
    let kids = (NodeView::Repo { meta: m, profiles }).children();
    if m.files.len() > 0 {
        assert(kids[2] == (NodeView::AllFiles { meta: m }));
    }
    if m.remotes.contains_key(m.uuid) {
        assert(kids.last() == kids[kids.len() - 1]);
    }
}

/// The row of a repository shows the name of its directory, its description where that says
/// more, and its uuid, cut.
pub proof fn law_repository_row(m: MetaView, profiles: Map<Text, ProfileView>)
    ensures
        ({
            let n = NodeView::Repo { meta: m, profiles };
            let name = name_or(m.root, m.description);
            let tail = " ["@ + short_uuid_text(m.uuid) + "]"@;
            &&& m.description.len() == 0 || m.description == name ==> n.label() == name + tail
            &&& m.description.len() > 0 && m.description != name ==> n.label() == name + " ("@
                + m.description + ")"@ + tail
        }),
{
    let n = NodeView::Repo { meta: m, profiles };
    let name = name_or(m.root, m.description);
    let tail = " ["@ + short_uuid_text(m.uuid) + "]"@;
    reveal_strlit(") [");
    reveal_strlit(")");
    reveal_strlit(" [");
    if m.description.len() > 0 && m.description != name {
        assert(n.label() =~= name + " ("@ + m.description + ")"@ + tail);
    } else {
        assert(n.label() =~= name + tail);
    }
}

/// The details of a repository count its files, its keys and its drives, and the keys here.
pub proof fn law_repository_details(
    m: MetaView,
    profiles: Map<Text, ProfileView>,
    live: Set<Text>,
)
    ensures
        ({
            let d = (NodeView::Repo { meta: m, profiles }).details(live);
            &&& d[0] == "path: "@ + m.root
            &&& d[1] == "uuid: "@ + m.uuid
            &&& d[2] == "description: "@ + m.description
            &&& d[3] == "annexed files (working tree): "@ + decimal(m.files.len())
            &&& d[4] == "known keys (locations): "@ + decimal(m.total_keys as nat)
            &&& d[5] == "known remotes/drives: "@ + decimal(m.remotes.len())
            &&& m.remotes.contains_key(m.uuid) ==> d.len() == 7 && d[6] == "here present: "@
                + decimal(m.remotes[m.uuid].present_count as nat) + " keys"@
            &&& !m.remotes.contains_key(m.uuid) ==> d.len() == 6
        }),
{
}

/// As many drives are trusted to a degree as have it.
pub open spec fn drives_trusted(m: MetaView, t: TrustLevel) -> nat {
    m.remotes.dom().filter(|u: Text| m.remotes[u].trust == t).len()
}

proof fn lemma_drives_trusted(m: MetaView, t: TrustLevel)
    requires
        m.remotes.dom().finite(),
    ensures
        trusted_as(pairs_of(m.remotes), t) == drives_trusted(m, t),
{
    let p = |r: RemoteView| r.trust == t;
    lemma_count_pairs(m.remotes, p);
    assert((|q: (Text, RemoteView)| p(q.1)) =~= (|q: (Text, RemoteView)| q.1.trust == t));
    assert(m.remotes.dom().filter(|u: Text| p(m.remotes[u])) =~= m.remotes.dom().filter(
        |u: Text| m.remotes[u].trust == t,
    ));
}

/// The summary of a repository tells how many drives are trusted, semi-trusted and untrusted,
/// how many copies there are to be, when the repository itself was last checked and what it is
/// to hold, and every further setting.
#[verifier::rlimit(40)]
pub proof fn law_repository_info(m: MetaView, live: Set<Text>)
    requires
        m.remotes.dom().finite(),
    ensures
        ({
            let d = (NodeView::RepoInfo { meta: m }).details(live);
            let name = name_or(m.root, m.description);
            &&& d[0] == "repo path: "@ + m.root
            &&& m.description.len() == 0 || m.description == name ==> d[1] == "name: "@ + name
            &&& m.description.len() > 0 && m.description != name ==> d[1] == "name: "@ + name
                + " ("@ + m.description + ")"@
            &&& d[2] == "local uuid: "@ + m.uuid
            &&& d[3] == "working tree annexed files: "@ + decimal(m.files.len())
            &&& d[4] == "unique keys tracked: "@ + decimal(m.total_keys as nat)
            &&& d[5] == "trust summary: "@ + decimal(drives_trusted(m, TrustLevel::Trusted))
                + " trusted, "@ + decimal(drives_trusted(m, TrustLevel::SemiTrusted))
                + " semitrusted, "@ + decimal(drives_trusted(m, TrustLevel::UnTrusted))
                + " untrusted"@
            &&& m.numcopies matches Some(n) ==> d[6] == "numcopies: "@ + decimal(n as nat)
            &&& forall|i: int|
                0 <= i < m.additional_configs.len() ==> d[d.len() - m.additional_configs.len() + i]
                    == "  "@ + #[trigger] m.additional_configs[i]
            &&& m.additional_configs.len() > 0 ==> d[d.len() - m.additional_configs.len() - 1]
                == "additional configs:"@
            &&& m.remotes.contains_key(m.uuid) ==> {
                let h = m.remotes[m.uuid];
                &&& h.last_fsck matches Some(t) ==> d.contains("last fsck (here): "@ + unix_text(t))
                &&& h.groups.len() > 0 ==> d.contains("groups: "@ + join(h.groups, ", "@))
                &&& h.wanted matches Some(w) ==> d.contains("wanted: "@ + w)
                &&& h.required matches Some(w) ==> d.contains("required: "@ + w)
            }
            &&& d.len() == 6 + one_if(m.numcopies is Some) + (if m.remotes.contains_key(m.uuid) {
                setup_rows(m.remotes[m.uuid])
            } else {
                0
            }) + (if m.additional_configs.len() > 0 {
                m.additional_configs.len() + 1
            } else {
                0
            })
        }),
{
    lemma_drives_trusted(m, TrustLevel::Trusted);
    lemma_drives_trusted(m, TrustLevel::SemiTrusted);
    lemma_drives_trusted(m, TrustLevel::UnTrusted);
    let d = (NodeView::RepoInfo { meta: m }).details(live);
    let name = name_or(m.root, m.description);
    if m.description.len() == 0 || m.description == name {
        assert(d[1] =~= "name: "@ + name);
    } else {
        assert(d[1] =~= "name: "@ + name + " ("@ + m.description + ")"@);
    }
    if m.remotes.contains_key(m.uuid) {
        let h = m.remotes[m.uuid];
        let a = 6 + one_if(m.numcopies is Some);
        let b = a + one_if(h.last_fsck is Some);
        let c = b + one_if(h.groups.len() > 0);
        let e = c + one_if(h.wanted is Some);
        if let Some(t) = h.last_fsck {
            assert(d[a] == "last fsck (here): "@ + unix_text(t));
        }
        if h.groups.len() > 0 {
            assert(d[b] == "groups: "@ + join(h.groups, ", "@));
        }
        if let Some(w) = h.wanted {
            assert(d[c] == "wanted: "@ + w);
        }
        if let Some(w) = h.required {
            assert(d[e] == "required: "@ + w);
        }
    }
}

/// One where something holds.
pub open spec fn one_if(b: bool) -> int {
    if b {
        1
    } else {
        0
    }
}

/// How many rows tell of the last check of a drive and of what it is to hold.
pub open spec fn setup_rows(r: RemoteView) -> int {
    one_if(r.last_fsck is Some) + one_if(r.groups.len() > 0) + one_if(r.wanted is Some) + one_if(
        r.required is Some,
    )
}

// ---------------------------------------------------------------------------------------
// Drives

/// The drives of a repository are listed, all of them and each once, the one that was checked
/// last before the others, and those that were checked at one time by name.
#[verifier::rlimit(40)]
pub proof fn law_every_drive_is_listed(m: MetaView, profiles: Map<Text, ProfileView>)
    requires
        m.remotes.dom().finite(),
    ensures
        ({
            let n = NodeView::Drives { meta: m, profiles };
            let kids = n.children();
            &&& kids.len() == m.remotes.len()
            &&& n.label() == "drives / remotes ("@ + decimal(m.remotes.len()) + ")"@
            &&& forall|u: Text| #[trigger]
                m.remotes.contains_key(u) ==> exists|i: int|
                    0 <= i < kids.len() && is_drive_row(#[trigger] kids[i], m, m.remotes[u])
            &&& forall|i: int|
                0 <= i < kids.len() ==> exists|u: Text| #[trigger]
                    m.remotes.contains_key(u) && is_drive_row(#[trigger] kids[i], m, m.remotes[u])
            &&& forall|i: int, j: int|
                0 <= i < j < kids.len() ==> {
                    let a = (#[trigger] kids[i])->Drive_remote;
                    let b = (#[trigger] kids[j])->Drive_remote;
                    checked_at(a) > checked_at(b) || (checked_at(a) == checked_at(b)
                        && !text_less(b.name(), a.name()))
                }
        }),
{
    let kids = (NodeView::Drives { meta: m, profiles }).children();
    let p = pairs_of(m.remotes);
    let s = by_fsck(m.remotes);
    law_drives_by_fsck(m.remotes);
    lemma_pairs_of_finite(m.remotes);
    lemma_ordered_distinct(p);
    lemma_map_of(p);
    assert forall|u: Text| #[trigger] m.remotes.contains_key(u) implies exists|i: int|
        0 <= i < kids.len() && is_drive_row(#[trigger] kids[i], m, m.remotes[u]) by {
        assert(map_of(p).contains_key(u));
        let k = choose|k: int| 0 <= k < p.len() && (#[trigger] p[k]).0 == u;
        assert(p.contains(p[k]));
        assert(s.contains(p[k]));
        let i = choose|i: int| 0 <= i < s.len() && s[i] == p[k];
        assert(is_drive_row(kids[i], m, m.remotes[u]));
    }
    assert forall|i: int| 0 <= i < kids.len() implies exists|u: Text| #[trigger]
        m.remotes.contains_key(u) && is_drive_row(#[trigger] kids[i], m, m.remotes[u]) by {
        assert(s.contains(s[i]));
        assert(p.contains(s[i]));
        let k = choose|k: int| 0 <= k < p.len() && p[k] == s[i];
        assert(map_of(p).contains_key(p[k].0));
        assert(m.remotes.contains_key(p[k].0));
        assert(is_drive_row(kids[i], m, m.remotes[p[k].0]));
    }
    assert forall|i: int, j: int| 0 <= i < j < kids.len() implies {
        let a = (#[trigger] kids[i])->Drive_remote;
        let b = (#[trigger] kids[j])->Drive_remote;
        checked_at(a) > checked_at(b) || (checked_at(a) == checked_at(b) && !text_less(
            b.name(),
            a.name(),
        ))
    } by {
        assert(fsck_or_start(s[i].1) >= fsck_or_start(s[j].1));
    }
}

/// Whether the row stands for the drive.
pub open spec fn is_drive_row(x: NodeView, m: MetaView, r: RemoteView) -> bool {
    x matches NodeView::Drive { meta, remote, .. } && meta == m && remote == r
}

/// When a drive was last checked; one that never was comes with those of the beginning.
pub open spec fn checked_at(r: RemoteView) -> int {
    match r.last_fsck {
        Some(t) => t as int,
        None => 0,
    }
}

/// A drive leads to what is known of it and, if there is content on it, to the files on it.
pub proof fn law_drive_leads_to(m: MetaView, r: RemoteView, anomalous: bool)
    ensures
        ({
            let kids = (NodeView::Drive { meta: m, remote: r, anomalous }).children();
            &&& kids[0] == (NodeView::DriveInfo { remote: r })
            &&& r.present_count == 0 ==> kids.len() == 1
            &&& r.present_count > 0 ==> kids.len() == 2 && kids[1] == (NodeView::FilesOnDrive {
                meta: m,
                drive_uuid: r.uuid,
                drive_name: r.name(),
                listing: None,
            })
        }),
        (NodeView::Drive { meta: m, remote: r, anomalous }).trust() == Some(r.trust),
        (NodeView::Drive { meta: m, remote: r, anomalous }).anomalous() == anomalous,
{
}

/// The row of a drive shows its name, its type if it is a special remote, whether it is the
/// repository itself, and how many keys are on it.
pub proof fn law_drive_row(m: MetaView, r: RemoteView, anomalous: bool)
    ensures
        ({
            let n = NodeView::Drive { meta: m, remote: r, anomalous };
            let special = r.config.contains_key("type"@);
            let tail = " "@ + decimal(r.present_count as nat) + " keys"@;
            &&& special && r.uuid == m.uuid ==> n.label() == r.name() + " ("@ + r.config["type"@]
                + ")"@ + " [here]"@ + tail
            &&& special && r.uuid != m.uuid ==> n.label() == r.name() + " ("@ + r.config["type"@]
                + ")"@ + tail
            &&& !special && r.uuid == m.uuid ==> n.label() == r.name() + " [here]"@ + tail
            &&& !special && r.uuid != m.uuid ==> n.label() == r.name() + tail
            &&& r.uuid == m.uuid ==> n.kind() == "here"@
            &&& r.uuid != m.uuid && special ==> n.kind() == "drive"@
            &&& r.uuid != m.uuid && !special ==> n.kind() == "repo"@
        }),
{
    let n = NodeView::Drive { meta: m, remote: r, anomalous };
    let special = r.config.contains_key("type"@);
    let tail = " "@ + decimal(r.present_count as nat) + " keys"@;
    let name = if special {
        r.name() + " ("@ + r.config["type"@] + ")"@
    } else {
        r.name()
    };
    if r.uuid == m.uuid {
        assert(n.label() =~= name + " [here]"@ + tail);
    } else {
        assert(n.label() =~= name + tail);
    }
}

/// The details of a drive tell its name, uuid, type, trust and how many keys are on it; when it
/// was last checked and what it is to hold, where that is known; and every other setting.
#[verifier::rlimit(40)]
pub proof fn law_drive_details(m: MetaView, r: RemoteView, anomalous: bool, live: Set<Text>)
    requires
        r.config.dom().finite(),
    ensures
        ({
            let d = (NodeView::Drive { meta: m, remote: r, anomalous }).details(live);
            &&& d[0] == "name: "@ + r.name()
            &&& d[1] == "uuid: "@ + r.uuid
            &&& d[2] == "type: "@ + r.rtype()
            &&& d[3] == "trust: "@ + trust_word(r.trust) + " ("@ + seq![trust_letter(r.trust)]
                + ")"@
            &&& d[4] == "present keys: "@ + decimal(r.present_count as nat)
            &&& r.last_fsck matches Some(t) ==> d.contains("last fsck: "@ + unix_text(t))
            &&& r.groups.len() > 0 ==> d.contains("groups: "@ + join(r.groups, ", "@))
            &&& r.wanted matches Some(w) ==> d.contains("wanted: "@ + w)
            &&& r.required matches Some(w) ==> d.contains("required: "@ + w)
            &&& forall|k: Text| #[trigger]
                r.config.contains_key(k) && k != "name"@ && k != "type"@ ==> d.contains(
                    k + ": "@ + r.config[k],
                )
            &&& d.len() == 5 + setup_rows(r) + setting_rows(r.config).len()
            &&& forall|i: int|
                5 + setup_rows(r) <= i < d.len() ==> is_setting_row(r, #[trigger] d[i])
        }),
{
    let d = (NodeView::Drive { meta: m, remote: r, anomalous }).details(live);
    let rows = setting_rows(r.config);
    let p = pairs_of(r.config);
    let keep = |q: (Text, Text)| q.0 != "name"@ && q.0 != "type"@;
    let kept = p.filter(keep);
    lemma_pairs_of_finite(r.config);
    lemma_ordered_distinct(p);
    lemma_map_of(p);
    let a = 5 + one_if(r.last_fsck is Some);
    let b = a + one_if(r.groups.len() > 0);
    let c = b + one_if(r.wanted is Some);
    let e = 5 + setup_rows(r);
    if let Some(t) = r.last_fsck {
        assert(d[5] == "last fsck: "@ + unix_text(t));
    }
    if r.groups.len() > 0 {
        assert(d[a] == "groups: "@ + join(r.groups, ", "@));
    }
    if let Some(w) = r.wanted {
        assert(d[b] == "wanted: "@ + w);
    }
    if let Some(w) = r.required {
        assert(d[c] == "required: "@ + w);
    }
    assert forall|k: Text| #[trigger]
        r.config.contains_key(k) && k != "name"@ && k != "type"@ implies d.contains(
        k + ": "@ + r.config[k],
    ) by {
        assert(map_of(p).contains_key(k));
        let i = choose|i: int| 0 <= i < p.len() && (#[trigger] p[i]).0 == k;
        assert(map_of(p)[p[i].0] == p[i].1);
        p.lemma_filter_contains(keep, i);
        let j = choose|j: int| 0 <= j < kept.len() && kept[j] == p[i];
        assert(rows[j] == k + ": "@ + r.config[k]);
        assert(d[e + j] == rows[j]);
    }
    assert forall|i: int| e <= i < d.len() implies is_setting_row(r, #[trigger] d[i]) by {
        let j = i - e;
        assert(d[i] == rows[j]);
        p.lemma_filter_pred(keep, j);
        assert(kept.contains(kept[j]));
        p.lemma_filter_contains_rev(keep, kept[j]);
        let x = choose|x: int| 0 <= x < p.len() && p[x] == kept[j];
        assert(map_of(p).contains_key(p[x].0) && map_of(p)[p[x].0] == p[x].1);
        assert(r.config.contains_key(p[x].0));
    }
}

/// Whether the row tells of a setting other than the name and the type.
pub open spec fn is_setting_row(r: RemoteView, row: Text) -> bool {
    exists|k: Text| #[trigger]
        r.config.contains_key(k) && k != "name"@ && k != "type"@ && row == k + ": "@ + r.config[k]
}

/// What is known of a drive, at length.
pub proof fn law_drive_info(r: RemoteView, live: Set<Text>)
    ensures
        ({
            let d = (NodeView::DriveInfo { remote: r }).details(live);
            &&& d[0] == "UUID: "@ + r.uuid
            &&& d[1] == "Description / name: "@ + r.description
            &&& d[2] == "Type: "@ + r.rtype()
            &&& d[3] == "Trust level: "@ + trust_word(r.trust)
            &&& r.last_fsck matches Some(t) ==> d[4] == "Last fsck recorded: "@ + unix_text(t)
            &&& d[4 + one_if(r.last_fsck is Some)] == "Keys present on this: "@ + decimal(
                r.present_count as nat,
            )
            &&& r.groups.len() > 0 ==> d.contains("groups: "@ + join(r.groups, ", "@))
            &&& r.wanted matches Some(w) ==> d.contains("wanted: "@ + w)
            &&& r.required matches Some(w) ==> d.contains("required: "@ + w)
            &&& r.config.contains_key("directory"@) ==> d.last() == "directory: "@
                + r.config["directory"@]
            &&& d.len() == 5 + setup_rows(r) + one_if(r.config.contains_key("directory"@))
        }),
{
    let d = (NodeView::DriveInfo { remote: r }).details(live);
    let a = 5 + one_if(r.last_fsck is Some);
    let b = a + one_if(r.groups.len() > 0);
    let c = b + one_if(r.wanted is Some);
    if r.groups.len() > 0 {
        assert(d[a] == "groups: "@ + join(r.groups, ", "@));
    }
    if let Some(w) = r.wanted {
        assert(d[b] == "wanted: "@ + w);
    }
    if let Some(w) = r.required {
        assert(d[c] == "required: "@ + w);
    }
}

/// The drives that have content of a repository are told, those with most keys first; of more
/// than eight the first eight and how many more there are.
#[verifier::rlimit(40)]
pub proof fn law_drives_with_content(
    m: MetaView,
    profiles: Map<Text, ProfileView>,
    live: Set<Text>,
)
    requires
        m.remotes.dom().finite(),
    ensures
        ({
            let d = (NodeView::Drives { meta: m, profiles }).details(live);
            let full = with_content(m.remotes);
            &&& full.len() == m.remotes.dom().filter(
                |u: Text| m.remotes[u].present_count > 0,
            ).len()
            &&& forall|p: (Text, RemoteView)| #[trigger]
                full.contains(p) <==> m.remotes.contains_key(p.0) && m.remotes[p.0] == p.1
                    && p.1.present_count > 0
            &&& forall|i: int, j: int|
                0 <= i < j < full.len() ==> (#[trigger] full[i]).1.present_count >= (
                #[trigger] full[j]).1.present_count
            &&& full.len() > 0 ==> d[3] == "disks with content from this repo:"@
            &&& forall|i: int|
                0 <= i < full.len() && i < 8 ==> d[4 + i] == "  "@ + (#[trigger] full[i]).1.name()
                    + " : "@ + decimal(full[i].1.present_count as nat) + " keys"@
            &&& full.len() > 8 ==> d[12] == "  ... and "@ + decimal((full.len() - 8) as nat)
                + " more"@
        }),
{
    let p = pairs_of(m.remotes);
    let keep = |q: (Text, RemoteView)| q.1.present_count > 0;
    let kept = p.filter(keep);
    let key = |q: (Text, RemoteView)| (-(q.1.present_count as int), Seq::<char>::empty());
    let full = with_content(m.remotes);
    law_sorted(kept, key);
    lemma_pairs_of_finite(m.remotes);
    lemma_ordered_distinct(p);
    lemma_map_of(p);
    let some = |r: RemoteView| r.present_count > 0;
    lemma_count_pairs(m.remotes, some);
    assert((|q: (Text, RemoteView)| some(q.1)) =~= keep);
    assert(m.remotes.dom().filter(|u: Text| some(m.remotes[u])) =~= m.remotes.dom().filter(
        |u: Text| m.remotes[u].present_count > 0,
    ));
    assert forall|q: (Text, RemoteView)| #[trigger] full.contains(q) <==> m.remotes.contains_key(
        q.0,
    ) && m.remotes[q.0] == q.1 && q.1.present_count > 0 by {
        if full.contains(q) {
            assert(kept.contains(q));
            p.lemma_filter_contains_rev(keep, q);
            let k = choose|k: int| 0 <= k < kept.len() && kept[k] == q;
            p.lemma_filter_pred(keep, k);
            let i = choose|i: int| 0 <= i < p.len() && p[i] == q;
            assert(map_of(p).contains_key(p[i].0) && map_of(p)[p[i].0] == p[i].1);
        }
        if m.remotes.contains_key(q.0) && m.remotes[q.0] == q.1 && q.1.present_count > 0 {
            assert(map_of(p).contains_key(q.0));
            let i = choose|i: int| 0 <= i < p.len() && (#[trigger] p[i]).0 == q.0;
            assert(map_of(p)[p[i].0] == p[i].1);
            assert(p[i] == q);
            p.lemma_filter_contains(keep, i);
            assert(kept.contains(q));
        }
    }
    assert forall|i: int, j: int| 0 <= i < j < full.len() implies (
    #[trigger] full[i]).1.present_count >= (#[trigger] full[j]).1.present_count by {
        assert(!key_less(key(full[j]), key(full[i])));
    }
}

/// A drive is missing in a repository if drives of its name are set up in different ways and
/// there are three or more of them, but none in the repository.
#[verifier::rlimit(40)]
pub proof fn law_missing_drives(
    remotes: Map<Text, RemoteView>,
    profiles: Map<Text, ProfileView>,
    name: Text,
)
    requires
        remotes.dom().finite(),
        profiles.dom().finite(),
    ensures
        missing_drives(remotes, profiles).contains(name) <==> {
            &&& profiles.contains_key(name)
            &&& profiles[name].has_variation()
            &&& all_counts(profiles[name].trusts) >= 3
            &&& forall|u: Text| #[trigger] remotes.contains_key(u) ==> remotes[u].name() != name
        },
{
    let r = pairs_of(remotes);
    lemma_pairs_of_finite(remotes);
    lemma_ordered_distinct(r);
    lemma_map_of(r);
    let p = pairs_of(profiles);
    lemma_pairs_of_finite(profiles);
    lemma_ordered_distinct(p);
    lemma_map_of(p);
    let keep = |q: (Text, ProfileView)|
        !has_drive_named(pairs_of(remotes), q.0) && q.1.has_variation() && all_counts(q.1.trusts)
            >= 3;
    let kept = p.filter(keep);
    let names = missing_drives(remotes, profiles);
    assert(has_drive_named(r, name) <==> exists|u: Text| #[trigger]
        remotes.contains_key(u) && remotes[u].name() == name) by {
        if has_drive_named(r, name) {
            let i = choose|i: int| 0 <= i < r.len() && (#[trigger] r[i]).1.name() == name;
            assert(map_of(r).contains_key(r[i].0) && map_of(r)[r[i].0] == r[i].1);
            assert(remotes.contains_key(r[i].0));
        }
        if exists|u: Text| #[trigger] remotes.contains_key(u) && remotes[u].name() == name {
            let u = choose|u: Text| #[trigger]
                remotes.contains_key(u) && remotes[u].name() == name;
            assert(map_of(r).contains_key(u));
            let i = choose|i: int| 0 <= i < r.len() && (#[trigger] r[i]).0 == u;
            assert(map_of(r)[r[i].0] == r[i].1);
            assert(r[i].1.name() == name);
        }
    }
    if names.contains(name) {
        let k = choose|k: int| 0 <= k < names.len() && names[k] == name;
        p.lemma_filter_pred(keep, k);
        assert(kept.contains(kept[k]));
        p.lemma_filter_contains_rev(keep, kept[k]);
        let i = choose|i: int| 0 <= i < p.len() && p[i] == kept[k];
        assert(map_of(p).contains_key(p[i].0) && map_of(p)[p[i].0] == p[i].1);
    }
    if profiles.contains_key(name) && profiles[name].has_variation() && all_counts(
        profiles[name].trusts,
    ) >= 3 && !has_drive_named(r, name) {
        assert(map_of(p).contains_key(name));
        let i = choose|i: int| 0 <= i < p.len() && (#[trigger] p[i]).0 == name;
        assert(map_of(p)[p[i].0] == p[i].1);
        assert(keep(p[i]));
        p.lemma_filter_contains(keep, i);
        let k = choose|k: int| 0 <= k < kept.len() && kept[k] == p[i];
        assert(names[k] == name);
    }
}

/// A drive is marked if the drives of its name are set up in different ways and it is set up
/// otherwise than most of them.
pub proof fn law_anomalous_drives(
    m: MetaView,
    profiles: Map<Text, ProfileView>,
    i: int,
)
    requires
        0 <= i < (NodeView::Drives { meta: m, profiles }).children().len(),
    ensures
        ({
            let x = (NodeView::Drives { meta: m, profiles }).children()[i];
            let r = x->Drive_remote;
            &&& x is Drive
            &&& !profiles.contains_key(r.name()) ==> !x.anomalous()
            &&& profiles.contains_key(r.name()) ==> (x.anomalous() <==> {
                let p = profiles[r.name()];
                p.has_variation() && !p.fits(r)
            })
        }),
{
}

/// Drives that are missing in a repository are told where drives of more than three names are
/// known.
pub proof fn law_missing_drives_are_told(
    m: MetaView,
    profiles: Map<Text, ProfileView>,
    live: Set<Text>,
)
    ensures
        ({
            let d = (NodeView::Drives { meta: m, profiles }).details(live);
            let missing = missing_drives(m.remotes, profiles);
            let full = with_content(m.remotes).len() as int;
            let above = if full == 0 {
                2int
            } else if full > 8 {
                13
            } else {
                4 + full
            };
            &&& profiles.len() > 3 && missing.len() > 0 ==> d.len() == above + 2 && d.last()
                == "missing in this repo (but common elsewhere): "@ + join(missing, ", "@)
            &&& profiles.len() <= 3 || missing.len() == 0 ==> d.len() == above
        }),
{
}

} // verus!
