use git_annex_browser::annex::{AnnexMetadata, AnnexedFile, Remote};
use git_annex_browser::files::paths_listed;
use git_annex_browser::node::{
    AllFilesNode, AnnexFileNode, DirectoryNode, DriveNode, DrivesNode, FilesOnDriveNode, RepoNode,
    RepoSummaryNode, RootNode, TreeNode, UsageDirNode, UsageFileNode,
};
use git_annex_browser::profile::{count_drives, DriveProfile};
use git_annex_browser::table::{Dup, StrMap, StrSet};
use git_annex_browser::tree::Node;
use git_annex_browser::trust::TrustLevel;
use std::rc::Rc;

fn set(members: &[&str]) -> StrSet {
    let mut s = StrSet::new();
    for m in members {
        s.insert(m.to_string());
    }
    s
}

fn remote(uuid: &str, name: &str, fsck: Option<i64>, count: usize) -> Remote {
    let mut config = StrMap::new();
    if !name.is_empty() {
        config.insert("name".to_string(), name.to_string());
        config.insert("type".to_string(), "directory".to_string());
    }
    Remote {
        uuid: uuid.to_string(),
        description: format!("{uuid} described"),
        config,
        trust: TrustLevel::Trusted,
        last_fsck: fsck,
        present_count: count,
        available_space: None,
        groups: vec![],
        wanted: None,
        required: None,
    }
}

fn file(path: &str, key: &str, size: Option<u64>) -> AnnexedFile {
    AnnexedFile {
        path: path.to_string(),
        key: key.to_string(),
        size,
    }
}

fn meta() -> AnnexMetadata {
    let mut remotes = StrMap::new();
    remotes.insert("me".to_string(), remote("me", "", Some(5), 2));
    remotes.insert("usb".to_string(), remote("usb", "stick", Some(9), 1));
    remotes.insert("old".to_string(), remote("old", "attic", None, 0));
    let mut locations = StrMap::new();
    locations.insert("k1".to_string(), set(&["me", "usb"]));
    locations.insert("k2".to_string(), set(&["me"]));
    locations.insert("K-s2048--u".to_string(), set(&["usb"]));
    AnnexMetadata {
        root: "/data/photos".to_string(),
        uuid: "me".to_string(),
        description: "my laptop".to_string(),
        version: None,
        numcopies: Some(2),
        additional_configs: vec!["annex.numcopies=2".to_string()],
        remotes,
        locations,
        files: vec![
            file("b.txt", "k1", Some(10)),
            file("dir/sub/c.txt", "k2", Some(2048)),
            file("dir/a.txt", "k3", None),
            file("a.txt", "k2", Some(1)),
        ],
        total_keys: 4,
        unique_size: 7,
        consumed_size: 9,
    }
}

fn labels(kids: &Vec<Rc<TreeNode>>) -> Vec<String> {
    kids.iter().map(|k| k.label()).collect()
}

fn none() -> StrSet {
    StrSet::new()
}

#[test]
fn the_top_lists_repositories() {
    let m = meta();
    let mut root = RootNode::new("/data".to_string());
    root.summaries.push(m.to_summary());
    let node = TreeNode::Root(root);
    assert_eq!(node.label(), "scan: /data");
    assert_eq!(node.kind(), "root");
    assert_eq!(
        node.details(&none()),
        vec![
            "root: /data",
            "annex repos found: 1",
            "Drives sorted by last fsck time. Use --scan to refresh cache.",
        ]
    );
    let kids = node.children();
    assert_eq!(labels(&kids), vec!["photos (my laptop) — 4 files, 3 drives"]);
    assert_eq!(kids[0].annex_repo_path().unwrap(), "/data/photos");
    assert_eq!(
        kids[0].details(&none()),
        vec![
            "path: /data/photos",
            "uuid: me",
            "annex description: my laptop",
            "files in working tree: 4",
            "known remotes/drives: 3",
            "keys present here: 2",
            "→ descend to see drives (sorted by last fsck), groups, wanted, numcopies etc.",
        ]
    );
    assert!(kids[0].children().is_empty());
    let mut s = m.to_summary();
    s.annex_description = s.name.clone();
    s.uuid = String::new();
    let plain = RepoSummaryNode { summary: s };
    assert_eq!(plain.label(), "photos — 4 files, 3 drives");
    assert_eq!(plain.details().len(), 6);
}

#[test]
fn a_repository_leads_with_its_drives() {
    let node = TreeNode::Repo(RepoNode::new(Rc::new(meta())));
    assert_eq!(node.label(), "photos (my laptop) [me]");
    assert_eq!(node.kind(), "repo");
    assert_eq!(node.loaded_repo_path().unwrap(), "/data/photos");
    let kids = node.children();
    assert_eq!(
        labels(&kids),
        vec![
            "drives / remotes (3)",
            "info / summary",
            "all annexed files (4)",
            "files on here (2)",
        ]
    );
    assert_eq!(
        node.details(&none()),
        vec![
            "path: /data/photos",
            "uuid: me",
            "description: my laptop",
            "annexed files (working tree): 4",
            "known keys (locations): 4",
            "known remotes/drives: 3",
            "here present: 2 keys",
        ]
    );
    assert_eq!(
        kids[1].details(&none()),
        vec![
            "repo path: /data/photos",
            "name: photos (my laptop)",
            "local uuid: me",
            "working tree annexed files: 4",
            "unique keys tracked: 4",
            "trust summary: 3 trusted, 0 semitrusted, 0 untrusted",
            "numcopies: 2",
            "last fsck (here): 1970-01-01 00:00",
            "additional configs:",
            "  annex.numcopies=2",
        ]
    );
    let mut bare = meta();
    bare.files = vec![];
    bare.uuid = "stranger".to_string();
    bare.description = String::new();
    let node = RepoNode::new(Rc::new(bare));
    assert_eq!(node.children().len(), 2);
    assert_eq!(node.label(), "photos [stranger]");
}

#[test]
fn drives_come_by_their_last_check() {
    let node = DrivesNode {
        meta: Rc::new(meta()),
        drive_profiles: Rc::new(StrMap::new()),
    };
    let kids = node.children();
    assert_eq!(
        labels(&kids),
        vec![
            "stick (directory) 1 keys",
            "me described [here] 2 keys",
            "attic (directory) 0 keys",
        ]
    );
    assert_eq!(kids[0].kind(), "drive");
    assert_eq!(kids[1].kind(), "here");
    assert_eq!(kids[0].trust(), Some(TrustLevel::Trusted));
    assert!(!kids[0].anomalous());
    assert_eq!(kids[0].children().len(), 2);
    assert_eq!(kids[2].children().len(), 1);
    assert_eq!(
        node.details(),
        vec![
            "All known drives / remotes for this repo.",
            "Sorted by last fsck time (most recent first). Descend (Enter) to browse files present on each.",
            "",
            "disks with content from this repo:",
            "  me described : 2 keys",
            "  stick : 1 keys",
        ]
    );
}

#[test]
fn only_eight_drives_with_content_are_named() {
    let mut m = meta();
    for i in 0..10 {
        let u = format!("d{i}");
        m.remotes.insert(u.clone(), remote(&u, &u, None, 20 - i));
    }
    let node = DrivesNode {
        meta: Rc::new(m),
        drive_profiles: Rc::new(StrMap::new()),
    };
    let d = node.details();
    assert_eq!(d.len(), 13);
    assert_eq!(d[4], "  d0 : 20 keys");
    assert_eq!(d[12], "  ... and 4 more");
}

#[test]
fn a_drive_tells_its_setup() {
    let mut r = remote("usb", "stick", Some(-1), 1);
    r.groups = vec!["backup".to_string(), "old".to_string()];
    r.wanted = Some("standard".to_string());
    r.required = Some("include=*".to_string());
    r.config
        .insert("directory".to_string(), "/mnt/usb".to_string());
    let node = DriveNode {
        meta: Rc::new(meta()),
        remote: r,
        anomalous: true,
    };
    assert_eq!(
        node.details(),
        vec![
            "name: stick",
            "uuid: usb",
            "type: directory",
            "trust: trusted (T)",
            "present keys: 1",
            "last fsck: never",
            "groups: backup, old",
            "wanted: standard",
            "required: include=*",
            "directory: /mnt/usb",
        ]
    );
    let tree = TreeNode::Drive(node);
    assert!(tree.anomalous());
    let kids = tree.children();
    assert_eq!(labels(&kids), vec!["drive info", "files on stick (2)"]);
    assert_eq!(
        kids[0].details(&none()),
        vec![
            "UUID: usb",
            "Description / name: usb described",
            "Type: directory",
            "Trust level: trusted",
            "Last fsck recorded: never",
            "Keys present on this: 1",
            "groups: backup, old",
            "wanted: standard",
            "required: include=*",
            "directory: /mnt/usb",
        ]
    );
    assert_eq!(
        kids[1].listing_query(),
        Some(("/data/photos".to_string(), "stick".to_string()))
    );
}

#[test]
fn unusual_drives_are_told() {
    let mut profiles: StrMap<DriveProfile> = StrMap::new();
    for trust in [
        TrustLevel::Dead,
        TrustLevel::Dead,
        TrustLevel::Trusted,
        TrustLevel::Dead,
    ] {
        let mut m = meta();
        let mut other = remote("x", "elsewhere", None, 0);
        other.trust = trust;
        let mut stick = remote("usb", "stick", None, 0);
        stick.trust = trust;
        m.remotes = StrMap::new();
        m.remotes.insert("x".to_string(), other);
        m.remotes.insert("usb".to_string(), stick);
        m.remotes
            .insert("y".to_string(), remote("y", "steady", None, 0));
        m.remotes
            .insert("z".to_string(), remote("z", "attic", None, 0));
        count_drives(&mut profiles, &m);
    }
    let stick = profiles.get("stick").unwrap();
    assert_eq!(stick.most_common_trust(), Some(TrustLevel::Dead));
    assert_eq!(stick.most_common_groups(), Some(vec![]));
    assert_eq!(stick.most_common_wanted(), None);
    assert_eq!(stick.most_common_required(), None);
    assert!(stick.has_variation());
    assert!(!profiles.get("steady").unwrap().has_variation());
    let node = DrivesNode {
        meta: Rc::new(meta()),
        drive_profiles: Rc::new(profiles),
    };
    let kids = node.children();
    assert!(kids[0].anomalous());
    assert!(!kids[1].anomalous());
    assert!(!kids[2].anomalous());
    let d = node.details();
    assert_eq!(
        d[d.len() - 1],
        "missing in this repo (but common elsewhere): elsewhere"
    );
}

#[test]
fn a_profile_compares_every_setting() {
    let mut p = DriveProfile::default();
    let mut r = remote("u", "n", None, 0);
    r.groups = vec!["b".to_string(), "a".to_string()];
    r.wanted = Some("w".to_string());
    r.required = Some("q".to_string());
    p.count_drive(&r);
    let mut same = r.dup();
    same.groups = vec!["a".to_string(), "b".to_string()];
    assert!(p.matches_common(&same));
    let mut other = r.dup();
    other.wanted = None;
    assert!(!p.matches_common(&other));
    let mut other = r.dup();
    other.required = Some("z".to_string());
    assert!(!p.matches_common(&other));
    let mut other = r.dup();
    other.groups = vec![];
    assert!(!p.matches_common(&other));
    let mut other = r.dup();
    other.trust = TrustLevel::Dead;
    assert!(!p.matches_common(&other));
    assert_eq!(p.most_common_wanted().as_deref(), Some("w"));
    assert_eq!(p.most_common_required().as_deref(), Some("q"));
    assert!(DriveProfile::default().matches_common(&r));
}

#[test]
fn files_tell_where_they_are() {
    let node = |f: AnnexedFile, highlight: Option<&str>| AnnexFileNode {
        meta: Rc::new(meta()),
        file: f,
        highlight_drive: highlight.map(String::from),
    };
    let a = node(file("b.txt", "k1", Some(10)), Some("usb"));
    assert_eq!(a.label(), "b.txt (10 B) [here,stick]");
    assert!(!a.wants_live());
    assert_eq!(
        a.details(&none()),
        vec![
            "path: b.txt",
            "key: k1",
            "size: 10 B",
            "present on 2 locations:",
            "  here T",
            "  stick T ★",
        ]
    );
    assert_eq!(a.raw_text().as_deref(), Some("key: k1\n  me\n  usb\n"));
    let b = node(file("x", "nowhere", None), None);
    assert_eq!(b.label(), "x");
    assert!(b.wants_live());
    assert_eq!(b.raw_text(), None);
    assert_eq!(
        b.details(&none()),
        vec![
            "path: x",
            "key: nowhere",
            "no location records (perhaps never copied)"
        ]
    );
    assert_eq!(
        b.details(&set(&["0123456789"])),
        vec![
            "path: x",
            "key: nowhere",
            "present on 1 locations:",
            "  01234567 ?"
        ]
    );
}

#[test]
fn many_locations_are_counted() {
    let mut m = meta();
    m.locations
        .insert("k1".to_string(), set(&["me", "usb", "old", "zzz"]));
    let node = AnnexFileNode {
        meta: Rc::new(m),
        file: file("b.txt", "k1", None),
        highlight_drive: None,
    };
    assert_eq!(node.label(), "b.txt [attic+3]");
}

#[test]
fn directories_come_before_files() {
    let all = AllFilesNode {
        meta: Rc::new(meta()),
    };
    assert_eq!(
        labels(&all.children()),
        vec!["dir/", "a.txt (1 B) [here]", "b.txt (10 B) [here,stick]"]
    );
    let dir = |path: &str, drive: Option<&str>| DirectoryNode {
        meta: Rc::new(meta()),
        dir_path: path.to_string(),
        drive_uuid: drive.map(String::from),
    };
    assert_eq!(
        labels(&dir("dir", None).children()),
        vec!["sub/", "dir/a.txt"]
    );
    assert_eq!(labels(&dir("dir", Some("me")).children()), vec!["sub/"]);
    assert!(dir("dir", Some("usb")).children().is_empty());
    assert!(dir("di", None).children().is_empty());
    assert_eq!(
        labels(&dir("dir/sub", None).children()),
        vec!["dir/sub/c.txt (2.0 KiB) [here]"]
    );
    assert_eq!(labels(&dir("", None).children()).len(), 3);
    assert_eq!(dir("", None).label(), "<root>");
    assert_eq!(dir("dir/sub", None).label(), "sub/");
    assert_eq!(dir("", None).details(), vec!["directory: <root>"]);
    assert_eq!(dir("dir/sub", None).details(), vec!["directory: dir/sub"]);
}

#[test]
fn a_drive_lists_files_and_unused_keys() {
    let mut node = FilesOnDriveNode {
        meta: Rc::new(meta()),
        drive_uuid: "usb".to_string(),
        drive_name: "stick".to_string(),
        listing: None,
    };
    assert_eq!(node.label(), "files on stick (2)");
    assert_eq!(node.query_name(), "stick");
    node.listing = Some(vec![file("b.txt", "k1", Some(10)), file("q/r", "k9", None)]);
    assert_eq!(
        labels(&node.children()),
        vec![
            "q/",
            "<unused key> K-s2048--u (2.0 KiB) [stick]",
            "b.txt (10 B) [here,stick]",
        ]
    );
    assert_eq!(
        node.details()[0],
        "Drive: stick (usb)"
    );
    node.drive_uuid = "me".to_string();
    assert_eq!(node.query_name(), "here");
}

#[test]
fn listings_are_read() {
    let text = "here\n|stick\n||web\n|||\nXX_ a b.txt\nX__  dir/c  d.txt \n  \n||  e.txt\n";
    assert_eq!(paths_listed(text), vec!["d.txt", "e.txt"]);
    assert!(paths_listed("").is_empty());
}

#[test]
fn usage_shows_the_largest_first() {
    let top = TreeNode::UsageDir(UsageDirNode::root(Rc::new(meta())));
    assert_eq!(top.label(), "disk usage — 2.0 KiB, 4 files, largest first");
    assert_eq!(top.kind(), "usage");
    assert_eq!(top.size(), None);
    assert_eq!(top.initial_selected(), 1);
    let kids = top.children();
    assert_eq!(labels(&kids), vec!["..", "dir/", "b.txt", "a.txt"]);
    assert_eq!(kids[0].kind(), "parent");
    assert_eq!(kids[1].kind(), "dir");
    assert_eq!(kids[1].size(), Some(2048));
    assert_eq!(kids[2].present(), Some(true));
    assert_eq!(kids[2].size(), Some(10));
    assert_eq!(
        top.raw_text().as_deref(),
        Some("/\n2.0 KiB  4 files\n2048\tdir\tdir/\n10\tfile\tb.txt\n1\tfile\ta.txt\n")
    );
    assert_eq!(
        kids[1].details(&none()),
        vec![
            "directory: /dir",
            "annex size: 2.0 KiB (2 files)",
            "Sizes come from git-annex keys, not the filesystem.",
            "Dropped or missing content is still counted and listed.",
            "Entries are sorted largest first (ncdu-style). Enter a dir to browse it.",
        ]
    );
    let below = kids[1].children();
    assert_eq!(labels(&below), vec!["..", "sub/", "a.txt"]);
    assert_eq!(below[2].present(), Some(false));
    assert_eq!(
        below[2].live_query(),
        Some(("/data/photos".to_string(), "k3".to_string()))
    );
    assert_eq!(
        below[2].details(&none())[1],
        "content not present here — size is from the git-annex key"
    );
    assert_eq!(top.usage_listing().unwrap().entries.len(), 3);
    let file = UsageFileNode {
        meta: Rc::new(meta()),
        file: file("b.txt", "k1", Some(10)),
        name: "b.txt".to_string(),
        size: 10,
    };
    assert_eq!(file.details(&none())[1], "key: k1");
    assert_eq!(file.raw_text().as_deref(), Some("key: k1\n  me\n  usb\n"));
}
