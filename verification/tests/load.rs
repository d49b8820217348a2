use git_annex_browser::annex::{short_name, AnnexMetadata, AnnexedFile, RepoSummary};
use git_annex_browser::load::{
    can_load, files_with_keys, fs_space, known_remotes, load_metadata, paths_in, remote_drive_path,
    RepoAnswers,
};
use git_annex_browser::logs::{WhereisJson, WhereisRemoteJson};
use git_annex_browser::table::{StrMap, StrSet};
use git_annex_browser::trust::TrustLevel;

fn at(uuid: &str) -> WhereisRemoteJson {
    WhereisRemoteJson {
        uuid: uuid.to_string(),
    }
}

fn answers() -> RepoAnswers {
    RepoAnswers {
        root: "/data/photos".to_string(),
        uuid: " me \n".to_string(),
        describe: "\n".to_string(),
        numcopies: None,
        numcopies_log: Some("5s 2\n9s 3\n".to_string()),
        uuid_log: "me my laptop timestamp=5s\nusb usb timestamp=1s\n".to_string(),
        remote_log: "usb type=directory name=stick directory=/mnt/usb cipher=X timestamp=3s\n\
                     s3 type=S3 timestamp=2s\n"
            .to_string(),
        trust_log: "usb 0 timestamp=1s\n".to_string(),
        activity_log: "usb Fsck timestamp=42s\n".to_string(),
        group_log: "usb backup archive timestamp=1s\n".to_string(),
        preferred_log: "usb standard timestamp=1s\n".to_string(),
        required_log: "me include=* timestamp=1s\n".to_string(),
        gitattributes: Some("* annex.largefiles=anything\n*.txt text\n".to_string()),
        settings: Some(
            "annex.uuid me\nannex.version 10\nannex.numcopies 3\nannex.describe x\n".to_string(),
        ),
        paths: "a.jpg\0dir/b.jpg\0c.txt\0".to_string(),
        keys: vec![
            Some("SHA256E-s100--a".to_string()),
            None,
            Some("URL--c".to_string()),
            Some("SHA256E-s9--beyond".to_string()),
        ],
        whereis: vec![
            Some(WhereisJson {
                key: Some("SHA256E-s100--a".to_string()),
                whereis: vec![at("me"), at("usb")],
                untrusted: vec![],
            }),
            None,
            Some(WhereisJson {
                key: Some("SHA256E-s7--old".to_string()),
                whereis: vec![],
                untrusted: vec![at("usb")],
            }),
        ],
    }
}

#[test]
fn drives_come_from_all_logs() {
    let r = known_remotes(&answers());
    assert_eq!(r.len(), 3);
    let usb = r.get("usb").unwrap();
    assert_eq!(usb.name(), "stick");
    assert_eq!(usb.description, "stick");
    assert_eq!(usb.rtype(), "directory");
    assert!(usb.is_special());
    assert_eq!(usb.trust, TrustLevel::UnTrusted);
    assert_eq!(usb.last_fsck, Some(42));
    assert_eq!(usb.groups, vec!["archive", "backup"]);
    assert_eq!(usb.wanted.as_deref(), Some("standard"));
    assert_eq!(usb.required, None);
    assert_eq!(
        usb.config.get("cipher").map(String::as_str),
        Some("[redacted]")
    );
    let me = r.get("me").unwrap();
    assert_eq!(me.name(), "my laptop");
    assert_eq!(me.rtype(), "repo");
    assert!(!me.is_special());
    assert_eq!(me.trust, TrustLevel::SemiTrusted);
    assert_eq!(me.required.as_deref(), Some("include=*"));
    let s3 = r.get("s3").unwrap();
    assert_eq!(s3.name(), "s3");
}

#[test]
fn the_repository_is_a_drive_of_its_own() {
    let mut a = answers();
    a.uuid_log = String::new();
    let r = known_remotes(&a);
    let me = r.get("me").unwrap();
    assert_eq!(me.name(), "here");
    assert_eq!(me.description, "here");
    a.describe = "desk".to_string();
    assert_eq!(known_remotes(&a).get("me").unwrap().description, "desk");
    a.uuid = String::new();
    assert!(known_remotes(&a).get("me").is_none());
}

#[test]
fn metadata_is_put_together() {
    let a = answers();
    assert!(can_load(&a));
    let mut spaces = StrMap::new();
    spaces.insert("usb".to_string(), 12345u64);
    spaces.insert("nobody".to_string(), 1u64);
    let m = load_metadata(&a, &spaces);
    assert_eq!(m.root, "/data/photos");
    assert_eq!(m.uuid, "me");
    assert_eq!(m.description, "my laptop");
    assert_eq!(m.version, None);
    assert_eq!(m.numcopies, Some(3));
    assert_eq!(
        m.additional_configs,
        vec![
            "annex.numcopies=3",
            ".gitattributes: * annex.largefiles=anything",
            "annex.version 10",
        ]
    );
    assert_eq!(m.remotes.get("usb").unwrap().available_space, Some(12345));
    assert_eq!(m.remotes.get("usb").unwrap().present_count, 2);
    assert_eq!(m.remotes.get("me").unwrap().present_count, 1);
    assert_eq!(m.remotes.get("me").unwrap().available_space, None);
    assert_eq!(m.remotes.get("s3").unwrap().present_count, 0);
    assert_eq!(m.files.len(), 2);
    assert_eq!(m.files[0].path, "a.jpg");
    assert_eq!(m.files[0].size, Some(100));
    assert_eq!(m.files[1].path, "c.txt");
    assert_eq!(m.files[1].size, None);
    assert_eq!(m.total_keys, 2);
    assert_eq!(m.unique_size, 107);
    assert_eq!(m.consumed_size, 207);
}

#[test]
fn number_of_copies_is_set_before_it_is_logged() {
    let mut a = answers();
    a.numcopies = Some(" 4 \n".to_string());
    assert_eq!(load_metadata(&a, &StrMap::new()).numcopies, Some(4));
    a.numcopies = Some("many".to_string());
    assert_eq!(load_metadata(&a, &StrMap::new()).numcopies, Some(3));
    a.numcopies_log = None;
    let m = load_metadata(&a, &StrMap::new());
    assert_eq!(m.numcopies, None);
    assert_eq!(m.additional_configs.len(), 2);
}

#[test]
fn description_falls_back() {
    let mut a = answers();
    a.describe = "set".to_string();
    assert_eq!(load_metadata(&a, &StrMap::new()).description, "set");
    a.describe = String::new();
    a.uuid_log = String::new();
    assert_eq!(load_metadata(&a, &StrMap::new()).description, "me");
}

#[test]
fn sizes_that_cannot_be_counted_are_told() {
    let mut a = answers();
    a.whereis = vec![Some(WhereisJson {
        key: Some("X-s18446744073709551615--z".to_string()),
        whereis: vec![at("me"), at("usb")],
        untrusted: vec![],
    })];
    assert!(!can_load(&a));
    a.whereis[0].as_mut().unwrap().whereis.pop();
    assert!(can_load(&a));
}

#[test]
fn keys_are_counted_by_their_locations() {
    let mut a = answers();
    a.whereis.clear();
    let m = load_metadata(&a, &StrMap::new());
    assert_eq!(m.files.len(), 2);
    assert_eq!(m.total_keys, 0);
    let mut a = answers();
    a.paths.clear();
    let m = load_metadata(&a, &StrMap::new());
    assert_eq!(m.files.len(), 0);
    assert_eq!(m.total_keys, 2);
}

#[test]
fn paths_and_keys_are_paired() {
    assert_eq!(paths_in("a\0\0b\0"), vec!["a", "b"]);
    assert!(paths_in("").is_empty());
    let paths = vec!["p".to_string(), "q".to_string()];
    let files = files_with_keys(&paths, &vec![None, Some("K-s3--x".to_string())]);
    assert_eq!(files.len(), 1);
    assert_eq!(files[0].path, "q");
    assert_eq!(files[0].size, Some(3));
}

#[test]
fn drives_are_found_on_this_machine() {
    let r = known_remotes(&answers());
    let usb = r.get("usb").unwrap();
    assert_eq!(
        remote_drive_path(usb, "/r", "me", true).as_deref(),
        Some("/mnt/usb")
    );
    assert_eq!(remote_drive_path(usb, "/r", "me", false), None);
    let me = r.get("me").unwrap();
    assert_eq!(
        remote_drive_path(me, "/r", "me", true).as_deref(),
        Some("/r")
    );
    assert_eq!(
        remote_drive_path(usb, "/r", "usb", false).as_deref(),
        Some("/r")
    );
}

#[test]
fn space_is_counted_in_blocks() {
    assert_eq!(fs_space(4096, 10, 20), (40960, 81920));
    assert_eq!(fs_space(4096, u64::MAX, 1), (u64::MAX, 4096));
    assert_eq!(fs_space(0, 5, 5), (0, 0));
}

#[test]
fn drives_have_short_names() {
    let m = load_metadata(&answers(), &StrMap::new());
    assert_eq!(short_name(&m, "me"), "here");
    assert_eq!(short_name(&m, "usb"), "stick");
    assert_eq!(short_name(&m, "s3"), "s3");
    assert_eq!(short_name(&m, "0123456789"), "01234567");
    assert_eq!(short_name(&m, "012"), "012");
}

#[test]
fn summaries_are_drawn_from_metadata() {
    let m = load_metadata(&answers(), &StrMap::new());
    let s = m.to_summary();
    assert_eq!(s.name, "photos");
    assert_eq!(s.annex_description, "my laptop");
    assert_eq!(s.file_count, 2);
    assert_eq!(s.remote_count, 3);
    assert_eq!(s.here_present_count, 1);
    assert_eq!(s.here_available_space, None);
    assert_eq!((s.unique_size, s.consumed_size), (107, 207));
}

#[test]
fn missing_sizes_and_names_are_filled_in() {
    let mut m = load_metadata(&answers(), &StrMap::new());
    m.unique_size = 0;
    m.consumed_size = 0;
    assert!(m.can_ensure_sizes());
    m.ensure_sizes();
    assert_eq!((m.unique_size, m.consumed_size), (107, 207));
    m.unique_size = 1;
    m.ensure_sizes();
    assert_eq!(m.unique_size, 1);
    let mut s = m.to_summary();
    s.name = String::new();
    s.ensure_name();
    assert_eq!(s.name, "photos");
    s.name = String::new();
    s.root = "/".to_string();
    s.ensure_name();
    assert_eq!(s.name, "my laptop");
    s.ensure_name();
    assert_eq!(s.name, "my laptop");
    let bare = RepoSummary::bare(&"/x/y".to_string());
    assert_eq!(bare.name, "y");
    assert_eq!(bare.uuid, "");
}

#[test]
fn the_later_file_gives_the_size_of_a_key() {
    let file = |path: &str, size: Option<u64>| AnnexedFile {
        path: path.to_string(),
        key: "K-s5--k".to_string(),
        size,
    };
    let mut m: AnnexMetadata = load_metadata(&answers(), &StrMap::new());
    m.files = vec![file("a", Some(11)), file("b", Some(12)), file("c", None)];
    let mut here = StrSet::new();
    here.insert("me".to_string());
    m.locations = StrMap::new();
    m.locations.insert("K-s5--k".to_string(), here);
    m.unique_size = 0;
    m.consumed_size = 0;
    m.ensure_sizes();
    assert_eq!(m.unique_size, 12);
}
