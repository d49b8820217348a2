use git_annex_browser::annex::{AnnexMetadata, Remote};
use git_annex_browser::cache::{
    cache_dir, cache_path, load_cache, merge_scan_into_cache, merge_scan_repos, redact_meta,
    upsert_cache_repos, AnnexCache, CACHE_VERSION,
};
use git_annex_browser::table::StrMap;
use git_annex_browser::trust::TrustLevel;

fn dummy_meta(root: &str) -> AnnexMetadata {
    AnnexMetadata {
        root: root.to_string(),
        uuid: "u".into(),
        description: String::new(),
        version: None,
        numcopies: None,
        additional_configs: vec![],
        remotes: StrMap::new(),
        locations: StrMap::new(),
        files: vec![],
        total_keys: 0,
        unique_size: 0,
        consumed_size: 0,
    }
}

#[test]
fn merge_scan_keeps_repos_outside_root() {
    let mut existing = StrMap::new();
    existing.insert("/data/media/a".into(), dummy_meta("/data/media/a"));
    existing.insert("/data/backup/b".into(), dummy_meta("/data/backup/b"));
    existing.insert("/data/media/gone".into(), dummy_meta("/data/media/gone"));
    let mut found = StrMap::new();
    found.insert("/data/media/a".into(), dummy_meta("/data/media/a"));
    found.insert("/data/media/c".into(), dummy_meta("/data/media/c"));
    let merged = merge_scan_repos(existing, "/data/media", found);
    assert!(merged.contains_key("/data/media/a"));
    assert!(merged.contains_key("/data/media/c"));
    assert!(merged.contains_key("/data/backup/b"));
    assert!(!merged.contains_key("/data/media/gone"));
}

#[test]
fn merge_goes_by_whole_names() {
    let mut existing = StrMap::new();
    existing.insert("/data/mediax".into(), dummy_meta("/data/mediax"));
    existing.insert("/data//media/./x/".into(), dummy_meta("/data/media/x"));
    let merged = merge_scan_repos(existing, "/data/media/", StrMap::new());
    assert_eq!(merged.len(), 1);
    assert!(merged.contains_key("/data/mediax"));
}

fn meta_with_secret() -> AnnexMetadata {
    let mut config = StrMap::new();
    config.insert("cipher".to_string(), "SUPERSECRET".to_string());
    config.insert("name".to_string(), "bucket".to_string());
    let mut m = dummy_meta("/r");
    m.remotes.insert(
        "v".into(),
        Remote {
            uuid: "v".into(),
            description: "d".into(),
            config,
            trust: TrustLevel::Trusted,
            last_fsck: Some(3),
            present_count: 4,
            available_space: Some(5),
            groups: vec!["g".into()],
            wanted: Some("w".into()),
            required: None,
        },
    );
    m
}

#[test]
fn secrets_are_taken_out() {
    let once = redact_meta(meta_with_secret());
    let r = once.remotes.get("v").unwrap();
    assert_eq!(
        r.config.get("cipher").map(String::as_str),
        Some("[redacted]")
    );
    assert_eq!(r.config.get("name").map(String::as_str), Some("bucket"));
    assert_eq!(r.present_count, 4);
    assert_eq!(r.available_space, Some(5));
    let twice = redact_meta(once);
    assert_eq!(
        twice
            .remotes
            .get("v")
            .unwrap()
            .config
            .get("cipher")
            .map(String::as_str),
        Some("[redacted]")
    );
}

#[test]
fn stored_repos_hold_no_secret() {
    let cache = upsert_cache_repos(None, vec![("/r".to_string(), meta_with_secret())], 77);
    assert_eq!(cache.version, CACHE_VERSION);
    assert_eq!(cache.updated, 77);
    let stored = cache.repos.get("/r").unwrap();
    assert_eq!(
        stored
            .remotes
            .get("v")
            .unwrap()
            .config
            .get("cipher")
            .map(String::as_str),
        Some("[redacted]")
    );
}

#[test]
fn upsert_drops_none() {
    let cache = upsert_cache_repos(None, vec![("/a".to_string(), dummy_meta("/a"))], 1);
    let cache = upsert_cache_repos(Some(cache), vec![("/b".to_string(), dummy_meta("/b"))], 2);
    assert!(cache.repos.contains_key("/a"));
    assert!(cache.repos.contains_key("/b"));
    assert_eq!(cache.updated, 2);
}

#[test]
fn merging_twice_is_merging_once() {
    let mut found = StrMap::new();
    found.insert("/a/x".into(), dummy_meta("/a/x"));
    let first = merge_scan_into_cache(None, "/a", found, 1);
    assert_eq!(first.repos.len(), 1);
    let mut found = StrMap::new();
    found.insert("/a/x".into(), dummy_meta("/a/x"));
    let second = merge_scan_into_cache(Some(first), "/a", found, 2);
    assert_eq!(second.repos.len(), 1);
    assert_eq!(second.version, 1);
}

#[test]
fn only_known_versions_are_read() {
    assert!(load_cache(AnnexCache::default()).is_some());
    let mut cache = AnnexCache::default();
    cache.version = CACHE_VERSION;
    assert!(load_cache(cache).is_some());
    let mut cache = AnnexCache::default();
    cache.version = 2;
    assert!(load_cache(cache).is_none());
}

#[test]
fn cache_is_where_the_environment_says() {
    let s = |t: &str| Some(t.to_string());
    assert_eq!(cache_dir(&s("/x"), &s("/h")), "/x/git-annex-browser");
    assert_eq!(cache_dir(&s(""), &s("/h")), "/h/.cache/git-annex-browser");
    assert_eq!(cache_dir(&None, &None), "./.cache/git-annex-browser");
    assert_eq!(cache_path(&s("/c.json"), &None, &None), "/c.json");
    assert_eq!(
        cache_path(&s(""), &s("/x/"), &None),
        "/x/git-annex-browser/cache.json"
    );
}
