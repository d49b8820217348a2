use git_annex_browser::annex::{AnnexMetadata, AnnexedFile, Remote};
use git_annex_browser::app::{App, Command, Level};
use git_annex_browser::node::{TreeNode, UsageDirNode};
use git_annex_browser::snapshot::ViewSnapshot;
use git_annex_browser::table::{StrMap, StrSet};
use git_annex_browser::tree::Node;
use git_annex_browser::trust::TrustLevel;
use git_annex_browser::worker::{
    is_restorable, Save, Step, Worker, MAX_HYDRATE, SAVE_LOADED_AFTER, SAVE_SCAN_AFTER,
};
use std::rc::Rc;

const LONG: u128 = 60_000_000_000;

fn remote(uuid: &str) -> Remote {
    Remote {
        uuid: uuid.to_string(),
        description: uuid.to_string(),
        config: StrMap::new(),
        trust: TrustLevel::Trusted,
        last_fsck: None,
        present_count: 1,
        available_space: None,
        groups: vec![],
        wanted: None,
        required: None,
    }
}

fn meta(root: &str, files: &[&str]) -> AnnexMetadata {
    let mut remotes = StrMap::new();
    remotes.insert("me".to_string(), remote("me"));
    remotes.insert("usb".to_string(), remote("usb"));
    let mut here = StrSet::new();
    here.insert("me".to_string());
    let mut locations = StrMap::new();
    locations.insert("K-s10--k".to_string(), here);
    AnnexMetadata {
        root: root.to_string(),
        uuid: "me".to_string(),
        description: String::new(),
        version: None,
        numcopies: None,
        additional_configs: vec![],
        remotes,
        locations,
        files: files
            .iter()
            .map(|p| AnnexedFile {
                path: p.to_string(),
                key: "K-s10--k".to_string(),
                size: Some(10),
            })
            .collect(),
        total_keys: 1,
        unique_size: 0,
        consumed_size: 0,
    }
}

fn show(app: &App) -> ViewSnapshot {
    assert!(app.can_snapshot());
    app.snapshot(20, &StrSet::new(), &Vec::new())
}

fn rows(s: &ViewSnapshot) -> Vec<&str> {
    s.list.iter().map(|i| i.label.as_str()).collect()
}

fn loaded() -> App {
    let mut app = App::new("/data".to_string());
    app.ingest_meta(meta("/data/b", &["x/1.txt", "2.txt"]));
    app.ingest_meta(meta("/data/a", &[]));
    app
}

#[test]
fn an_empty_scan_shows_nothing() {
    let app = App::new("/data".to_string());
    assert_eq!(app.status, "scanning for git annex repos...");
    let s = show(&app);
    assert!(s.list.is_empty());
    assert_eq!(s.selected, 0);
    assert_eq!(s.details, vec!["no selection"]);
    assert_eq!(s.raw, None);
    assert_eq!(s.crumb, vec!["scan: /data"]);
    assert_eq!(s.total_repos, 0);
    assert!(!s.scanning);
}

#[test]
fn taken_in_repositories_are_listed_once() {
    let mut app = loaded();
    app.ingest_meta(meta("/data/b/", &["3.txt"]));
    let s = show(&app);
    assert_eq!(
        rows(&s),
        vec!["b — 1 files, 2 drives", "a — 0 files, 2 drives"]
    );
    assert_eq!(s.total_repos, 2);
    assert_eq!(app.preloaded.len(), 2);
    assert_eq!(app.preloaded.get("/data/b").unwrap().unique_size, 10);
    assert_eq!(s.list[0].repo_name.as_deref(), Some("b"));
    assert_eq!(s.repo_visuals.len(), 2);
    assert_eq!(s.visual.as_ref().unwrap().unique_size, 20);
    assert_eq!(s.visual.as_ref().unwrap().repos.len(), 2);
}

#[test]
fn selections_stay_within_the_list() {
    let mut app = loaded();
    app.execute(Command::Up, 5);
    assert_eq!(show(&app).selected, 0);
    app.execute(Command::Down, 5);
    app.execute(Command::Down, 5);
    assert_eq!(show(&app).selected, 1);
    app.execute(Command::Top, 5);
    assert_eq!(show(&app).selected, 0);
    app.execute(Command::PageDown, 0);
    assert_eq!(show(&app).selected, 1);
    app.execute(Command::PageDown, usize::MAX);
    assert_eq!(show(&app).selected, 1);
    app.execute(Command::PageUp, 5);
    assert_eq!(show(&app).selected, 0);
    app.execute(Command::Select(9), 5);
    assert_eq!(show(&app).selected, 1);
    app.execute(Command::Up, 5);
    app.execute(Command::Bottom, 5);
    assert_eq!(show(&app).selected, 1);
    for c in [
        Command::Nothing,
        Command::Quit,
        Command::ToggleHelp,
        Command::ToggleRaw,
    ] {
        app.execute(c, 5);
        assert_eq!(show(&app).selected, 1);
    }
}

#[test]
fn entering_and_going_back() {
    let mut app = loaded();
    app.execute(Command::Descend, 5);
    assert_eq!(app.status, "preloaded");
    let s = show(&app);
    assert_eq!(s.crumb, vec!["scan: /data", "b [me]"]);
    assert_eq!(
        rows(&s),
        vec![
            "drives / remotes (2)",
            "info / summary",
            "all annexed files (2)",
            "files on here (1)"
        ]
    );
    app.execute(Command::Descend, 5);
    assert_eq!(show(&app).crumb.len(), 3);
    app.execute(Command::Back, 5);
    app.execute(Command::Back, 5);
    app.execute(Command::Back, 5);
    assert_eq!(show(&app).crumb, vec!["scan: /data"]);
}

#[test]
fn files_on_a_drive_wait_for_the_listing() {
    let mut app = loaded();
    app.execute(Command::Descend, 5);
    app.execute(Command::Bottom, 5);
    assert_eq!(app.listing_wanted(), None);
    app.execute(Command::Descend, 5);
    assert_eq!(
        app.listing_wanted(),
        Some(("/data/b".to_string(), "here".to_string()))
    );
    app.install_listing(vec![AnnexedFile {
        path: "2.txt".to_string(),
        key: "K-s10--k".to_string(),
        size: Some(10),
    }]);
    assert_eq!(app.listing_wanted(), None);
    assert_eq!(rows(&show(&app)), vec!["2.txt (10 B) [here]"]);
    assert_eq!(app.live_query(), None);
}

#[test]
fn a_repository_that_is_not_loaded_is_loading() {
    let mut app = App::new("/data".to_string());
    app.set_discovered(&vec!["/data/z".to_string()]);
    assert_eq!(app.status, "found 1 annex repos (0 cached)");
    app.execute(Command::Descend, 5);
    assert_eq!(app.status, "loading /data/z ...");
    assert_eq!(show(&app).crumb[1], "/data/z (loading...)");
    app.install_loaded_repo(meta("/data/z", &[]));
    assert_eq!(app.status, "loaded");
    assert_eq!(show(&app).crumb, vec!["scan: /data", "z [me]"]);
}

#[test]
fn looking_again_goes_back_to_the_top() {
    let mut app = loaded();
    app.execute(Command::Down, 5);
    app.execute(Command::Descend, 5);
    app.execute(Command::Descend, 5);
    app.execute(Command::Refresh, 5);
    assert_eq!(app.status, "refreshing...");
    let s = show(&app);
    assert_eq!(s.crumb.len(), 1);
    assert_eq!(s.selected, 0);
}

#[test]
fn an_open_repository_is_renewed_in_place() {
    let mut app = loaded();
    app.execute(Command::Descend, 5);
    app.execute(Command::Select(2), 5);
    app.execute(Command::Descend, 5);
    app.execute(Command::Descend, 5);
    assert_eq!(show(&app).crumb[3], "x/");
    app.ingest_meta(meta("/data/b", &["x/1.txt", "x/0.txt", "2.txt"]));
    let s = show(&app);
    assert_eq!(s.crumb[2], "all annexed files (3)");
    assert_eq!(s.crumb[3], "x/");
    assert_eq!(
        rows(&s),
        vec!["x/0.txt (10 B) [here]", "x/1.txt (10 B) [here]"]
    );
    app.ingest_meta(meta("/data/b", &[]));
    let s = show(&app);
    assert_eq!(s.crumb[2], "files on here (1)");
    assert_eq!(s.crumb.len(), 3);
    assert_eq!(app.replay, vec![0]);
    assert!(app.listing_wanted().is_some());
    app.install_listing(vec![]);
    assert_eq!(show(&app).crumb.len(), 4);
    assert_eq!(show(&app).crumb[3], "<unused key> K-s10--k (10 B) [here]");
    assert!(app.replay.is_empty());
}

#[test]
fn files_without_records_are_asked_about() {
    let mut app = App::new("/data".to_string());
    let mut m = meta("/data/b", &["1.txt"]);
    m.files[0].key = "unknown".to_string();
    app.ingest_meta(m);
    app.execute(Command::Descend, 5);
    app.execute(Command::Select(2), 5);
    app.execute(Command::Descend, 5);
    assert_eq!(
        app.live_query(),
        Some(("/data/b".to_string(), "unknown".to_string()))
    );
    let mut live = StrSet::new();
    live.insert("usb".to_string());
    let s = app.snapshot(20, &live, &Vec::new());
    assert_eq!(
        s.details,
        vec![
            "path: 1.txt",
            "key: unknown",
            "size: 10 B",
            "present on 1 locations:",
            "  usb T"
        ]
    );
}

#[test]
fn usage_of_drives_is_passed_on() {
    let app = loaded();
    let usage = vec![("usb".to_string(), 7u64, 2usize, 1usize)];
    let s = app.snapshot(20, &StrSet::new(), &usage);
    assert_eq!(s.visual.unwrap().remotes, vec![("usb".to_string(), 7)]);
}

#[test]
fn totals_that_cannot_be_counted_are_told() {
    let mut app = loaded();
    assert!(app.can_snapshot());
    app.summaries[0].unique_size = u64::MAX;
    assert!(!app.can_snapshot());
}

#[test]
fn stored_repositories_are_shown_first() {
    let mut repos = StrMap::new();
    repos.insert("/data/b".to_string(), meta("/data/b", &["1"]));
    repos.insert("/other/c".to_string(), meta("/other/c", &["1"]));
    let mut w = Worker::new("/data".to_string());
    assert!(is_restorable(&repos, "/data"));
    w.restore(&repos);
    assert_eq!(w.app.status, "loaded 1 from cache — discovering…");
    assert!(w.app.scanning);
    assert_eq!(rows(&show(&w.app)), vec!["b — 1 files, 2 drives"]);
}

#[test]
fn a_scan_from_beginning_to_end() {
    let mut repos = StrMap::new();
    repos.insert("/data/b".to_string(), meta("/data/b", &["1"]));
    repos.insert("/data/gone".to_string(), meta("/data/gone", &["1"]));
    let mut w = Worker::new("/data".to_string());
    w.restore(&repos);
    let found: Vec<String> = ["/data/a", "/data/b", "/data/c"]
        .iter()
        .map(|p| p.to_string())
        .collect();
    w.take_discovered(&found);
    assert_eq!(w.hydrate_total, 3);
    assert_eq!(w.app.to_hydrate, vec!["/data/b", "/data/a", "/data/c"]);
    assert_eq!(w.app.status, "scanning 0/3…");
    assert_eq!(
        rows(&show(&w.app)),
        vec![
            "b — 1 files, 2 drives",
            "a — 0 files, 0 drives",
            "c — 0 files, 0 drives"
        ]
    );
    let (start, save) = w.idle(LONG);
    assert_eq!(start, vec!["/data/c", "/data/a"]);
    assert!(!save);
    assert_eq!(w.in_flight, MAX_HYDRATE);
    assert_eq!(w.idle(LONG).0.len(), 0);
    assert_eq!(w.take_loaded(meta("/data/c", &["2"]), 0), Save::Later);
    assert!(w.dirty);
    assert_eq!(w.app.status, "scanning 1/3…");
    w.take_failed("/data/a", "no luck");
    assert_eq!(w.app.status, "failed /data/a: no luck");
    assert_eq!(w.idle(0).0, vec!["/data/b"]);
    assert_eq!(w.take_loaded(meta("/data/b", &["3"]), 0), Save::Scan);
    assert_eq!(w.app.status, "2 repos • cache updated");
    assert!(!w.app.scanning);
    assert!(!w.dirty);
    assert_eq!(w.persist_preloaded().len(), 2);
    assert_eq!(w.persist_scan().len(), 2);
    assert!(w.persist_scan().contains_key("/data/c"));
}

#[test]
fn what_is_loaded_is_stored_now_and_then() {
    let mut w = Worker::new("/data".to_string());
    w.take_discovered(&vec!["/data/a".to_string(), "/data/b".to_string()]);
    w.idle(0);
    assert_eq!(w.take_loaded(meta("/data/a", &[]), LONG), Save::Loaded);
    assert!(!w.dirty);
}

#[test]
fn looking_again_queues_everything() {
    let mut w = Worker::new("/data".to_string());
    w.take_discovered(&vec!["/data/a".to_string()]);
    w.idle(0);
    w.take_loaded(meta("/data/a", &[]), 0);
    w.app.execute(Command::Descend, 5);
    w.app.execute(Command::Refresh, 5);
    w.take_rediscovered(&vec!["/data/a".to_string(), "/data/b".to_string()]);
    assert_eq!(w.app.to_hydrate, vec!["/data/a", "/data/b"]);
    assert_eq!(w.hydrate_total, 2);
    assert!(w.dirty);
    assert_eq!(w.app.stack.len(), 1);
    assert_eq!(w.app.status, "scanning 0/2…");
    w.app.to_hydrate.clear();
    let (_, save) = w.idle(LONG);
    assert!(save);
    assert_eq!(w.app.status, "1 repos • cache updated");
}

#[test]
fn loading_on_demand() {
    let mut w = Worker::new("/data".to_string());
    w.take_discovered(&vec!["/data/a".to_string()]);
    assert!(matches!(w.next_step(), Step::Answer));
    let step = w.take_command(Command::Descend, 5);
    assert!(matches!(step, Step::Load(p) if p == "/data/a"));
    w.take_not_installed("no luck");
    assert_eq!(w.app.status, "load failed: no luck");
    assert_eq!(w.app.stack.len(), 1);
    assert!(matches!(w.next_step(), Step::Answer));
    assert!(matches!(w.take_command(Command::Descend, 5), Step::Load(_)));
    w.take_installed(meta("/data/a", &[]));
    assert_eq!(w.app.stack.len(), 2);
    assert_eq!(w.app.stack[1].node.kind(), "repo");
    assert!(matches!(w.next_step(), Step::Answer));
}

#[test]
fn each_command_is_answered_once() {
    let mut w = Worker::new("/data".to_string());
    w.take_discovered(&vec!["/data/a".to_string()]);
    assert!(matches!(w.take_command(Command::Down, 5), Step::Answer));
    assert!(matches!(w.take_command(Command::Refresh, 5), Step::Look));
    w.take_rediscovered(&vec!["/data/a".to_string()]);
    assert!(matches!(w.next_step(), Step::Answer));
    let before = w.app.status.clone();
    assert!(matches!(w.take_command(Command::Quit, 5), Step::End));
    assert_eq!(w.app.status, before);
}

#[test]
fn storing_waits_a_while() {
    let scan = || {
        let mut w = Worker::new("/data".to_string());
        w.take_discovered(&vec!["/data/a".to_string(), "/data/b".to_string()]);
        w.idle(0);
        w
    };
    let mut w = scan();
    assert_eq!(
        w.take_loaded(meta("/data/a", &[]), SAVE_LOADED_AFTER),
        Save::Later
    );
    let mut w = scan();
    assert_eq!(
        w.take_loaded(meta("/data/a", &[]), SAVE_LOADED_AFTER + 1),
        Save::Loaded
    );
    w.take_loaded(meta("/data/b", &[]), 0);
    w.dirty = true;
    assert!(!w.idle(SAVE_SCAN_AFTER).1);
    assert!(w.idle(SAVE_SCAN_AFTER + 1).1);
    assert!(!w.dirty);
}

#[test]
fn the_way_up_leads_back() {
    let mut app = loaded();
    app.execute(Command::Descend, 5);
    let m = app.preloaded.get("/data/b").unwrap().clone();
    app.stack.push(Level {
        node: Rc::new(TreeNode::UsageDir(UsageDirNode::root(m))),
        selected: 0,
    });
    assert_eq!(show(&app).list[0].label, "..");
    app.execute(Command::Select(2), 5);
    app.execute(Command::Descend, 5);
    let s = show(&app);
    assert_eq!(s.crumb.len(), 4);
    assert_eq!(s.crumb[3], "x/");
    assert_eq!(s.selected, 1);
    assert_eq!(s.list[1].label, "1.txt");
    app.execute(Command::Top, 5);
    app.execute(Command::Descend, 5);
    let s = show(&app);
    assert_eq!(s.crumb.len(), 3);
    assert_eq!(s.selected, 2);
}

#[test]
fn a_loaded_repository_goes_above_what_is_shown() {
    let mut app = loaded();
    app.install_loaded_repo(meta("/data/c", &[]));
    assert_eq!(app.status, "loaded");
    assert_eq!(show(&app).crumb, vec!["scan: /data", "c [me]"]);
    app.execute(Command::Descend, 5);
    app.install_loaded_repo(meta("/data/d", &[]));
    let s = show(&app);
    assert_eq!(s.crumb.len(), 4);
    assert_eq!(s.crumb[1], "c [me]");
    assert_eq!(s.crumb[3], "d [me]");
    assert_eq!(s.selected, 0);
    assert!(app.preloaded.get("/data/d").is_some());
    app.execute(Command::Back, 5);
    assert_eq!(show(&app).crumb.len(), 3);
}

#[test]
fn a_loaded_repository_waits_for_its_own_levels() {
    let file = || AnnexedFile {
        path: "2.txt".to_string(),
        key: "K-s10--k".to_string(),
        size: Some(10),
    };
    let mut app = loaded();
    app.execute(Command::Descend, 5);
    app.execute(Command::Bottom, 5);
    app.execute(Command::Descend, 5);
    app.install_listing(vec![file()]);
    app.execute(Command::Descend, 5);
    assert_eq!(show(&app).crumb.len(), 4);
    app.install_loaded_repo(meta("/data/b", &["2.txt"]));
    assert_eq!(app.held.len(), 1);
    assert!(app.listing_wanted().is_some());
    app.install_listing(vec![file()]);
    assert!(app.held.is_empty());
    let s = show(&app);
    assert_eq!(
        s.crumb,
        vec![
            "scan: /data",
            "b [me]",
            "files on here (1)",
            "2.txt (10 B) [here]",
            "b [me]"
        ]
    );
}
