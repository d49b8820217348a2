use git_annex_browser::annex::{AnnexMetadata, RemoteUsage, RepoSummary};
use git_annex_browser::app::Command;
use git_annex_browser::layout::{
    bar_budget, breadcrumb, copy_mini, detail_bar_widths, detail_rows, detail_scroll_rows,
    detail_title, details_text, fit_copies, health_color, largest_remote_of, largest_repo_of,
    largest_shared_of, list_rows, list_title, page_rows, remote_row, repo_row, report_bar_width,
    report_rows, report_title, selected_kind, selected_repo_visual, selected_visible, status_row,
    trunc_name, visual_for, CopyFill, RowFill, Segment, VisualKind,
};
use git_annex_browser::report::{dump_rows, dump_totals, progress_row};
use git_annex_browser::snapshot::{ListItem, ViewSnapshot};
use git_annex_browser::table::StrMap;
use git_annex_browser::trust::TrustLevel;
use git_annex_browser::ui::{
    apply_nav, map_key, visible_indices, KeyCode, KeyEvent, Ui, UiAction,
};
use git_annex_browser::util::Color;
use git_annex_browser::visual::{
    copy_health_kind, VisualRemoteKind, VisualRepo, VisualRepoDetail, VisualReport,
};
use git_annex_browser::worker::WorkerOut;

fn item(label: &str, kind: &str) -> ListItem {
    ListItem {
        label: label.to_string(),
        kind: kind.to_string(),
        anomalous: false,
        trust: None,
        repo_name: None,
    }
}

fn summary(name: &str, size: u64) -> RepoSummary {
    let mut s = RepoSummary::bare(&format!("/data/{name}"));
    s.uuid = "me".to_string();
    s.unique_size = size;
    s.consumed_size = 2 * size;
    s
}

fn snapshot(list: Vec<ListItem>) -> ViewSnapshot {
    let summaries = vec![summary("a", 10), summary("b", 20)];
    ViewSnapshot {
        crumb: vec!["scan: /data".to_string(), "b".to_string()],
        list,
        selected: 0,
        details: vec!["one".to_string(), "two".to_string(), "three".to_string()],
        raw: None,
        visual: Some(VisualReport::from_summaries(&summaries, &Vec::new())),
        repo_visuals: summaries.iter().map(VisualRepoDetail::from_summary).collect(),
        status: "ready".to_string(),
        total_repos: 2,
        scanning: false,
    }
}

fn three() -> Vec<ListItem> {
    vec![
        item("Apple", "repo"),
        item("banana", "file"),
        item("cherry APPLE", "file"),
    ]
}

fn key(code: KeyCode) -> KeyEvent {
    KeyEvent {
        code,
        control: false,
        shift: false,
        pressed: true,
    }
}

fn text(row: &Vec<Segment>) -> String {
    row.iter().map(|s| s.text.as_str()).collect()
}

#[test]
fn keys_have_commands() {
    for (code, cmd) in [
        (KeyCode::Char('q'), Command::Quit),
        (KeyCode::Esc, Command::Quit),
        (KeyCode::Up, Command::Up),
        (KeyCode::Char('k'), Command::Up),
        (KeyCode::Down, Command::Down),
        (KeyCode::Char('j'), Command::Down),
        (KeyCode::PageUp, Command::PageUp),
        (KeyCode::PageDown, Command::PageDown),
        (KeyCode::Char('g'), Command::Top),
        (KeyCode::Char('G'), Command::Bottom),
        (KeyCode::Right, Command::Descend),
        (KeyCode::Enter, Command::Descend),
        (KeyCode::Char('l'), Command::Descend),
        (KeyCode::Left, Command::Back),
        (KeyCode::Backspace, Command::Back),
        (KeyCode::Char('h'), Command::Back),
        (KeyCode::Char('r'), Command::Refresh),
        (KeyCode::F(5), Command::Refresh),
        (KeyCode::Char('?'), Command::ToggleHelp),
        (KeyCode::F(1), Command::ToggleHelp),
        (KeyCode::Char('x'), Command::ToggleRaw),
        (KeyCode::Char('y'), Command::Nothing),
        (KeyCode::F(2), Command::Nothing),
        (KeyCode::Other, Command::Nothing),
    ] {
        assert_eq!(map_key(key(code)), cmd);
    }
}

#[test]
fn filters_ignore_case() {
    let list = three();
    assert_eq!(visible_indices(&list, ""), vec![0, 1, 2]);
    assert_eq!(visible_indices(&list, "aPPle"), vec![0, 2]);
    assert_eq!(visible_indices(&list, "FILE"), vec![1, 2]);
    assert!(visible_indices(&list, "plum").is_empty());
    assert_eq!(visible_indices(&vec![item("ÄPFEL", "x")], "äpf"), vec![0]);
}

#[test]
fn selections_move_among_visible_rows() {
    let mut s = snapshot(three());
    apply_nav(&mut s, Command::Down, 5, "apple");
    assert_eq!(s.selected, 2);
    apply_nav(&mut s, Command::Down, 5, "apple");
    assert_eq!(s.selected, 2);
    apply_nav(&mut s, Command::Up, 5, "apple");
    assert_eq!(s.selected, 0);
    apply_nav(&mut s, Command::Bottom, 5, "");
    assert_eq!(s.selected, 2);
    apply_nav(&mut s, Command::PageUp, 1, "");
    assert_eq!(s.selected, 1);
    apply_nav(&mut s, Command::PageDown, usize::MAX, "");
    assert_eq!(s.selected, 2);
    apply_nav(&mut s, Command::Top, 5, "");
    assert_eq!(s.selected, 0);
    apply_nav(&mut s, Command::Down, 5, "plum");
    assert_eq!(s.selected, 0);
    s.selected = 1;
    apply_nav(&mut s, Command::Nothing, 5, "apple");
    assert_eq!(s.selected, 0);
}

#[test]
fn snapshots_come_in() {
    let mut ui = Ui::new();
    ui.on_message(WorkerOut::Background(snapshot(three())));
    assert!(ui.snapshot.is_some());
    ui.detail_scroll = 2;
    ui.on_message(WorkerOut::Background(snapshot(vec![])));
    assert_eq!(ui.detail_scroll, 2);
    let mut other = snapshot(three());
    other.selected = 1;
    ui.pending = 1;
    ui.on_message(WorkerOut::Background(snapshot(three())));
    assert_eq!(ui.snapshot.as_ref().unwrap().list.len(), 0);
    ui.on_message(WorkerOut::Nav(other));
    assert_eq!(ui.pending, 0);
    assert_eq!(ui.detail_scroll, 0);
    assert_eq!(ui.snapshot.as_ref().unwrap().selected, 1);
    ui.on_message(WorkerOut::Nav(snapshot(three())));
    assert_eq!(ui.pending, 0);
}

#[test]
fn keys_do_what_they_say() {
    let mut ui = Ui::new();
    ui.on_message(WorkerOut::Background(snapshot(three())));
    assert_eq!(
        ui.on_key(key(KeyCode::Down), 0),
        UiAction::Send(Command::Down, 0)
    );
    assert_eq!(ui.pending, 1);
    assert_eq!(ui.snapshot.as_ref().unwrap().selected, 1);
    let mut up = key(KeyCode::Down);
    up.pressed = false;
    assert_eq!(ui.on_key(up, 5), UiAction::Stay);
    let mut quit = key(KeyCode::Char('c'));
    quit.control = true;
    quit.pressed = false;
    assert_eq!(ui.on_key(quit, 5), UiAction::Quit);
    assert_eq!(ui.on_key(key(KeyCode::Char('q')), 5), UiAction::Quit);
    assert_eq!(ui.on_key(key(KeyCode::Char('?')), 5), UiAction::Stay);
    assert!(ui.show_help);
    assert_eq!(ui.on_key(key(KeyCode::Char('x')), 5), UiAction::Stay);
    assert!(!ui.show_help);
    assert!(!ui.show_raw);
    assert_eq!(ui.on_key(key(KeyCode::Char('x')), 5), UiAction::Stay);
    assert!(ui.show_raw);
    assert_eq!(ui.on_key(key(KeyCode::Char('y')), 5), UiAction::Stay);
    assert_eq!(
        ui.on_key(key(KeyCode::Enter), 7),
        UiAction::Send(Command::Descend, 7)
    );
    assert_eq!(ui.pending, 2);
}

#[test]
fn dashboards_take_the_whole_screen() {
    let mut list = three();
    list[0].repo_name = Some("b".to_string());
    list.push(item("all", "report"));
    let mut ui = Ui::new();
    assert_eq!(ui.on_key(key(KeyCode::Char('z')), 5), UiAction::Stay);
    assert!(!ui.zoom);
    ui.on_message(WorkerOut::Background(snapshot(list)));
    assert_eq!(ui.on_key(key(KeyCode::Char('z')), 5), UiAction::Stay);
    assert!(ui.zoom && ui.is_zoomed());
    assert_eq!(ui.on_key(key(KeyCode::Char('z')), 5), UiAction::Stay);
    assert!(!ui.zoom);
    ui.on_key(key(KeyCode::Char('z')), 5);
    assert_eq!(ui.on_key(key(KeyCode::Char('h')), 5), UiAction::Stay);
    assert!(!ui.zoom);
    assert_eq!(
        ui.on_key(key(KeyCode::Char('h')), 5),
        UiAction::Send(Command::Back, 5)
    );
    ui.on_key(key(KeyCode::Char('z')), 5);
    ui.snapshot.as_mut().unwrap().selected = 1;
    assert!(ui.zoom && !ui.is_zoomed());
    assert_eq!(
        ui.on_key(key(KeyCode::Left), 5),
        UiAction::Send(Command::Back, 5)
    );
    assert!(!ui.zoom);
    ui.on_key(key(KeyCode::Char('z')), 5);
    assert!(!ui.zoom);
    ui.snapshot.as_mut().unwrap().selected = 3;
    assert_eq!(ui.on_key(key(KeyCode::Enter), 5), UiAction::Stay);
    assert!(ui.is_zoomed());
}

#[test]
fn filters_are_written() {
    let mut ui = Ui::new();
    ui.on_message(WorkerOut::Background(snapshot(three())));
    ui.on_key(key(KeyCode::Char('/')), 5);
    assert!(ui.filter_editing);
    for c in "aqp".chars() {
        assert_eq!(ui.on_key(key(KeyCode::Char(c)), 5), UiAction::Stay);
    }
    ui.on_key(key(KeyCode::Backspace), 5);
    assert_eq!(ui.filter, "aq");
    let mut clear = key(KeyCode::Char('u'));
    clear.control = true;
    ui.on_key(clear, 5);
    assert_eq!(ui.filter, "");
    ui.on_key(key(KeyCode::Backspace), 5);
    for c in "apple".chars() {
        ui.on_key(key(KeyCode::Char(c)), 5);
    }
    let mut control = key(KeyCode::Char('z'));
    control.control = true;
    ui.on_key(control, 5);
    ui.on_key(key(KeyCode::Enter), 5);
    assert!(!ui.filter_editing);
    assert_eq!(ui.filter, "apple");
    assert_eq!(
        ui.on_key(key(KeyCode::Down), 5),
        UiAction::Send(Command::Select(2), 5)
    );
    assert_eq!(
        ui.on_key(key(KeyCode::Left), 5),
        UiAction::Send(Command::Back, 5)
    );
    assert_eq!(ui.filter, "");
    ui.on_key(key(KeyCode::Char('/')), 5);
    ui.on_key(key(KeyCode::Char('z')), 5);
    ui.on_key(key(KeyCode::Esc), 5);
    assert_eq!(ui.filter, "");
    assert!(!ui.filter_editing);
}

#[test]
fn details_are_scrolled() {
    let mut ui = Ui::new();
    ui.on_message(WorkerOut::Background(snapshot(three())));
    let mut down = key(KeyCode::PageDown);
    down.shift = true;
    assert_eq!(ui.on_key(down, 1), UiAction::Stay);
    assert_eq!(ui.detail_scroll, 1);
    ui.on_key(down, 0);
    ui.on_key(down, 1);
    assert_eq!(ui.detail_scroll, 2);
    let mut up = key(KeyCode::PageUp);
    up.shift = true;
    ui.on_key(up, 1);
    assert_eq!(ui.detail_scroll, 1);
    ui.on_key(up, 9);
    assert_eq!(ui.detail_scroll, 0);
    ui.on_key(down, 9);
    assert_eq!(ui.detail_scroll, 0);
}

#[test]
fn copies_have_a_health() {
    assert_eq!(copy_health_kind(0, 0), "unknown");
    assert_eq!(copy_health_kind(10, 0), "ok");
    assert_eq!(copy_health_kind(10, 4), "mixed");
    assert_eq!(copy_health_kind(10, 5), "poor");
    assert_eq!(copy_health_kind(usize::MAX, usize::MAX), "poor");
    assert_eq!(health_color("ok"), Color::Green);
    assert_eq!(health_color("mixed"), Color::Yellow);
    assert_eq!(health_color("poor"), Color::Red);
    assert_eq!(health_color("unknown"), Color::DarkGray);
}

#[test]
fn reports_show_the_largest_first() {
    let mut list = vec![summary("a", 10), summary("c", 20), summary("b", 20)];
    list[0].numcopies = Some(0);
    list[1].numcopies = Some(3);
    let usage = vec![("usb".to_string(), 5u64, 1usize, 1usize)];
    let r = VisualReport::from_summaries(&list, &usage);
    let names: Vec<&str> = r.repos.iter().map(|x| x.name.as_str()).collect();
    assert_eq!(names, ["b", "c", "a"]);
    assert_eq!((r.unique_size, r.consumed_size), (50, 100));
    assert_eq!(r.repos[1].numcopies, 3);
    assert_eq!(r.repos[2].numcopies, 1);
    assert_eq!(r.remotes, vec![("usb".to_string(), 5)]);
    assert_eq!(largest_repo_of(&r.repos), 20);
    assert_eq!(largest_shared_of(&r.remotes), 5);
}

fn used() -> RepoSummary {
    let usage = |uuid: &str, name: &str, size: u64, count: usize, transfer: bool| RemoteUsage {
        uuid: uuid.to_string(),
        name: name.to_string(),
        present_size: size,
        present_count: count,
        transfer,
    };
    let mut s = summary("a", 10);
    s.remote_usage = vec![
        usage("me", "here", 5, 1, true),
        usage("s3", "cloud", 9, 2, true),
        usage("e", "empty", 0, 0, false),
        usage("usb", "stick", 5, 0, false),
    ];
    s.keys_tracked = 4;
    s.keys_under = 1;
    s.keys_ok = 2;
    s.keys_over = 1;
    s
}

#[test]
fn dashboards_of_repositories_show_their_drives() {
    let v = VisualRepoDetail::from_summary(&used());
    let rows: Vec<(&str, VisualRemoteKind)> = v
        .remotes
        .iter()
        .map(|r| (r.name.as_str(), r.kind))
        .collect();
    assert_eq!(
        rows,
        [
            ("cloud", VisualRemoteKind::Special),
            ("here", VisualRemoteKind::Here),
            ("stick", VisualRemoteKind::Other),
        ]
    );
    assert_eq!(v.health_kind(), "mixed");
    assert_eq!(largest_remote_of(&v.remotes), 9);
    assert_eq!(detail_bar_widths(60), (15, 16));
    let f = CopyFill {
        under: 4,
        ok: 8,
        over: 4,
    };
    let lines = detail_rows(&v, 60, f, &vec![15, 8, 8]);
    assert_eq!(lines.len(), 8);
    assert_eq!(text(&lines[0]), "unique 10 B   stored 20 B   numcopies 1");
    assert_eq!(text(&lines[1]), "copy health  mixed   ");
    assert_eq!(
        text(&lines[2]),
        "             ████████████████  ↓1  ✓2  ↑1"
    );
    assert_eq!(text(&lines[3]), "");
    assert_eq!(text(&lines[4]), "on remotes / drives");
    assert_eq!(
        text(&lines[5]),
        "cloud                ███████████████       9 B 2 keys"
    );
    assert_eq!(lines[6][0].color, Color::Green);
    let mut bare = used();
    bare.remote_usage = vec![];
    let v = VisualRepoDetail::from_summary(&bare);
    let lines = detail_rows(&v, 60, f, &vec![]);
    assert_eq!(text(&lines[5]), "  no location data yet");
    assert_eq!(detail_title("a", true, true), " a  (updating)  z=zoom ");
    assert_eq!(detail_title("a", false, true), " a  z/h=back to list ");
    assert_eq!(detail_title("a", false, false), " a  z=full screen ");
}

#[test]
fn names_fill_their_column() {
    assert_eq!(trunc_name("abc", 5), "abc  ");
    assert_eq!(trunc_name("abcde", 5), "abcde");
    assert_eq!(trunc_name("abcdef", 5), "abcd…");
    assert_eq!(trunc_name("äöüß", 3), "äö…");
    assert_eq!(trunc_name("abc", 0), "…");
    assert_eq!(trunc_name("", 2), "  ");
}

#[test]
fn bars_have_their_budget() {
    assert_eq!(bar_budget(100, 24), (35, true));
    assert_eq!(bar_budget(87, 21), (41, false));
    assert_eq!(bar_budget(24, 14), (8, false));
    assert_eq!(bar_budget(300, 24), (64, true));
    assert_eq!(bar_budget(0, usize::MAX), (8, false));
    assert_eq!(report_bar_width(100), 35);
    assert_eq!(page_rows(Some(30)), 26);
    assert_eq!(page_rows(Some(3)), 0);
    assert_eq!(page_rows(None), 20);
}

fn by_steps(f: CopyFill, width: usize) -> CopyFill {
    let (mut under, mut ok, mut over) = (f.under, f.ok, f.over);
    while under + ok + over > width {
        if over > 0 {
            over -= 1;
        } else if ok > 0 {
            ok -= 1;
        } else {
            under -= 1;
        }
    }
    while under + ok + over < width {
        ok += 1;
    }
    CopyFill { under, ok, over }
}

#[test]
fn copies_fill_the_width() {
    for width in 0..6 {
        for under in 0..7 {
            for ok in 0..7 {
                for over in 0..7 {
                    let f = CopyFill { under, ok, over };
                    let g = fit_copies(f, width);
                    assert_eq!(g, by_steps(f, width));
                    assert_eq!(g.under + g.ok + g.over, width);
                }
            }
        }
    }
    let f = CopyFill {
        under: 1,
        ok: 0,
        over: 1,
    };
    let bar = copy_mini(3, f, 3);
    let colors: Vec<Color> = bar.iter().map(|s| s.color).collect();
    assert_eq!(colors, [Color::Red, Color::Green, Color::Cyan]);
    assert_eq!(text(&copy_mini(0, f, 3)), "░░░");
    assert_eq!(text(&copy_mini(3, f, 0)), "");
}

#[test]
fn rows_of_the_report() {
    let repo = |keys: usize| VisualRepo {
        name: "photos".to_string(),
        unique_size: 2048,
        numcopies: 2,
        keys_tracked: keys,
        keys_under: 0,
        keys_ok: keys,
        keys_over: 0,
    };
    let f = CopyFill {
        under: 0,
        ok: 8,
        over: 0,
    };
    let row = repo_row(&repo(3), 2, f, 8, 4, true);
    assert_eq!(text(&row), "photos   ██░░   2.0 KiB n=2 ████████ ↓0 ✓3 ↑0");
    assert_eq!(row[2].color, Color::Green);
    assert_eq!(
        text(&repo_row(&repo(3), 9, f, 8, 4, false)),
        "photos   ████   2.0 KiB n=2 ████████"
    );
    assert_eq!(
        text(&repo_row(&repo(0), 0, f, 8, 4, true)),
        "photos   ░░░░   2.0 KiB n=2 ░░░░░░░░ pending"
    );
    assert_eq!(
        text(&remote_row("usb", 5, None, 1, 4, 2, Color::Magenta)),
        "usb  █░       5 B"
    );
}

#[test]
fn the_report_is_laid_out() {
    let list = vec![summary("a", 10), summary("b", 20)];
    let usage = vec![("usb".to_string(), 5u64, 1usize, 1usize)];
    let fill = RowFill {
        filled: 8,
        copies: CopyFill {
            under: 0,
            ok: 0,
            over: 0,
        },
    };
    let r = VisualReport::from_summaries(&list, &usage);
    let lines = report_rows(&r, 40, &vec![fill, fill], &vec![8]);
    assert_eq!(lines.len(), 9);
    assert_eq!(text(&lines[0]), "unique 30 B   stored 60 B   2 repos");
    assert_eq!(
        text(&lines[1]),
        "↓under ✓ok ↑extra bar color = copy health vs numcopies"
    );
    assert_eq!(text(&lines[3]), "data by repo");
    assert!(text(&lines[4]).starts_with("b              ████████"));
    assert_eq!(text(&lines[7]), "special remotes");
    assert!(text(&lines[8]).starts_with("usb              ████████"));
    let r = VisualReport::from_summaries(&list, &vec![]);
    assert_eq!(report_rows(&r, 40, &vec![fill, fill], &vec![]).len(), 6);
    assert_eq!(
        report_title(true, false),
        " visual report (updating)  z=zoom "
    );
    assert_eq!(
        report_title(false, true),
        " visual report  z/h=back to list "
    );
    assert_eq!(
        report_title(false, false),
        " visual report  z=full screen "
    );
}

#[test]
fn the_list_is_laid_out() {
    let mut list = three();
    list[1].anomalous = true;
    list[2].trust = Some(TrustLevel::Dead);
    let s = snapshot(list);
    let rows = list_rows(&s, "");
    assert_eq!(text(&rows[0]), "▶ [repo] Apple");
    assert_eq!(text(&rows[1]), "  [file] banana");
    assert_eq!(rows[0][1].color, Color::Magenta);
    assert_eq!((rows[1][2].color, rows[1][2].bold), (Color::Red, true));
    assert_eq!(rows[2][2].color, Color::DarkGray);
    assert_eq!(list_rows(&s, "banana").len(), 1);
    assert_eq!(selected_visible(&s, "apple"), Some(0));
    assert_eq!(selected_visible(&s, "banana"), None);
    assert_eq!(list_title(&s), " git-annex-browser (2) ");
    assert_eq!(breadcrumb(&s), "scan: /data  ▸  b");
}

#[test]
fn the_status_is_laid_out() {
    let s = snapshot(three());
    let tail = "  •  2 repos  •  / filter  z zoom  ↑↓ nav  → descend  ← back  r refresh  q quit";
    assert_eq!(
        status_row(&s, false, "", false, false),
        format!("ready{tail}")
    );
    assert_eq!(
        status_row(&s, true, "x", true, true),
        format!("ready [busy]  filter: x_{tail}  [zoomed]")
    );
    assert_eq!(
        status_row(&s, false, "x", false, false),
        format!("ready  filter: x{tail}")
    );
}

#[test]
fn the_details_follow_the_selection() {
    let mut list = three();
    list[0].repo_name = Some("b".to_string());
    list.push(item("all", "report"));
    let mut s = snapshot(list);
    assert_eq!(selected_kind(&s), "repo");
    assert_eq!(selected_repo_visual(&s).unwrap().unique_size, 20);
    assert_eq!(visual_for(&s), VisualKind::Repo);
    assert_eq!(detail_scroll_rows(&s), 7);
    s.selected = 1;
    assert_eq!(visual_for(&s), VisualKind::Plain);
    assert_eq!(detail_scroll_rows(&s), 3);
    s.selected = 3;
    assert_eq!(visual_for(&s), VisualKind::Global);
    assert_eq!(detail_scroll_rows(&s), 6);
    s.selected = 9;
    assert_eq!(selected_kind(&s), "");
    assert!(selected_repo_visual(&s).is_none());
    assert_eq!(visual_for(&s), VisualKind::Plain);
    let (content, title) = details_text(&s, false);
    assert_eq!((content.as_str(), title), ("one\ntwo\nthree", " details "));
    let (content, title) = details_text(&s, true);
    assert_eq!(content, "no raw data for selection");
    assert_eq!(title, " details (raw) ");
    s.raw = Some("raw".to_string());
    assert_eq!(details_text(&s, true).0, "raw");
}

#[test]
fn progress_is_shown() {
    assert_eq!(
        progress_row(&"/data/photos".to_string(), 1, 3),
        format!("\r[{}{}] 1/3 (33%) photos", "=".repeat(9), " ".repeat(21))
    );
    assert_eq!(
        progress_row(&"/".to_string(), 3, 3),
        format!("\r[{}] 3/3 (100%) /", "=".repeat(30))
    );
    let long = format!("/{}{}", "x".repeat(10), "y".repeat(37));
    assert!(progress_row(&long, 1, 1).ends_with(&format!("(100%) ...{}", "y".repeat(37))));
    assert!(progress_row(&format!("/{}", "z".repeat(40)), 0, 0).ends_with(&"z".repeat(40)));
}

#[test]
fn the_dump_tells_everything() {
    let mut remotes = StrMap::new();
    let mut config = StrMap::new();
    config.insert("name".to_string(), "stick".to_string());
    config.insert("type".to_string(), "directory".to_string());
    let drive = |uuid: &str, config: StrMap<String>| git_annex_browser::annex::Remote {
        uuid: uuid.to_string(),
        description: uuid.to_string(),
        config,
        trust: TrustLevel::UnTrusted,
        last_fsck: None,
        present_count: 3,
        available_space: None,
        groups: vec![],
        wanted: None,
        required: None,
    };
    remotes.insert("me".to_string(), drive("me", StrMap::new()));
    let mut usb = drive("usb", config);
    usb.last_fsck = Some(1317929189);
    usb.available_space = Some(2048);
    remotes.insert("usb".to_string(), usb);
    let meta = AnnexMetadata {
        root: "/data/photos".to_string(),
        uuid: "me".to_string(),
        description: "laptop".to_string(),
        version: None,
        numcopies: None,
        additional_configs: vec![],
        remotes,
        locations: StrMap::new(),
        files: vec![],
        total_keys: 5,
        unique_size: 1024,
        consumed_size: 2048,
    };
    let mut repos = vec![("/data/photos".to_string(), meta)];
    assert_eq!(dump_totals(&repos), Some((1024, 2048, 0)));
    assert_eq!(
        dump_rows(&repos),
        vec![
            "REPORT:",
            "  total unique data (1 copy per file): 1.0 KiB",
            "  total storage across all drives (with copies): 2.0 KiB",
            "  total working tree files: 0",
            "",
            "=== photos (laptop) ===",
            "  path: /data/photos",
            "  uuid: me",
            "  files in tree: 0, keys: 5",
            "  unique size (1 copy): 1.0 KiB",
            "  consumed across drives: 2.0 KiB",
            "  remotes/drives:",
            "    - stick (directory) trust=untrusted present=3 keys fsck=2011-10-06 19:26 2.0 KiB free",
            "    - me (repo) [HERE] trust=untrusted present=3 keys",
            "",
        ]
    );
    let mut more = repos.pop().unwrap();
    more.1.unique_size = u64::MAX;
    let other = (more.0.clone(), git_annex_browser::table::Dup::dup(&more.1));
    assert_eq!(dump_totals(&vec![more, other]), None);
}
