use rz::app::{
    App, Dated, capture_script_path, history, installed_script, ready_file,
};
use rz::cli::SaveOptions;
use rz::ghostty::parse_capture_row;
use rz::model::{Agent, AgentSession, CaptureRow, Scope, Snapshot};
use rz::save::{
    Target, check_new, check_rows, geometry_is_missing, prepare_capture, save_target, snapshot_id,
    staging_name,
};
use rz::snapshot::{SnapshotInput, build_snapshot, build_snapshot_at, build_windows};

fn row(window: usize, tab: usize, terminal: usize) -> CaptureRow {
    parse_capture_row(&format!(
        "{window}\tw{window}\tWindow\t1\t2\t3\t4\t{tab}\ttab{tab}\tTab {terminal}\ttrue\t{terminal}\tid-{window}-{tab}-{terminal}\tname\tfalse\t/w/p\t/tmp/scroll"
    ))
    .unwrap()
}

fn session(agent: Agent, tty: &str, id: &str) -> AgentSession {
    AgentSession {
        agent,
        pid: 1,
        tty: tty.into(),
        cwd: "/w/p".into(),
        session_id: id.into(),
        command: agent.name(),
    }
}

fn snapshot(rows: &[CaptureRow], sessions: &[AgentSession]) -> Snapshot {
    build_snapshot_at(
        SnapshotInput {
            name: "work",
            id: "work_1",
            timestamp: "1",
            rows,
            process_sessions: sessions,
            warnings: vec!["odd".into()],
            capture_scrollback: false,
            target_window_id: Some("w1"),
            ghostty_version: "1.3".into(),
        },
        "now".into(),
    )
}

fn options(window_id: Option<&str>, current_window: bool) -> SaveOptions {
    SaveOptions {
        name: "work".into(),
        capture_scrollback: true,
        current_window,
        window_id: window_id.map(str::to_owned),
    }
}

#[test]
fn windows_are_chosen() {
    assert_eq!(save_target(&options(Some("w"), false)), Target::Given("w".into()));
    assert_eq!(save_target(&options(None, true)), Target::Front);
    assert_eq!(save_target(&options(None, false)), Target::Every);
}

#[test]
fn snapshots_are_named() {
    assert_eq!(snapshot_id("work", "20260720-120000"), "work_20260720-120000");
    assert_eq!(staging_name("work_1", 77), ".work_1.77.tmp");
    assert!(check_new("work_1", false).is_ok());
    assert_eq!(check_new("work_1", true).unwrap_err().message, "snapshot already exists: work_1");
}

#[test]
fn empty_captures_are_told() {
    assert!(check_rows(&vec![row(1, 1, 1)], None).is_ok());
    assert_eq!(
        check_rows(&Vec::new(), None).unwrap_err().message,
        "Ghostty has no restorable terminal surfaces"
    );
    assert_eq!(
        check_rows(&Vec::new(), Some("w")).unwrap_err().message,
        "Ghostty window \"w\" is no longer available"
    );
}

#[test]
fn the_first_row_tells_the_geometry() {
    let mut rows = vec![row(1, 1, 1), row(1, 1, 2), row(2, 1, 1)];
    rows[1].window_x = None;
    assert!(!geometry_is_missing(&rows));
    rows[2].window_height = None;
    assert!(geometry_is_missing(&rows));
}

#[test]
fn captures_are_prepared() {
    let mut rows = vec![row(1, 1, 1), row(12, 3, 104)];
    rows[0].terminal_name = "amp".into();
    rows[0].window_x = None;
    rows[1].scrollback_path = None;
    let sessions = vec![session(Agent::Codex, "ttys9", "c"), session(Agent::Amp, "ttys1", "T")];
    let ready = prepare_capture(&rows, &sessions, &Vec::new(), false, &vec![true, true]);
    assert_eq!(ready.rows[0].agent_session, Some(sessions[1].clone()));
    assert_eq!(ready.rows[1].agent_session, Some(sessions[0].clone()));
    assert_eq!(
        ready.rows[0].scrollback_file.as_deref(),
        Some("scrollback/window-01-tab-01-terminal-01.txt")
    );
    assert_eq!(ready.rows[1].scrollback_file, None);
    assert_eq!(ready.sessions, [sessions[1].clone(), sessions[0].clone()]);
    assert_eq!(
        ready.warnings,
        ["window geometry unavailable; grant your shell Accessibility permission"]
    );
    let skipped = prepare_capture(&rows, &sessions, &Vec::new(), true, &vec![false, true]);
    assert_eq!(skipped.rows[0].scrollback_file, None);
    assert_eq!(skipped.sessions.len(), 2);
}

#[test]
fn one_window_notes_only_what_it_shows() {
    let rows = vec![row(1, 1, 1)];
    let sessions = vec![
        session(Agent::Codex, "ttys3", "c"),
        AgentSession { cwd: "/elsewhere".into(), ..session(Agent::Codex, "ttys2", "d") },
        session(Agent::Codex, "ttys3", "c"),
    ];
    let one = prepare_capture(&rows, &sessions, &Vec::new(), true, &vec![true]);
    assert_eq!(one.sessions, [sessions[0].clone()]);
    assert!(one.warnings.is_empty());
    let all = prepare_capture(&rows, &sessions, &Vec::new(), false, &vec![true]);
    assert_eq!(all.sessions, [sessions[1].clone(), sessions[0].clone()]);
    assert_eq!(all.warnings.len(), 1);
}

#[test]
fn blank_directories_are_filled_in() {
    let mut rows = vec![row(1, 1, 1)];
    rows[0].working_directory = String::new();
    rows[0].terminal_name = "p".into();
    let sessions = vec![session(Agent::Codex, "ttys3", "c")];
    let ready = prepare_capture(&rows, &sessions, &Vec::new(), false, &vec![false]);
    assert_eq!(ready.rows[0].working_directory, "/w/p");
}

#[test]
fn rows_become_windows_tabs_and_terminals() {
    let mut rows = vec![row(2, 5, 1), row(1, 2, 3), row(2, 4, 2), row(1, 2, 1), row(2, 5, 1)];
    rows[1].window_name = "First".into();
    rows[3].window_name = "Later".into();
    rows[3].agent_session = Some(session(Agent::Amp, "t", "T-1"));
    rows[1].agent_session = Some(session(Agent::Codex, "t", "c-1"));
    rows[2].window_y = None;
    let sessions = [session(Agent::Codex, "t", "c"), session(Agent::Amp, "t", "T")];
    let snapshot = snapshot(&rows, &sessions);
    let layout = snapshot
        .windows
        .iter()
        .map(|window| {
            let tabs = window
                .tabs
                .iter()
                .map(|tab| {
                    (tab.index, tab.terminals.iter().map(|t| t.index).collect::<Vec<_>>())
                })
                .collect::<Vec<_>>();
            (window.index, tabs)
        })
        .collect::<Vec<_>>();
    assert_eq!(
        layout,
        [(1, vec![(2, vec![1, 3])]), (2, vec![(4, vec![2]), (5, vec![1, 1])])]
    );
    assert_eq!(snapshot.windows[0].name, "First");
    assert_eq!(snapshot.windows[0].tabs[0].name, "Tab 1");
    assert_eq!(snapshot.windows[0].tabs[0].id.as_deref(), Some("tab2"));
    assert_eq!(snapshot.windows[0].tabs[0].terminals[0].amp_thread_id.as_deref(), Some("T-1"));
    assert_eq!(snapshot.windows[0].tabs[0].terminals[1].codex_session_id.as_deref(), Some("c-1"));
    assert_eq!(snapshot.windows[1].position.unwrap().x, 1);
    assert_eq!(snapshot.windows[1].size.unwrap().height, 4);
    assert_eq!((snapshot.tabs_count, snapshot.terminals_count), (3, 5));
    assert_eq!(snapshot.detected_codex_sessions, [sessions[0].clone()]);
    assert_eq!(snapshot.detected_amp_threads, [sessions[1].clone()]);
    assert!(matches!(&snapshot.scope, Scope::Window { window_id } if window_id == "w1"));
    assert_eq!((snapshot.version, snapshot.saved_at.as_str()), (1, "now"));
    assert_eq!(snapshot.warnings, ["odd"]);
    assert_eq!(snapshot.limitations.len(), 3);
    assert_eq!(
        snapshot.limitations[1],
        "Scrollback was intentionally skipped for this fast snapshot."
    );
    assert_eq!(build_windows(&rows).len(), 2);
}

#[test]
fn snapshots_are_dated_now() {
    let rows = vec![row(1, 1, 1)];
    let before = chrono::Local::now();
    let snapshot = build_snapshot(SnapshotInput {
        name: "work",
        id: "work_1",
        timestamp: "1",
        rows: &rows,
        process_sessions: &[],
        warnings: Vec::new(),
        capture_scrollback: true,
        target_window_id: None,
        ghostty_version: String::new(),
    });
    let saved = chrono::DateTime::parse_from_rfc3339(&snapshot.saved_at).unwrap();
    assert!(before <= saved);
    assert!(matches!(snapshot.scope, Scope::AllWindows));
    assert_eq!(
        snapshot.limitations[1],
        "Scrollback restores as plain text output, without original styling or interactive state."
    );
}

#[test]
fn files_have_their_places() {
    let app = App::from_env(Some("/home/me"), None, "/x.applescript").unwrap();
    assert_eq!(app.home, "/home/me");
    assert_eq!(app.snapshots_dir, "/home/me/.local/state/ghostty-rz/snapshots");
    assert_eq!(app.watchers_dir, "/home/me/.local/state/ghostty-rz/watchers");
    assert_eq!(app.capture_script, "/x.applescript");
    let other = App::from_env(Some("/home/me"), Some("/state/"), "x").unwrap();
    assert_eq!(other.snapshots_dir, "/state/snapshots");
    assert_eq!(App::from_env(None, Some("/s"), "x").unwrap_err().message, "HOME is not set");
    assert_eq!(
        capture_script_path(Some("/d"), Some("/i"), "/src"),
        "/d/snapshot-capture.applescript"
    );
    assert_eq!(capture_script_path(None, Some("/i"), "/src"), "/i");
    assert_eq!(
        capture_script_path(None, None, "/src"),
        "/src/libexec/snapshot-capture.applescript"
    );
    assert_eq!(installed_script("/usr"), "/usr/libexec/snapshot-capture.applescript");
    assert_eq!(ready_file(7, "00ff"), "/tmp/ghostty-rz-7-00ff.ready");
}

#[test]
fn history_is_newest_first() {
    let dated = |id: &str, modified: Option<i128>| {
        let mut snapshot = snapshot(&[], &[]);
        snapshot.id = id.into();
        Dated { modified, snapshot }
    };
    let ordered = history(vec![
        dated("a", Some(3)),
        dated("b", None),
        dated("c", Some(9)),
        dated("d", Some(3)),
    ]);
    let ids = ordered.iter().map(|snapshot| snapshot.id.as_str()).collect::<Vec<_>>();
    assert_eq!(ids, ["c", "d", "a", "b"]);
}

#[test]
fn the_order_of_rows_does_not_matter() {
    let rows = [row(2, 1, 1), row(1, 2, 2), row(1, 2, 1), row(1, 1, 5)];
    let shuffled = [rows[2].clone(), rows[0].clone(), rows[3].clone(), rows[1].clone()];
    assert_eq!(
        format!("{:?}", snapshot(&rows, &[])),
        format!("{:?}", snapshot(&shuffled, &[]))
    );
}
