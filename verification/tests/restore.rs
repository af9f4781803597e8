use rz::model::{
    Agent, AgentSession, Position, Scope, SessionKey, Size, Snapshot, Tab, Terminal, Window,
};
use rz::quote::{applescript_string, shell_quote};
use rz::restore::{
    RestoreAction, RestorePlan, RestoreSetting, append_close_existing, keys_to_avoid,
    restore_action, restore_command, restore_plan, restore_script, scrollback_candidates,
    script_is_printed, working_directory_report_command,
};

fn terminal() -> Terminal {
    Terminal {
        index: 1,
        id: Some("terminal".into()),
        name: "amp".into(),
        focused: true,
        working_directory: "/Users/me/project".into(),
        scrollback_file: None,
        codex_session_id: None,
        amp_thread_id: Some("T-01a023e2-3f9d-7705-98ed-4ea63108e87e".into()),
    }
}

fn shell(focused: bool) -> Terminal {
    Terminal {
        index: 2,
        id: None,
        name: String::new(),
        focused,
        working_directory: String::new(),
        scrollback_file: Some("scrollback/one.txt".into()),
        codex_session_id: None,
        amp_thread_id: None,
    }
}

fn tab(name: &str, selected: bool, terminals: Vec<Terminal>) -> Tab {
    Tab { index: 1, id: None, name: name.into(), selected, terminals }
}

fn snapshot(windows: Vec<Window>) -> Snapshot {
    Snapshot {
        version: 1,
        name: "work".into(),
        id: "work_1".into(),
        saved_at: String::new(),
        timestamp: String::new(),
        ghostty_version: String::new(),
        tabs_count: 1,
        terminals_count: 1,
        scrollback_captured: false,
        scope: Scope::AllWindows,
        windows,
        detected_codex_sessions: Vec::new(),
        detected_amp_threads: Vec::new(),
        warnings: Vec::new(),
        limitations: Vec::new(),
    }
}

fn window(tabs: Vec<Tab>) -> Window {
    Window { index: 1, id: None, name: String::new(), position: None, size: None, tabs }
}

#[test]
fn restores_amp_threads_and_avoids_duplicates() {
    let terminal = terminal();
    let mut duplicates = Vec::new();
    let none = Vec::new();
    let files = Vec::new();
    let setting = RestoreSetting {
        host: "host",
        snapshot_dir: "/tmp/state",
        running_sessions: &none,
        home: "/Users/me",
        ready_file: None,
        scrollback_files: &files,
    };
    let command = restore_command(&terminal, &setting, &mut duplicates, "/Users/me/project");
    assert!(command.contains("exec amp threads continue"));
    assert!(duplicates.is_empty());

    let running = vec![terminal.session().unwrap().key()];
    let setting = RestoreSetting { running_sessions: &running, ..setting };
    let command = restore_command(&terminal, &setting, &mut duplicates, "/Users/me/project");
    assert!(command.contains("Amp thread already running"));
    assert!(!command.contains("exec amp threads continue"));
    assert_eq!(duplicates.len(), 1);
}

#[test]
fn escapes_the_nested_close_window_applescript() {
    let mut lines = Vec::new();
    append_close_existing(&mut lines, Some("/tmp/ready")).unwrap();
    let script = lines.join("\n");

    assert!(script.contains(r#"tell application \"Ghostty\""#));
    assert!(!script.contains(r#"tell application \\"Ghostty\\""#));
}

#[test]
fn shell_quote_handles_apostrophes() {
    assert_eq!(shell_quote("it's"), "'it'\\''s'");
}

#[test]
fn quoting_escapes_what_needs_it() {
    assert_eq!(shell_quote(""), "''");
    assert_eq!(shell_quote("a b\n$x"), "'a b\n$x'");
    assert_eq!(applescript_string("a\\b\"c\r\nd"), "\"a\\\\b\\\"c  d\"");
    assert_eq!(applescript_string(""), "\"\"");
}

#[test]
fn commands_report_wait_show_and_resume() {
    let none = Vec::new();
    let files = vec!["/state/scrollback/one.txt".to_owned()];
    let setting = RestoreSetting {
        host: "h",
        snapshot_dir: "/state",
        running_sessions: &none,
        home: "/home",
        ready_file: Some("/tmp/ready"),
        scrollback_files: &files,
    };
    let mut duplicates = Vec::new();
    let command = restore_command(&shell(true), &setting, &mut duplicates, "/w");
    let inner = "/usr/bin/printf '\\033]7;kitty-shell-cwd://%s%s\\007' 'h' '/w'; until [ -e '/tmp/ready' ]; do /bin/sleep 0.1; done; /bin/cat -- '/state/scrollback/one.txt'; exec /bin/zsh -l";
    assert_eq!(command, format!("/bin/zsh -lc {}", shell_quote(inner)));
    let mut codex = shell(true);
    codex.codex_session_id = Some("c'1".into());
    codex.amp_thread_id = Some("ignored".into());
    let command = restore_command(&codex, &RestoreSetting { ready_file: None, snapshot_dir: "/other", ..setting }, &mut duplicates, "/w");
    let inner = format!(
        "{}; exec codex resume {}",
        working_directory_report_command("h", "/w"),
        shell_quote("c'1")
    );
    assert_eq!(command, format!("/bin/zsh -lc {}", shell_quote(&inner)));
    assert!(duplicates.is_empty());
}

fn plan(close_existing: bool, ready: Option<&str>, running: &Vec<SessionKey>) -> RestorePlan {
    let mut first = window(vec![
        tab("Tab \"1\"", false, vec![terminal(), shell(false)]),
        tab("", true, vec![shell(false), shell(true)]),
        tab("empty", true, Vec::new()),
    ]);
    first.position = Some(Position { x: -1, y: 2 });
    first.size = Some(Size { width: 30, height: 40 });
    let second = window(vec![tab("", false, vec![terminal()])]);
    let files = Vec::new();
    let setting = RestoreSetting {
        host: "h",
        snapshot_dir: "/state",
        running_sessions: running,
        home: "/home",
        ready_file: ready,
        scrollback_files: &files,
    };
    restore_plan(&snapshot(vec![first, second]), &setting, close_existing).unwrap()
}

#[test]
fn scripts_open_windows_tabs_and_splits() {
    let plan = plan(false, None, &Vec::new());
    let lines = plan
        .script
        .lines()
        .filter(|line| !line.starts_with("set command of "))
        .collect::<Vec<_>>();
    assert_eq!(
        lines,
        [
            "tell application \"Ghostty\"",
            "activate",
            "set rzConfig1_1_1 to new surface configuration",
            "set initial working directory of rzConfig1_1_1 to \"/Users/me/project\"",
            "set wait after command of rzConfig1_1_1 to true",
            "set rzWindow1 to new window with configuration rzConfig1_1_1",
            "set rzTab1_1 to selected tab of rzWindow1",
            "set rzTerminal1_1_1 to focused terminal of rzTab1_1",
            "set rzConfig1_1_2 to new surface configuration",
            "set initial working directory of rzConfig1_1_2 to \"/home\"",
            "set wait after command of rzConfig1_1_2 to true",
            "set rzTerminal1_1_2 to split rzTerminal1_1_1 direction right with configuration rzConfig1_1_2",
            "perform action \"set_tab_title:Tab \\\"1\\\"\" on rzTerminal1_1_1",
            "set rzConfig1_2_1 to new surface configuration",
            "set initial working directory of rzConfig1_2_1 to \"/home\"",
            "set wait after command of rzConfig1_2_1 to true",
            "set rzTab1_2 to new tab in rzWindow1 with configuration rzConfig1_2_1",
            "set rzTerminal1_2_1 to focused terminal of rzTab1_2",
            "set rzConfig1_2_2 to new surface configuration",
            "set initial working directory of rzConfig1_2_2 to \"/home\"",
            "set wait after command of rzConfig1_2_2 to true",
            "set rzTerminal1_2_2 to split rzTerminal1_2_1 direction right with configuration rzConfig1_2_2",
            "select tab rzTab1_2",
            "tell application \"System Events\"",
            "tell process \"Ghostty\"",
            "set size of front window to {30, 40}",
            "set position of front window to {-1, 2}",
            "end tell",
            "end tell",
            "set rzConfig2_1_1 to new surface configuration",
            "set initial working directory of rzConfig2_1_1 to \"/Users/me/project\"",
            "set wait after command of rzConfig2_1_1 to true",
            "set rzWindow2 to new window with configuration rzConfig2_1_1",
            "set rzTab2_1 to selected tab of rzWindow2",
            "set rzTerminal2_1_1 to focused terminal of rzTab2_1",
            "focus rzTerminal1_2_2",
            "end tell",
        ]
    );
}

#[test]
fn windows_close_once_the_workspace_is_complete() {
    let plan = plan(true, Some("/tmp/ready"), &Vec::new());
    let lines = plan.script.lines().collect::<Vec<_>>();
    assert_eq!(lines[2], "set rzExistingWindowIds to id of every window");
    let closing = lines.iter().position(|line| line.starts_with("set rzCloseScript to")).unwrap();
    let opened = lines.iter().rposition(|line| line.contains("surface configuration")).unwrap();
    assert!(opened < closing);
    assert!(lines.iter().filter(|line| line.starts_with("set command of")).all(|line| line.contains("until [ -e")));
    assert_eq!(lines.len() - closing, 7);
    assert_eq!(lines[lines.len() - 1], "end tell");
    assert!(lines[lines.len() - 2].contains("nohup"));
}

#[test]
fn closing_needs_a_ready_file() {
    let files = Vec::new();
    let running = Vec::new();
    let error = restore_script(&snapshot(Vec::new()), "/s", &running, "/h", true, None, &files)
        .unwrap_err();
    assert_eq!(error.message, "missing restore readiness file");
    let mut lines = vec!["x".to_owned()];
    assert!(append_close_existing(&mut lines, None).is_err());
    assert_eq!(lines, ["x"]);
}

#[test]
fn scripts_tell_the_machine_by_name() {
    let files = Vec::new();
    let running = Vec::new();
    let snapshot = snapshot(vec![window(vec![tab("", false, vec![shell(false)])])]);
    let plan = restore_script(&snapshot, "/s", &running, "/h", false, None, &files).unwrap();
    let host = hostname::get().unwrap_or_default().to_string_lossy().into_owned();
    let setting = RestoreSetting {
        host: &host,
        snapshot_dir: "/s",
        running_sessions: &running,
        home: "/h",
        ready_file: None,
        scrollback_files: &files,
    };
    assert_eq!(plan.script, restore_plan(&snapshot, &setting, false).unwrap().script);
    let unnamed = RestoreSetting { host: "", ..setting };
    assert!(host.is_empty() || plan.script != restore_plan(&snapshot, &unnamed, false).unwrap().script);
}

#[test]
fn running_conversations_are_reported_once() {
    let key = terminal().session().unwrap().key();
    let plan = plan(false, None, &vec![key.clone()]);
    assert_eq!(plan.duplicates, [key]);
    assert!(!plan.script.contains("exec amp threads continue"));
}

#[test]
fn saved_files_are_looked_for() {
    let snapshot = snapshot(vec![window(vec![tab("", true, vec![terminal(), shell(true), shell(false)])])]);
    assert_eq!(
        scrollback_candidates(&snapshot, "/state/"),
        ["/state/scrollback/one.txt", "/state/scrollback/one.txt"]
    );
}

#[test]
fn running_conversations_are_avoided() {
    let session = AgentSession {
        agent: Agent::Codex,
        pid: 1,
        tty: "ttys001".into(),
        cwd: "/w".into(),
        session_id: "c-1".into(),
        command: "codex".into(),
    };
    let key = SessionKey { agent: Agent::Codex, id: "c-1".into() };
    assert_eq!(keys_to_avoid(false, &vec![session.clone()]), [key]);
    assert!(keys_to_avoid(true, &vec![session]).is_empty());
}

#[test]
fn dry_runs_only_preview() {
    for close_existing in [false, true] {
        assert_eq!(restore_action(true, close_existing), RestoreAction::Preview);
        assert_eq!(
            restore_action(false, close_existing),
            RestoreAction::Script {
                needs_ready_file: close_existing,
                needs_sessions: !close_existing,
            }
        );
    }
    assert!(script_is_printed(Some("1")));
    assert!(!script_is_printed(Some("0")));
    assert!(!script_is_printed(None));
}
