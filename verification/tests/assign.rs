use rz::assign::{
    Assignments, amp_title, assign_sessions, historical_terminal_name, stable_title,
    title_matches_cwd,
};
use rz::model::{
    Agent, AgentSession, CaptureRow, Scope, SessionKey, Snapshot, Tab, Terminal, Window,
};

const AMP_ID: &str = "T-01a023e2-3f9d-7705-98ed-4ea63108e87e";
const CODEX_ID: &str = "019f7eb7-dc72-75b3-b042-91599cdd90ac";

fn session(agent: Agent, tty: &str, cwd: &str, id: &str) -> AgentSession {
    AgentSession {
        agent,
        pid: 300,
        tty: tty.into(),
        cwd: cwd.into(),
        session_id: id.into(),
        command: agent.name(),
    }
}

fn row(id: &str, title: &str, cwd: &str) -> CaptureRow {
    CaptureRow {
        window_index: 1,
        window_id: "window".into(),
        window_name: "Work".into(),
        window_x: None,
        window_y: None,
        window_width: None,
        window_height: None,
        tab_index: 1,
        tab_id: "tab".into(),
        tab_name: "Project".into(),
        tab_selected: true,
        terminal_index: 1,
        terminal_id: id.into(),
        terminal_name: title.into(),
        terminal_focused: true,
        working_directory: cwd.into(),
        scrollback_path: None,
        scrollback_file: None,
        agent_session: None,
    }
}

fn earlier(name: &str, id: &str) -> Snapshot {
    Snapshot {
        version: 1,
        name: "work".into(),
        id: "work_1".into(),
        saved_at: String::new(),
        timestamp: String::new(),
        ghostty_version: String::new(),
        tabs_count: 1,
        terminals_count: 1,
        scrollback_captured: false,
        scope: Scope::AllWindows,
        windows: vec![Window {
            index: 1,
            id: None,
            name: String::new(),
            position: None,
            size: None,
            tabs: vec![Tab {
                index: 1,
                id: None,
                name: String::new(),
                selected: true,
                terminals: vec![Terminal {
                    index: 1,
                    id: None,
                    name: name.into(),
                    focused: true,
                    working_directory: String::new(),
                    scrollback_file: None,
                    codex_session_id: Some(id.into()),
                    amp_thread_id: None,
                }],
            }],
        }],
        detected_codex_sessions: Vec::new(),
        detected_amp_threads: Vec::new(),
        warnings: Vec::new(),
        limitations: Vec::new(),
    }
}

#[test]
fn matches_amp_and_codex_titles_in_the_same_directory() {
    let cwd = "/Users/me/dot-files";
    let rows = vec![
        row("amp-terminal", "⣒ display task - amp - ~/dot-files", cwd),
        row("codex-terminal", "codex | dot-files", cwd),
    ];
    let amp = session(Agent::Amp, "ttys016", cwd, AMP_ID);
    let codex = session(Agent::Codex, "ttys004", cwd, CODEX_ID);
    let (assigned, warnings) =
        assign_sessions(&rows, &vec![codex.clone(), amp.clone()], &Vec::new(), true);
    assert_eq!(assigned.get("amp-terminal"), Some(amp));
    assert_eq!(assigned.get("codex-terminal"), Some(codex));
    assert!(warnings.is_empty());
}

#[test]
fn refuses_ambiguous_cross_agent_matching() {
    let cwd = "/Users/me/dot-files";
    let rows = vec![row("one", "shell one", cwd), row("two", "shell two", cwd)];
    let sessions = vec![
        session(Agent::Codex, "ttys004", cwd, CODEX_ID),
        session(Agent::Amp, "ttys016", cwd, AMP_ID),
    ];
    let (assigned, warnings) = assign_sessions(&rows, &sessions, &Vec::new(), true);
    assert!(assigned.is_empty());
    assert_eq!(warnings.len(), 2);
    assert!(warnings.iter().all(|warning| warning.contains("multiple agent types")));
}

#[test]
fn matches_one_blank_cwd_by_unique_project_title() {
    let rows = vec![row("terminal", "fws-docs", "")];
    let session = session(Agent::Codex, "ttys002", "/Users/me/fws-docs", CODEX_ID);
    let (assigned, warnings) =
        assign_sessions(&rows, &vec![session.clone()], &Vec::new(), true);
    assert_eq!(assigned.get("terminal"), Some(session));
    assert!(warnings.is_empty());
}

#[test]
fn does_not_guess_between_duplicate_blank_titles() {
    let rows = vec![row("one", "fws-docs", ""), row("two", "fws-docs", "")];
    let session = session(Agent::Codex, "ttys002", "/Users/me/fws-docs", CODEX_ID);
    let (assigned, warnings) = assign_sessions(&rows, &vec![session], &Vec::new(), true);
    assert!(assigned.is_empty());
    assert_eq!(warnings.len(), 1);
    assert!(warnings[0].contains("multiple blank-directory"));
}

#[test]
fn one_agent_is_matched_by_directory_in_the_order_of_terminals() {
    let rows = vec![row("one", "shell", "/w/p/"), row("two", "shell", "/w/p")];
    let late = session(Agent::Codex, "ttys010", "/w/p", "late");
    let early = session(Agent::Codex, "ttys009", "/w//p", "early");
    let (assigned, warnings) =
        assign_sessions(&rows, &vec![late.clone(), early.clone()], &Vec::new(), true);
    assert_eq!(assigned.get("one"), Some(early));
    assert_eq!(assigned.get("two"), Some(late));
    assert!(warnings.is_empty());
}

#[test]
fn earlier_titles_help() {
    let rows = vec![row("one", "⣒ Fixing things", ""), row("two", "other", "")];
    let session = session(Agent::Codex, "ttys002", "/Users/me/project", CODEX_ID);
    let history = vec![earlier("", CODEX_ID), earlier("Fixing things", CODEX_ID)];
    let (assigned, warnings) = assign_sessions(&rows, &vec![session.clone()], &history, true);
    assert_eq!(assigned.get("one"), Some(session.clone()));
    assert!(warnings.is_empty());
    assert_eq!(
        historical_terminal_name(&history, &session.key()).as_deref(),
        Some("Fixing things")
    );
    let other = SessionKey { agent: Agent::Amp, id: CODEX_ID.into() };
    assert_eq!(historical_terminal_name(&history, &other), None);
}

#[test]
fn sessions_without_a_terminal_are_warned_of() {
    let session = session(Agent::Amp, "ttys002", "/w/p", AMP_ID);
    let (assigned, warnings) = assign_sessions(&Vec::new(), &vec![session.clone()], &Vec::new(), true);
    assert!(assigned.is_empty());
    assert_eq!(
        warnings,
        [format!(
            "Amp thread {AMP_ID} on ttys002 in /w/p was not matched: Ghostty exposed no terminal with that directory, a unique matching project title, or a unique prior session title; it will not auto-resume"
        )]
    );
    let (_, quiet) = assign_sessions(&Vec::new(), &vec![session], &Vec::new(), false);
    assert!(quiet.is_empty());
}

#[test]
fn no_terminal_and_no_conversation_is_used_twice() {
    let rows = (0..4)
        .map(|n| row(&format!("t{n}"), if n == 0 { "codex" } else { "shell" }, "/w/p"))
        .collect::<Vec<_>>();
    let sessions = (0..6)
        .map(|n| session(Agent::Codex, &format!("ttys00{n}"), "/w/p", &format!("id{n}")))
        .collect::<Vec<_>>();
    let (assigned, warnings) = assign_sessions(&rows, &sessions, &Vec::new(), true);
    let mut terminals = assigned.entries.iter().map(|entry| entry.0.clone()).collect::<Vec<_>>();
    let mut shown = assigned.sessions().iter().map(|s| s.session_id.clone()).collect::<Vec<_>>();
    terminals.sort();
    terminals.dedup();
    shown.sort();
    shown.dedup();
    assert_eq!(terminals.len(), 4);
    assert_eq!(shown.len(), 4);
    assert_eq!(assigned.entries.len() + warnings.len(), sessions.len());
}

#[test]
fn assignments_keep_one_session_for_each_terminal() {
    let mut assigned = Assignments::new();
    assert!(assigned.is_empty());
    assigned.insert("a", session(Agent::Amp, "t", "/", "1"));
    assigned.insert("b", session(Agent::Amp, "t", "/", "2"));
    assigned.insert("a", session(Agent::Amp, "t", "/", "3"));
    assert_eq!(assigned.entries.len(), 2);
    assert!(assigned.contains("b"));
    assert!(!assigned.contains("c"));
    assert_eq!(assigned.get("a").unwrap().session_id, "3");
    assert_eq!(assigned.get("c"), None);
}

#[test]
fn titles_are_recognised() {
    assert!(amp_title(" AMP "));
    assert!(amp_title("x - Amp - y"));
    assert!(amp_title("x - amp"));
    assert!(!amp_title("amplify"));
    assert_eq!(stable_title("  ⣒  title "), "title");
    assert_eq!(stable_title(" title "), "title");
    assert!(title_matches_cwd("zsh | docs", "/Users/me/docs", Agent::Amp));
    assert!(title_matches_cwd("⣒ docs", "/Users/me/docs", Agent::Amp));
    assert!(title_matches_cwd("Codex in docs", "/Users/me/docs", Agent::Codex));
    assert!(!title_matches_cwd("Codex in docs", "/Users/me/docs", Agent::Amp));
    assert!(title_matches_cwd("Action Required docs", "/Users/me/docs", Agent::Amp));
}
