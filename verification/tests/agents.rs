use rz::agents::{
    DatedRollout, Finding, Probe, amp_process, amp_thread_from_lsof, codex_process, codex_rollouts,
    cwd_from_lsof, descends_from, directory_request, discover_sessions, files_request, finding_for,
    ghostty_process, inspection_targets, needs_open_files, newest_codex_session, parse_processes,
    process_list_request, running_sessions, session_id_in_command, session_id_or, tty_number,
};
use rz::command::{Reply, run, try_run};
use rz::model::Agent;

const AMP_ID: &str = "T-01a023e2-3f9d-7705-98ed-4ea63108e87e";
const CODEX_ID: &str = "019f7eb7-dc72-75b3-b042-91599cdd90ac";

const PS: &str = " 100 1 ?? /Applications/Ghostty.app/Contents/MacOS/ghostty\n\
                  200 100 ttys016 /bin/zsh -l\n\
                  300 200 ttys016 amp\n\
                  400 200 ttys016 /usr/bin/sleep 60";

fn reply(stdout: &str) -> Option<Reply> {
    Some(Reply { stdout: stdout.to_owned(), stderr: String::new(), success: true })
}

#[test]
fn extracts_exactly_one_amp_thread_from_lsof() {
    let output = format!(
        "p19089\nn/opt/homebrew/bin/amp\nn/Users/me/.cache/amp/logs/threads/{AMP_ID}.log\n"
    );
    assert_eq!(amp_thread_from_lsof(&output).as_deref(), Some(AMP_ID));
    let ambiguous = format!(
        "{output}n/Users/me/.cache/amp/logs/threads/T-01a0263b-7c89-7367-9e24-c78e3c0daedc.log\n"
    );
    assert_eq!(amp_thread_from_lsof(&ambiguous), None);
}

#[test]
fn discovery_only_inspects_supported_ghostty_agents() {
    let inspected = inspection_targets(PS).iter().map(|process| process.pid).collect::<Vec<_>>();
    let findings = inspected
        .iter()
        .map(|_| Finding {
            cwd: Some("/Users/me/project".into()),
            session_id: Some(AMP_ID.into()),
        })
        .collect::<Vec<_>>();
    let sessions = discover_sessions(PS, &findings);
    assert_eq!(inspected, vec![300]);
    assert_eq!(sessions.len(), 1);
    assert_eq!(sessions[0].agent, Agent::Amp);
}

#[test]
fn one_thread_in_two_lines_is_one_thread() {
    let line = format!("n/Users/me/.cache/amp/logs/threads/{AMP_ID}.log");
    let output = format!("{line}\n{line}  \n");
    assert_eq!(amp_thread_from_lsof(&output).as_deref(), Some(AMP_ID));
    assert_eq!(amp_thread_from_lsof(&format!("n/tmp/{AMP_ID}.log")), None);
    assert_eq!(amp_thread_from_lsof(""), None);
}

#[test]
fn every_process_is_inspected_without_ghostty() {
    let ps = "10 1 ttys001 /opt/bin/codex\n11 1 ttys002 node /opt/bin/codex\n12 1 ttys003 /x/amp run";
    let found = inspection_targets(ps).iter().map(|process| process.pid).collect::<Vec<_>>();
    assert_eq!(found, vec![10, 12]);
}

#[test]
fn processes_outside_ghostty_are_passed_over() {
    let ps = "100 1 ?? /Applications/Ghostty.app/Contents/MacOS/ghostty\n\
              200 1 ttys001 amp\n\
              300 400 ttys002 amp\n\
              400 300 ttys003 /bin/zsh";
    assert!(inspection_targets(ps).is_empty());
    let processes = parse_processes(ps);
    assert!(!descends_from(&processes[1], &processes));
    assert!(!descends_from(&processes[2], &processes));
}

#[test]
fn process_lines_are_read() {
    let processes = parse_processes("  42   7  ttys001   /bin/zsh -l  x \nnot a line\n99999999999 1 ?? x\n1 2 3\n");
    assert_eq!(processes.len(), 1);
    assert_eq!(processes[0].pid, 42);
    assert_eq!(processes[0].ppid, 7);
    assert_eq!(processes[0].tty, "ttys001");
    assert_eq!(processes[0].command, "/bin/zsh -l  x ");
}

#[test]
fn commands_are_told_apart() {
    assert!(codex_process("/opt/homebrew/bin/codex resume"));
    assert!(!codex_process("/opt/homebrew/bin/codex-code-mode-host"));
    assert!(!codex_process("node /opt/homebrew/bin/codex"));
    assert!(amp_process("  /usr/local/bin/amp --x"));
    assert!(amp_process("amp"));
    assert!(!amp_process("/usr/local/bin/amply"));
    assert!(!amp_process(""));
    assert!(ghostty_process("/Applications/Ghostty.app/Contents/MacOS/ghostty"));
    assert!(!ghostty_process("ghostty"));
}

#[test]
fn identifiers_are_read_from_commands() {
    assert_eq!(
        session_id_in_command(Agent::Codex, &format!("codex Resume  {CODEX_ID} now")).as_deref(),
        Some(CODEX_ID)
    );
    assert_eq!(session_id_in_command(Agent::Codex, &format!("codex presume {CODEX_ID}")), None);
    assert_eq!(
        session_id_in_command(Agent::Amp, &format!("amp threads continue {AMP_ID}x")).as_deref(),
        Some(AMP_ID)
    );
    assert_eq!(session_id_in_command(Agent::Amp, "amp T-123"), None);
    assert_eq!(session_id_or(None, Some("b".into())).as_deref(), Some("b"));
    assert_eq!(session_id_or(Some("a".into()), Some("b".into())).as_deref(), Some("a"));
}

#[test]
fn working_directories_are_read() {
    assert_eq!(cwd_from_lsof("p300\nfcwd\nn/Users/me/a b\nn/tmp\n").as_deref(), Some("/Users/me/a b"));
    assert_eq!(cwd_from_lsof("p300\nnrelative"), None);
}

#[test]
fn the_conversation_changed_last_wins() {
    let files = vec![
        DatedRollout { id: "a".into(), modified: 5 },
        DatedRollout { id: "b".into(), modified: 9 },
        DatedRollout { id: "c".into(), modified: 9 },
        DatedRollout { id: "d".into(), modified: -3 },
    ];
    assert_eq!(newest_codex_session(&files).as_deref(), Some("c"));
    assert_eq!(newest_codex_session(&Vec::new()), None);
}

#[test]
fn rollouts_are_read_from_open_files() {
    let line = format!(
        "codex 300 me 20w REG 1,2 3 4 /Users/me/.codex/sessions/rollout-2026-07-20-{CODEX_ID}.jsonl"
    );
    let rollouts = codex_rollouts(&format!("{line}\nother /tmp/x.jsonl\n"));
    assert_eq!(rollouts.len(), 1);
    assert_eq!(rollouts[0].id, CODEX_ID);
    assert_eq!(
        rollouts[0].path,
        format!("/Users/me/.codex/sessions/rollout-2026-07-20-{CODEX_ID}.jsonl")
    );
}

#[test]
fn terminals_are_numbered() {
    assert_eq!(tty_number("ttys016"), 16);
    assert_eq!(tty_number("??"), 1_000_000);
    assert_eq!(tty_number("ttys99999999999"), 1_000_000);
    assert_eq!(tty_number(""), 1_000_000);
}

#[test]
fn running_sessions_are_put_together() {
    let probes = vec![Probe {
        directory: reply("p300\nfcwd\nn/Users/me/project\n"),
        files: reply(&format!("n/Users/me/.cache/amp/logs/threads/{AMP_ID}.log")),
        rollouts: Vec::new(),
    }];
    let sessions = running_sessions(&reply(PS), &probes).unwrap();
    assert_eq!(sessions.len(), 1);
    assert_eq!(sessions[0].agent, Agent::Amp);
    assert_eq!(sessions[0].pid, 300);
    assert_eq!(sessions[0].tty, "ttys016");
    assert_eq!(sessions[0].cwd, "/Users/me/project");
    assert_eq!(sessions[0].session_id, AMP_ID);
    assert_eq!(sessions[0].command, "amp");
    assert!(running_sessions(&reply(PS), &Vec::new()).unwrap().is_empty());
    assert_eq!(running_sessions(&None, &probes).unwrap_err().message, "failed to run ps");
}

#[test]
fn codex_conversations_come_from_the_command_or_the_files() {
    let probe = Probe {
        directory: None,
        files: None,
        rollouts: vec![DatedRollout { id: "newest".into(), modified: 1 }],
    };
    let named = finding_for(Agent::Codex, &format!("codex resume {CODEX_ID}"), &probe);
    assert_eq!(named.session_id.as_deref(), Some(CODEX_ID));
    assert_eq!(named.cwd, None);
    let open = finding_for(Agent::Codex, "codex", &probe);
    assert_eq!(open.session_id.as_deref(), Some("newest"));
    assert_eq!(finding_for(Agent::Amp, "amp", &probe).session_id, None);
}

#[test]
fn programs_are_asked() {
    assert_eq!(process_list_request(), ["-axo", "pid=,ppid=,tty=,command="]);
    assert_eq!(directory_request(7), ["-nP", "-a", "-p", "7", "-d", "cwd", "-Fn"]);
    assert_eq!(files_request(Agent::Codex, 7), ["-nP", "-p", "7"]);
    assert_eq!(files_request(Agent::Amp, 7), ["-nP", "-p", "7", "-Fn"]);
}

#[test]
fn answers_are_trimmed_and_failures_told() {
    let failed = Some(Reply {
        stdout: " out\n".into(),
        stderr: "err \n".into(),
        success: false,
    });
    assert_eq!(run("ps", &reply("  a b \n")).unwrap(), "a b");
    assert_eq!(run("ps", &failed).unwrap_err().message, "ps failed: out\nerr");
    assert_eq!(run("ps", &None).unwrap_err().message, "failed to run ps");
    assert_eq!(try_run("ps", &failed), None);
    assert_eq!(try_run("ps", &reply("x")).as_deref(), Some("x"));
}

#[test]
fn open_files_are_asked_for_where_they_matter() {
    let told = reply("n/Users/me/project");
    assert!(needs_open_files(Agent::Amp, "amp", &told));
    assert!(!needs_open_files(Agent::Amp, "amp", &None));
    assert!(!needs_open_files(Agent::Amp, "amp", &reply("p300")));
    assert!(!needs_open_files(Agent::Codex, &format!("codex resume {CODEX_ID}"), &told));
}

#[test]
fn every_listed_process_is_asked_about_on_its_own() {
    let other = "T-01a0263b-7c89-7367-9e24-c78e3c0daedc";
    let ps = format!(
        "7 1 ttys001 amp threads continue {AMP_ID}\n7 1 ttys002 amp threads continue {other}"
    );
    let probe = || Probe { directory: reply("n/w"), files: None, rollouts: Vec::new() };
    let sessions = running_sessions(&reply(&ps), &vec![probe(), probe()]).unwrap();
    let ids = sessions.iter().map(|session| session.session_id.as_str()).collect::<Vec<_>>();
    assert_eq!(ids, [AMP_ID, other]);
    assert_eq!(running_sessions(&reply(&ps), &vec![probe()]).unwrap().len(), 1);
}
