use rz::cli::{WatchOptions, WatchScope, WorkerOptions};
use rz::clock::Moment;
use rz::model::WatchState;
use rz::random::{hex, random_hex};
use rz::watch::{
    LONGEST_SLEEP, STOP_PATIENCE, STOP_SLEEP, StopAction, WorkerAction, WorkerPhase,
    already_watching, begin_attempt, check_owner, display_interval, end_attempt, initial_state,
    next_attempt, owner_alive, process_command_request, process_number, save_arguments,
    signal_number, start_marker_request, started_report, state_belongs, status_report, stop_step,
    stop_watch, stopped_report, stopping_report, token_is_valid, validate_worker, watch_log_path,
    watch_state_path, watch_status, watcher_alive, worker_options, worker_step,
};

fn options() -> WorkerOptions {
    WorkerOptions {
        token: "a".repeat(32),
        name: "backup".into(),
        interval_seconds: 900,
        owner_pid: 100,
        owner_started_at: "start".into(),
        scope: WatchScope::CurrentWindow,
        window_id: Some("window".into()),
        state_path: "/w/shell-100.json".into(),
    }
}

fn state() -> WatchState {
    initial_state(&options(), 200, "2026-07-20T12:00:00+03:00", "/w/watch.log")
}

#[test]
fn atomically_updates_matching_watcher_state() {
    let token = state().token;
    let updated = end_attempt(
        Some(state()),
        &token,
        true,
        "now",
        "next",
        Some("backup_1".into()),
    );
    assert_eq!(updated.unwrap().last_snapshot_id.as_deref(), Some("backup_1"));
}

#[test]
fn displays_compact_intervals() {
    assert_eq!(display_interval(3_600), "1h");
    assert_eq!(display_interval(900), "15m");
    assert_eq!(display_interval(15), "15s");
}

#[test]
fn intervals_are_in_the_largest_whole_unit() {
    assert_eq!(display_interval(0), "0h");
    assert_eq!(display_interval(5_400), "90m");
    assert_eq!(display_interval(3_601), "3601s");
}

#[test]
fn other_watchers_are_left_alone() {
    assert!(begin_attempt(Some(state()), "other", "now").is_none());
    assert!(begin_attempt(None, "other", "now").is_none());
    assert!(end_attempt(Some(state()), "other", true, "now", "next", None).is_none());
    assert!(state_belongs(&Some(state()), &"a".repeat(32)));
    assert!(!state_belongs(&Some(state()), "other"));
    assert!(!state_belongs(&None, "other"));
}

#[test]
fn attempts_are_written_down() {
    let token = state().token;
    let mut first = state();
    first.last_error = Some("old".into());
    first.last_success_at = Some("before".into());
    first.last_snapshot_id = Some("backup_0".into());
    let begun = begin_attempt(Some(first), &token, "start").unwrap();
    assert_eq!(begun.last_attempt_at.as_deref(), Some("start"));
    assert_eq!(begun.last_error, None);
    let failed = end_attempt(Some(begun), &token, false, "now", "next", None).unwrap();
    assert_eq!(failed.last_error.as_deref(), Some("save failed at now; see watcher log"));
    assert_eq!(failed.last_success_at.as_deref(), Some("before"));
    assert_eq!(failed.last_snapshot_id.as_deref(), Some("backup_0"));
    assert_eq!(failed.next_attempt_at.as_deref(), Some("next"));
    assert_eq!(failed.token, token);
    let done = end_attempt(Some(failed), &token, true, "now", "next", None).unwrap();
    assert_eq!(done.last_error, None);
    assert_eq!(done.last_success_at.as_deref(), Some("now"));
    assert_eq!(done.last_snapshot_id, None);
}

#[test]
fn watchers_live_with_their_shell() {
    assert!(owner_alive(true, "start", "start"));
    assert!(!owner_alive(false, "start", "start"));
    assert!(!owner_alive(true, "later", "start"));
    let command = format!("rz --watch-worker {} backup", "a".repeat(32));
    assert!(watcher_alive(&state(), true, true, &command));
    assert!(!watcher_alive(&state(), true, true, "rz"));
    assert!(!watcher_alive(&state(), false, true, &command));
    assert!(!watcher_alive(&state(), true, false, &command));
}

#[test]
fn workers_save_wait_and_stop() {
    let step = |phase, stop, owner, remaining| worker_step(phase, stop, owner, remaining);
    let (ready, waiting) = (WorkerPhase::Ready, WorkerPhase::Waiting);
    assert_eq!(step(ready, false, true, None), (waiting, WorkerAction::Attempt));
    assert_eq!(step(waiting, false, true, Some(7)), (waiting, WorkerAction::Sleep(7)));
    assert_eq!(
        step(waiting, false, true, Some(u128::MAX)),
        (waiting, WorkerAction::Sleep(LONGEST_SLEEP))
    );
    assert_eq!(step(waiting, false, true, None), (ready, WorkerAction::Look));
    for phase in [ready, waiting] {
        assert_eq!(step(phase, true, true, None).1, WorkerAction::Exit);
        assert_eq!(step(phase, false, false, Some(1)).1, WorkerAction::Exit);
    }
}

#[test]
fn workers_check_what_they_are_told() {
    let fault = |change: fn(&mut WorkerOptions)| {
        let mut options = options();
        change(&mut options);
        validate_worker("/w", &options).unwrap_err().message
    };
    assert!(validate_worker("/w", &options()).is_ok());
    assert!(validate_worker("/w/", &options()).is_ok());
    assert!(fault(|o| o.name = "a b".into()).starts_with("invalid snapshot name"));
    assert_eq!(fault(|o| o.token = "a".repeat(31)), "invalid watcher token");
    assert_eq!(fault(|o| o.token = "g".repeat(32)), "invalid watcher token");
    assert_eq!(fault(|o| o.interval_seconds = 9), "invalid watcher interval");
    assert_eq!(
        fault(|o| o.window_id = None),
        "current-window watcher is missing its bound window ID"
    );
    assert_eq!(
        fault(|o| o.scope = WatchScope::AllWindows),
        "all-windows watcher cannot have a bound window ID"
    );
    assert_eq!(fault(|o| o.owner_pid = 101), "invalid watcher state path");
}

#[test]
fn tokens_are_random_and_valid() {
    let one = random_hex(16).unwrap();
    let two = random_hex(16).unwrap();
    assert!(token_is_valid(&one));
    assert_ne!(one, two);
    assert_ne!(one, "0".repeat(32));
    assert_eq!(random_hex(6).unwrap().len(), 12);
    assert_eq!(random_hex(0).unwrap(), "");
    assert_eq!(hex(&vec![0, 9, 10, 159, 255]), "00090a9fff");
}

#[test]
fn processes_are_numbered() {
    assert_eq!(process_number(7).unwrap(), 7);
    assert_eq!(
        process_number(-1).unwrap_err().message,
        u32::try_from(-1_i32).unwrap_err().to_string()
    );
    assert_eq!(signal_number(7).unwrap(), 7);
    assert_eq!(
        signal_number(u32::MAX).unwrap_err().message,
        i32::try_from(u32::MAX).unwrap_err().to_string()
    );
    assert_eq!(start_marker_request(7), ["-p", "7", "-o", "lstart="]);
    assert_eq!(process_command_request(7), ["-ww", "-p", "7", "-o", "command="]);
}

#[test]
fn owners_are_checked() {
    assert!(check_owner("Mon").is_ok());
    assert_eq!(check_owner("").unwrap_err().message, "could not identify the owning shell");
    assert_eq!(
        already_watching(&state()).message,
        "this shell already owns watcher \"backup\"; run rz --watch-status"
    );
    assert_eq!(watch_state_path("/w", 100), "/w/shell-100.json");
    assert_eq!(watch_log_path("/w", 100), "/w/shell-100.log");
    assert_eq!(
        save_arguments(&options()),
        ["--save", "backup", "--no-scrollback", "--window-id", "window"]
    );
}

#[test]
fn watchers_are_reported() {
    assert_eq!(
        started_report(&options(), "/w/watch.log"),
        [
            "NAME         backup",
            "EVERY        15m",
            "SCOPE        bound to Ghostty window window",
            "MODE         fast snapshots; scrollback skipped",
            "OWNER        shell PID 100; watcher stops when this shell exits",
            "LOG          /w/watch.log",
        ]
    );
    assert_eq!(
        status_report(&state()),
        [
            "STATUS       running",
            "NAME         backup",
            "EVERY        15m",
            "SCOPE        Ghostty window window",
            "WORKER       PID 200",
            "STARTED      2026-07-20 12:00:00 +03:00",
            "LAST SAVE    pending",
            "SNAPSHOT     pending",
            "NEXT SAVE    pending",
            "LAST ERROR   none",
            "LOG          /w/watch.log",
        ]
    );
    assert_eq!(stopping_report(&state()), ["WORKER       PID 200", "LOG          /w/watch.log"]);
    assert_eq!(stopped_report(&state()), ["NAME         backup", "WORKER       PID 200"]);
    let state = state();
    assert_eq!((state.version, state.scope.as_str()), (1, "current-window"));
    assert_eq!((state.owner_pid, state.worker_pid), (100, 200));
}

#[test]
fn watchers_are_asked_about() {
    let none = watch_status(&None);
    assert_eq!(none.title, "WATCHER STATUS");
    assert_eq!(none.lines, ["No active watcher belongs to this shell."]);
    assert_eq!(watch_status(&Some(state())).lines, status_report(&state()));
    let none = stop_watch(&None, true);
    assert_eq!(none.title, "WATCHER STOPPED");
    assert_eq!(none.lines, ["No active watcher belonged to this shell."]);
    let asked = stop_watch(&Some(state()), true);
    assert_eq!(asked.title, "WATCHER STOP REQUESTED");
    assert_eq!(asked.lines, stopping_report(&state()));
    let gone = stop_watch(&Some(state()), false);
    assert_eq!(gone.title, "WATCHER STOPPED");
    assert_eq!(gone.lines, stopped_report(&state()));
}

#[test]
fn started_workers_accept_what_they_are_told() {
    for scope in [WatchScope::CurrentWindow, WatchScope::AllWindows] {
        let asked = WatchOptions { name: "backup".into(), interval_seconds: 10, scope };
        let token = random_hex(16).unwrap();
        let told = worker_options("/w", &asked, &token, 7, "start", "window");
        assert!(validate_worker("/w", &told).is_ok());
        assert_eq!(told.window_id.is_some(), scope == WatchScope::CurrentWindow);
        assert_eq!(told.state_path, "/w/shell-7.json");
    }
}

#[test]
fn stopping_workers_are_waited_for() {
    assert_eq!((STOP_PATIENCE, STOP_SLEEP), (5_000_000_000, 100_000_000));
    assert_eq!(stop_step(true, Some(1)), StopAction::Sleep(STOP_SLEEP));
    assert_eq!(stop_step(true, Some(0)), StopAction::Done);
    assert_eq!(stop_step(true, None), StopAction::Done);
    assert_eq!(stop_step(false, Some(1)), StopAction::Done);
}

#[test]
fn attempts_follow_after_the_interval() {
    let completed = Moment { seconds: 1_000, nanos: 7, offset: 3_600 };
    let at = |seconds: i64| Moment { seconds, ..completed };
    assert_eq!(next_attempt(completed, 900), at(1_900));
    assert_eq!(next_attempt(completed, u64::MAX), at(999));
    assert_eq!(next_attempt(completed, 9_223_372_036_854_775_808), at(1_000 + i64::MIN));
}
