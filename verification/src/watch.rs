//! Watchers: a worker that saves again and again while its shell lives.
use vstd::prelude::*;
use vstd::string::*;

use crate::cli::{
    Amount, CommandModel, MINIMUM_WATCH_INTERVAL, SaveModel, WHOLE_LIMIT, WatchOptions,
    WatchOptionsModel, WatchScope, WorkerModel, WorkerOptions, command_of, interval_of, save_from,
    scope_name, watchers_are_not_too_fast, whole_intervals_read_back, worker_of,
};
use crate::clock::{Moment, display_time, shown_time};
use crate::error::{Error, debug_text, quoted};
use crate::model::{WatchModel, WatchState};
use crate::number::{decimal, decimal_reads_back, decimal_text};
use crate::path::{below, join_path, same_path, same_place};
use crate::pattern::is_name;
use crate::random::{all_hex, hex_text, hex_text_is_hex};
use crate::report::{name_fault, scope_summary, scope_text, validate_name};
use crate::store::{Report, ReportModel};
use crate::text::{
    char_is_hex, chars_of, contains, copy_optional, is_hex, lower, mentions, optional_text,
    push_text, same, texts,
};
use crate::ui::{label_line, labeled};

verus! {

// ---------------------------------------------------------------------------
// Words
// ---------------------------------------------------------------------------
/// An interval in the largest unit of which it is a whole number.
pub open spec fn interval_text(seconds: nat) -> Seq<char> {
    if seconds % 3_600 == 0 {
        decimal(seconds / 3_600) + "h"@
    } else if seconds % 60 == 0 {
        decimal(seconds / 60) + "m"@
    } else {
        decimal(seconds) + "s"@
    }
}

/// An interval in the largest unit of which it is a whole number.
pub fn display_interval(seconds: u64) -> (r: String)
    ensures
        r@ == interval_text(seconds as nat),
{
    if seconds % 3_600 == 0 {
        let mut r = decimal_text(seconds / 3_600);
        r.append("h");
        r
    } else if seconds % 60 == 0 {
        let mut r = decimal_text(seconds / 60);
        r.append("m");
        r
    } else {
        let mut r = decimal_text(seconds);
        r.append("s");
        r
    }
}

/// An interval that is displayed is read back from the command line, whatever is
/// computed besides.
pub proof fn displayed_intervals_read_back(seconds: u64, computed: Option<u64>)
    requires
        MINIMUM_WATCH_INTERVAL <= seconds < WHOLE_LIMIT,
    ensures
        interval_of(interval_text(seconds as nat), computed) == Ok::<u64, Seq<char>>(seconds),
{
    reveal_strlit("h");
    reveal_strlit("m");
    reveal_strlit("s");
    assert(lower("h"@) =~= "h"@);
    assert(lower("m"@) =~= "m"@);
    assert(lower("s"@) =~= "s"@);
    assert("h"@[0] == 'h' && "m"@[0] == 'm' && "s"@[0] == 's');
    reveal_strlit("");
    if seconds % 3_600 == 0 {
        whole_intervals_read_back(seconds as nat / 3_600, "h"@, 3_600, computed);
    } else if seconds % 60 == 0 {
        whole_intervals_read_back(seconds as nat / 60, "m"@, 60, computed);
    } else {
        whole_intervals_read_back(seconds as nat, "s"@, 1, computed);
    }
}

/// A file of the watcher that the shell `owner_pid` owns.
pub open spec fn watcher_file(watchers_dir: Seq<char>, owner_pid: u32, ending: Seq<char>) -> Seq<
    char,
> {
    below(watchers_dir, "shell-"@ + decimal(owner_pid as nat) + ending)
}

/// Where the state of a watcher stands.
pub open spec fn state_path_of(watchers_dir: Seq<char>, owner_pid: u32) -> Seq<char> {
    watcher_file(watchers_dir, owner_pid, ".json"@)
}

/// Where the log of a watcher stands.
pub open spec fn log_path_of(watchers_dir: Seq<char>, owner_pid: u32) -> Seq<char> {
    watcher_file(watchers_dir, owner_pid, ".log"@)
}

/// A file of the watcher that the shell `owner_pid` owns.
fn watcher_path(watchers_dir: &str, owner_pid: u32, ending: &str) -> (r: String)
    ensures
        r@ == watcher_file(watchers_dir@, owner_pid, ending@),
{
    let mut name = "shell-".to_owned();
    name.append(decimal_text(owner_pid as u64).as_str());
    name.append(ending);
    join_path(watchers_dir, name.as_str())
}

/// Where the state of a watcher stands.
pub fn watch_state_path(watchers_dir: &str, owner_pid: u32) -> (r: String)
    ensures
        r@ == state_path_of(watchers_dir@, owner_pid),
{
    watcher_path(watchers_dir, owner_pid, ".json")
}

/// Where the log of a watcher stands.
pub fn watch_log_path(watchers_dir: &str, owner_pid: u32) -> (r: String)
    ensures
        r@ == log_path_of(watchers_dir@, owner_pid),
{
    watcher_path(watchers_dir, owner_pid, ".log")
}

// ---------------------------------------------------------------------------
// Processes
// ---------------------------------------------------------------------------
/// The number of a process that the system gave.
pub fn process_number(raw: i32) -> (r: Result<u32, Error>)
    ensures
        match r {
            Ok(pid) => raw >= 0 && pid == raw,
            Err(e) => raw < 0 && e@ == "out of range integral type conversion attempted"@,
        },
{
    if raw < 0 {
        Err(Error::from_text("out of range integral type conversion attempted"))
    } else {
        Ok(raw as u32)
    }
}

/// The number of a process as the system wants it.
pub fn signal_number(pid: u32) -> (r: Result<i32, Error>)
    ensures
        match r {
            Ok(raw) => pid <= i32::MAX && raw == pid,
            Err(e) => pid > i32::MAX && e@ == "out of range integral type conversion attempted"@,
        },
{
    if pid > 0x7fff_ffff {
        Err(Error::from_text("out of range integral type conversion attempted"))
    } else {
        Ok(pid as i32)
    }
}

/// The arguments with which `ps` tells when a process was started.
pub fn start_marker_request(pid: u32) -> (r: Vec<String>)
    ensures
        texts(r@) == seq!["-p"@, decimal(pid as nat), "-o"@, "lstart="@],
{
    let r = vec![
        "-p".to_owned(),
        decimal_text(pid as u64),
        "-o".to_owned(),
        "lstart=".to_owned(),
    ];
    assert(texts(r@) =~= seq!["-p"@, decimal(pid as nat), "-o"@, "lstart="@]);
    r
}

/// The arguments with which `ps` tells the command of a process.
pub fn process_command_request(pid: u32) -> (r: Vec<String>)
    ensures
        texts(r@) == seq!["-ww"@, "-p"@, decimal(pid as nat), "-o"@, "command="@],
{
    let r = vec![
        "-ww".to_owned(),
        "-p".to_owned(),
        decimal_text(pid as u64),
        "-o".to_owned(),
        "command=".to_owned(),
    ];
    assert(texts(r@) =~= seq!["-ww"@, "-p"@, decimal(pid as nat), "-o"@, "command="@]);
    r
}

/// Whether the shell that owns a watcher lives: there is a process with its number,
/// and it was started when the shell was.
pub open spec fn owner_lives(alive: bool, marker: Seq<char>, started_at: Seq<char>) -> bool {
    alive && marker == started_at
}

/// Whether a watcher lives: its shell lives, and the worker's process has the
/// watcher's token in its command.
pub open spec fn watcher_lives(
    owner: bool,
    worker: bool,
    worker_command: Seq<char>,
    token: Seq<char>,
) -> bool {
    owner && worker && contains(worker_command, token)
}

/// Whether the shell that owns a watcher lives.
pub fn owner_alive(alive: bool, marker: &str, started_at: &str) -> (r: bool)
    ensures
        r == owner_lives(alive, marker@, started_at@),
{
    alive && same(marker, started_at)
}

/// Whether a watcher lives.
pub fn watcher_alive(state: &WatchState, owner: bool, worker: bool, worker_command: &str) -> (r:
    bool)
    ensures
        r == watcher_lives(owner, worker, worker_command@, state@.token),
{
    owner && worker && mentions(worker_command, state.token.as_str())
}

/// Fails where it cannot be told when the shell was started.
pub fn check_owner(marker: &str) -> (r: Result<(), Error>)
    ensures
        match r {
            Ok(_) => marker@.len() > 0,
            Err(e) => marker@.len() == 0 && e@ == "could not identify the owning shell"@,
        },
{
    if marker.is_empty() {
        Err(Error::from_text("could not identify the owning shell"))
    } else {
        Ok(())
    }
}

/// The failure for a shell that owns a watcher already.
pub fn already_watching(state: &WatchState) -> (r: Error)
    ensures
        r@ == "this shell already owns watcher "@ + debug_text(state@.name)
            + "; run rz --watch-status"@,
{
    let mut message = "this shell already owns watcher ".to_owned();
    message.append(quoted(state.name.as_str()).as_str());
    message.append("; run rz --watch-status");
    Error::new(message)
}

// ---------------------------------------------------------------------------
// What the worker is told
// ---------------------------------------------------------------------------
/// What a worker is told that saves as `options` ask. A watcher of the current
/// window is bound to the window in front; `window` is that window.
pub open spec fn worker_for(
    watchers_dir: Seq<char>,
    options: WatchOptionsModel,
    token: Seq<char>,
    owner_pid: u32,
    owner_started_at: Seq<char>,
    window: Seq<char>,
) -> WorkerModel {
    WorkerModel {
        token,
        name: options.name,
        interval_seconds: options.interval_seconds,
        owner_pid,
        owner_started_at,
        scope: options.scope,
        window_id: match options.scope {
            WatchScope::CurrentWindow => Some(window),
            WatchScope::AllWindows => None,
        },
        state_path: state_path_of(watchers_dir, owner_pid),
    }
}

/// What a worker is told that saves as `options` ask. `window` is the window in
/// front, which only a watcher of the current window needs.
pub fn worker_options(
    watchers_dir: &str,
    options: &WatchOptions,
    token: &str,
    owner_pid: u32,
    owner_started_at: &str,
    window: &str,
) -> (r: WorkerOptions)
    ensures
        r@ == worker_for(
            watchers_dir@,
            options@,
            token@,
            owner_pid,
            owner_started_at@,
            window@,
        ),
{
    WorkerOptions {
        token: token.to_owned(),
        name: options.name.clone(),
        interval_seconds: options.interval_seconds,
        owner_pid,
        owner_started_at: owner_started_at.to_owned(),
        scope: options.scope,
        window_id: match options.scope {
            WatchScope::CurrentWindow => Some(window.to_owned()),
            WatchScope::AllWindows => None,
        },
        state_path: watch_state_path(watchers_dir, owner_pid),
    }
}

/// The arguments with which a worker is started.
pub open spec fn worker_arguments_for(options: WorkerModel) -> Seq<Seq<char>> {
    seq![
        "--watch-worker"@,
        options.token,
        options.name,
        decimal(options.interval_seconds as nat),
        decimal(options.owner_pid as nat),
        options.owner_started_at,
        scope_name(options.scope),
        match options.window_id {
            Some(id) => id,
            None => "-"@,
        },
        options.state_path,
    ]
}

/// How the scope of a watcher is written.
pub fn scope_word(scope: WatchScope) -> (r: String)
    ensures
        r@ == scope_name(scope),
{
    match scope {
        WatchScope::CurrentWindow => "current-window".to_owned(),
        WatchScope::AllWindows => "all-windows".to_owned(),
    }
}

/// The arguments with which a worker is started.
pub fn worker_arguments(options: &WorkerOptions) -> (r: Vec<String>)
    ensures
        texts(r@) == worker_arguments_for(options@),
{
    let window = match &options.window_id {
        Some(id) => id.clone(),
        None => "-".to_owned(),
    };
    let r = vec![
        "--watch-worker".to_owned(),
        options.token.clone(),
        options.name.clone(),
        decimal_text(options.interval_seconds),
        decimal_text(options.owner_pid as u64),
        options.owner_started_at.clone(),
        scope_word(options.scope),
        window,
        options.state_path.clone(),
    ];
    assert(texts(r@) =~= worker_arguments_for(options@));
    r
}

/// A worker reads from its arguments what it was told. The one exception is a window
/// whose identifier is the word that stands for none.
pub proof fn worker_arguments_read_back(options: WorkerModel, amounts: Seq<Amount>)
    requires
        options.window_id != Some("-"@),
    ensures
        command_of(worker_arguments_for(options), amounts) == Ok::<CommandModel, Seq<char>>(
            CommandModel::WatchWorker(options),
        ),
{
    let args = worker_arguments_for(options);
    let rest = args.skip(1);
    reveal_strlit("--watch-worker");
    reveal_strlit("--save");
    reveal_strlit("--watch");
    assert("--watch-worker"@.len() == 14 && "--save"@.len() == 6 && "--watch"@.len() == 7);
    reveal_strlit("current-window");
    reveal_strlit("all-windows");
    assert("current-window"@.len() == 14 && "all-windows"@.len() == 11);
    decimal_reads_back(options.interval_seconds as nat, u64::MAX as nat);
    decimal_reads_back(options.owner_pid as nat, u32::MAX as nat);
    assert forall|k: int| 0 <= k < 8 implies #[trigger] rest[k] == args[k + 1] by {}
    assert(worker_of(rest) == Ok::<WorkerModel, Seq<char>>(options));
}

/// The arguments with which a worker saves.
pub open spec fn save_arguments_for(name: Seq<char>, window_id: Option<Seq<char>>) -> Seq<
    Seq<char>,
> {
    seq!["--save"@, name, "--no-scrollback"@] + match window_id {
        Some(id) => seq!["--window-id"@, id],
        None => Seq::empty(),
    }
}

/// The arguments with which a worker saves.
pub fn save_arguments(options: &WorkerOptions) -> (r: Vec<String>)
    ensures
        texts(r@) == save_arguments_for(options@.name, options@.window_id),
{
    let mut r = vec!["--save".to_owned(), options.name.clone(), "--no-scrollback".to_owned()];
    if let Some(id) = &options.window_id {
        r.push("--window-id".to_owned());
        r.push(id.clone());
    }
    assert(texts(r@) =~= save_arguments_for(options@.name, options@.window_id));
    r
}

/// A worker saves under its name, without scrollback, and the window that it is
/// bound to or else all of them.
pub proof fn worker_saves_what_it_watches(
    name: Seq<char>,
    window_id: Option<Seq<char>>,
    amounts: Seq<Amount>,
)
    ensures
        command_of(save_arguments_for(name, window_id), amounts) == Ok::<CommandModel, Seq<char>>(
            CommandModel::Save(
                SaveModel { name, capture_scrollback: false, current_window: false, window_id },
            ),
        ),
{
    let args = save_arguments_for(name, window_id);
    let rest = args.skip(1);
    reveal_strlit("--window-id");
    reveal_strlit("--no-scrollback");
    reveal_strlit("--current-window");
    assert("--window-id"@.len() == 11 && "--no-scrollback"@.len() == 15 && "--current-window"@.len()
        == 16);
    let start = SaveModel {
        name,
        capture_scrollback: true,
        current_window: false,
        window_id: None,
    };
    let fast = SaveModel { capture_scrollback: false, ..start };
    assert(rest[0] == name);
    assert(rest[1] == "--no-scrollback"@);
    assert(save_from(rest, 1, start) == save_from(rest, 2, fast));
    match window_id {
        Some(id) => {
            let bound = SaveModel { window_id: Some(id), ..fast };
            assert(rest.len() == 4);
            assert(rest[2] == "--window-id"@ && rest[3] == id);
            assert(save_from(rest, 2, fast) == save_from(rest, 4, bound));
        },
        None => {
            assert(rest.len() == 2);
        },
    }
}

/// Whether `token` can be one: 32 hexadecimal digits.
pub open spec fn is_token(token: Seq<char>) -> bool {
    token.len() == 32 && all_hex(token)
}

/// What is wrong with what a worker was told.
pub open spec fn worker_fault(watchers_dir: Seq<char>, options: WorkerModel) -> Option<Seq<char>> {
    if !is_name(options.name) {
        Some(name_fault(options.name))
    } else if !is_token(options.token) {
        Some("invalid watcher token"@)
    } else if options.interval_seconds < MINIMUM_WATCH_INTERVAL {
        Some("invalid watcher interval"@)
    } else if options.scope == WatchScope::CurrentWindow && options.window_id is None {
        Some("current-window watcher is missing its bound window ID"@)
    } else if options.scope == WatchScope::AllWindows && options.window_id is Some {
        Some("all-windows watcher cannot have a bound window ID"@)
    } else if !same_place(options.state_path, state_path_of(watchers_dir, options.owner_pid)) {
        Some("invalid watcher state path"@)
    } else {
        None
    }
}

/// Whether `token` can be one.
pub fn token_is_valid(token: &str) -> (r: bool)
    ensures
        r == is_token(token@),
{
    let chars = chars_of(token);
    if chars.len() != 32 {
        return false;
    }
    let mut i: usize = 0;
    while i < chars.len()
        invariant
            chars@ == token@,
            i <= chars@.len(),
            chars@.len() == 32,
            forall|k: int| 0 <= k < i ==> is_hex(#[trigger] chars@[k]),
        decreases chars@.len() - i,
    {
        if !char_is_hex(chars[i]) {
            assert(!is_hex(token@[i as int]));
            return false;
        }
        i = i + 1;
    }
    true
}

/// Fails where a worker was told something that cannot be.
pub fn validate_worker(watchers_dir: &str, options: &WorkerOptions) -> (r: Result<(), Error>)
    ensures
        match r {
            Ok(_) => worker_fault(watchers_dir@, options@) is None,
            Err(e) => worker_fault(watchers_dir@, options@) == Some(e@),
        },
{
    match validate_name(options.name.as_str()) {
        Ok(_) => {},
        Err(e) => return Err(e),
    }
    if !token_is_valid(options.token.as_str()) {
        return Err(Error::from_text("invalid watcher token"));
    }
    if options.interval_seconds < MINIMUM_WATCH_INTERVAL {
        return Err(Error::from_text("invalid watcher interval"));
    }
    match (options.scope, options.window_id.is_some()) {
        (WatchScope::CurrentWindow, false) => {
            return Err(Error::from_text("current-window watcher is missing its bound window ID"));
        },
        (WatchScope::AllWindows, true) => {
            return Err(Error::from_text("all-windows watcher cannot have a bound window ID"));
        },
        _ => {},
    }
    let expected = watch_state_path(watchers_dir, options.owner_pid);
    if !same_path(options.state_path.as_str(), expected.as_str()) {
        return Err(Error::from_text("invalid watcher state path"));
    }
    Ok(())
}

/// A watcher that the command line asks for, under an accepted name and with a token
/// of 16 bytes, has a worker that accepts what it was told.
pub proof fn started_worker_is_accepted(
    watchers_dir: Seq<char>,
    args: Seq<Seq<char>>,
    amounts: Seq<Amount>,
    options: WatchOptionsModel,
    token_bytes: Seq<u8>,
    owner_pid: u32,
    owner_started_at: Seq<char>,
    window: Seq<char>,
)
    requires
        command_of(args, amounts) == Ok::<CommandModel, Seq<char>>(
            CommandModel::StartWatch(options),
        ),
        is_name(options.name),
        token_bytes.len() == 16,
    ensures
        worker_fault(
            watchers_dir,
            worker_for(
                watchers_dir,
                options,
                hex_text(token_bytes),
                owner_pid,
                owner_started_at,
                window,
            ),
        ) is None,
{
    hex_text_is_hex(token_bytes);
    watchers_are_not_too_fast(args, amounts);
}

// ---------------------------------------------------------------------------
// What the worker writes down
// ---------------------------------------------------------------------------
/// What is written down about a worker that has been started.
pub open spec fn initial_state_of(
    options: WorkerModel,
    worker_pid: u32,
    started_at: Seq<char>,
    log_path: Seq<char>,
) -> WatchModel {
    WatchModel {
        version: 1,
        token: options.token,
        name: options.name,
        interval_seconds: options.interval_seconds,
        scope: scope_name(options.scope),
        window_id: options.window_id,
        owner_pid: options.owner_pid,
        owner_started_at: options.owner_started_at,
        worker_pid,
        started_at,
        log_path,
        last_attempt_at: None,
        last_success_at: None,
        last_snapshot_id: None,
        next_attempt_at: None,
        last_error: None,
    }
}

/// What is written down about a worker that has been started.
pub fn initial_state(options: &WorkerOptions, worker_pid: u32, started_at: &str, log_path: &str) -> (r:
    WatchState)
    ensures
        r@ == initial_state_of(options@, worker_pid, started_at@, log_path@),
{
    WatchState {
        version: 1,
        token: options.token.clone(),
        name: options.name.clone(),
        interval_seconds: options.interval_seconds,
        scope: scope_word(options.scope),
        window_id: copy_optional(&options.window_id),
        owner_pid: options.owner_pid,
        owner_started_at: options.owner_started_at.clone(),
        worker_pid,
        started_at: started_at.to_owned(),
        log_path: log_path.to_owned(),
        last_attempt_at: None,
        last_success_at: None,
        last_snapshot_id: None,
        next_attempt_at: None,
        last_error: None,
    }
}

/// The state, where there is one.
pub open spec fn state_view(state: Option<WatchState>) -> Option<WatchModel> {
    match state {
        Some(state) => Some(state@),
        None => None,
    }
}

/// Whether the state that is written down is that of the watcher with the token.
pub open spec fn belongs(state: Option<WatchModel>, token: Seq<char>) -> bool {
    match state {
        Some(state) => state.token == token,
        None => false,
    }
}

/// Whether the state that is written down is that of the watcher with the token.
/// Only then is it changed or removed.
pub fn state_belongs(state: &Option<WatchState>, token: &str) -> (r: bool)
    ensures
        r == belongs(state_view(*state), token@),
{
    match state {
        Some(state) => same(state.token.as_str(), token),
        None => false,
    }
}

/// The state once an attempt begins.
pub open spec fn begun(state: WatchModel, now: Seq<char>) -> WatchModel {
    WatchModel { last_attempt_at: Some(now), last_error: None, ..state }
}

/// The state once an attempt has ended.
pub open spec fn ended(
    state: WatchModel,
    success: bool,
    now: Seq<char>,
    next: Seq<char>,
    newest: Option<Seq<char>>,
) -> WatchModel {
    if success {
        WatchModel {
            last_success_at: Some(now),
            last_snapshot_id: newest,
            last_error: None,
            next_attempt_at: Some(next),
            ..state
        }
    } else {
        WatchModel {
            last_error: Some("save failed at "@ + now + "; see watcher log"@),
            next_attempt_at: Some(next),
            ..state
        }
    }
}

/// What is written down when an attempt begins at `now`: nothing, where the state
/// is not that of the watcher with the token.
pub fn begin_attempt(state: Option<WatchState>, token: &str, now: &str) -> (r: Option<WatchState>)
    ensures
        state_view(r) == if belongs(state_view(state), token@) {
            Some(begun(state->0@, now@))
        } else {
            None
        },
{
    if !state_belongs(&state, token) {
        return None;
    }
    match state {
        Some(state) => {
            let mut state = state;
            state.last_attempt_at = Some(now.to_owned());
            state.last_error = None;
            Some(state)
        },
        None => None,
    }
}

/// What is written down when an attempt has ended at `now`, with the next one at
/// `next`: nothing, where the state is not that of the watcher with the token.
/// `newest` is the newest snapshot with the watcher's name.
pub fn end_attempt(
    state: Option<WatchState>,
    token: &str,
    success: bool,
    now: &str,
    next: &str,
    newest: Option<String>,
) -> (r: Option<WatchState>)
    ensures
        state_view(r) == if belongs(state_view(state), token@) {
            Some(ended(state->0@, success, now@, next@, optional_text(newest)))
        } else {
            None
        },
{
    if !state_belongs(&state, token) {
        return None;
    }
    match state {
        Some(state) => {
            let mut state = state;
            if success {
                state.last_success_at = Some(now.to_owned());
                state.last_snapshot_id = newest;
                state.last_error = None;
            } else {
                let mut message = "save failed at ".to_owned();
                message.append(now);
                message.append("; see watcher log");
                state.last_error = Some(message);
            }
            state.next_attempt_at = Some(next.to_owned());
            Some(state)
        },
        None => None,
    }
}

/// An attempt changes neither whose state it is nor what it watches, and a failed
/// one leaves what is known of the last success.
pub proof fn attempts_keep_the_watcher(
    state: WatchModel,
    success: bool,
    start: Seq<char>,
    now: Seq<char>,
    next: Seq<char>,
    newest: Option<Seq<char>>,
)
    ensures
        ({
            let after = ended(begun(state, start), success, now, next, newest);
            &&& belongs(Some(after), state.token)
            &&& after.name == state.name
            &&& after.interval_seconds == state.interval_seconds
            &&& after.scope == state.scope
            &&& after.window_id == state.window_id
            &&& after.owner_pid == state.owner_pid
            &&& after.owner_started_at == state.owner_started_at
            &&& after.worker_pid == state.worker_pid
            &&& after.started_at == state.started_at
            &&& after.last_attempt_at == Some(start)
            &&& after.next_attempt_at == Some(next)
            &&& success ==> after.last_error is None && after.last_success_at == Some(now)
            &&& !success ==> after.last_error is Some && after.last_success_at
                == state.last_success_at && after.last_snapshot_id == state.last_snapshot_id
        }),
{
}

// ---------------------------------------------------------------------------
// What the worker does next
// ---------------------------------------------------------------------------
/// Whether a worker is about to save, or waits until the next time.
#[derive(Debug, Clone, Copy, PartialEq, Eq, Structural)]
pub enum WorkerPhase {
    Ready,
    Waiting,
}

/// What a worker does.
#[derive(Debug, Clone, Copy, PartialEq, Eq, Structural)]
pub enum WorkerAction {
    /// Save, and write down how it went.
    Attempt,
    /// Sleep for this many nanoseconds.
    Sleep(u128),
    /// Look again at once.
    Look,
    /// End.
    Exit,
}

/// The longest sleep of a worker, in nanoseconds: five seconds.
pub const LONGEST_SLEEP: u128 = 5_000_000_000;

/// What a worker does next: it ends once it was asked to, or its shell is gone;
/// else it saves, and then sleeps, for five seconds at most each time, until none
/// of the interval remains. `remaining` is in nanoseconds.
pub open spec fn next_step(
    phase: WorkerPhase,
    stop_requested: bool,
    owner: bool,
    remaining: Option<u128>,
) -> (WorkerPhase, WorkerAction) {
    if stop_requested || !owner {
        (phase, WorkerAction::Exit)
    } else {
        match phase {
            WorkerPhase::Ready => (WorkerPhase::Waiting, WorkerAction::Attempt),
            WorkerPhase::Waiting => match remaining {
                None => (WorkerPhase::Ready, WorkerAction::Look),
                Some(n) => (
                    WorkerPhase::Waiting,
                    WorkerAction::Sleep(
                        if n < LONGEST_SLEEP {
                            n
                        } else {
                            LONGEST_SLEEP
                        },
                    ),
                ),
            },
        }
    }
}

/// What a worker does next.
pub fn worker_step(
    phase: WorkerPhase,
    stop_requested: bool,
    owner: bool,
    remaining: Option<u128>,
) -> (r: (WorkerPhase, WorkerAction))
    ensures
        r == next_step(phase, stop_requested, owner, remaining),
{
    if stop_requested || !owner {
        return (phase, WorkerAction::Exit);
    }
    match phase {
        WorkerPhase::Ready => (WorkerPhase::Waiting, WorkerAction::Attempt),
        WorkerPhase::Waiting => match remaining {
            None => (WorkerPhase::Ready, WorkerAction::Look),
            Some(n) => {
                let sleep: u128 = if n < LONGEST_SLEEP {
                    n
                } else {
                    LONGEST_SLEEP
                };
                (WorkerPhase::Waiting, WorkerAction::Sleep(sleep))
            },
        },
    }
}

/// A watcher stops when its owning shell exits or it is asked to stop, whatever it
/// was doing, and for no other reason; and it never sleeps longer than five seconds
/// before it looks again.
pub proof fn watcher_stops_with_its_shell(
    phase: WorkerPhase,
    stop_requested: bool,
    owner: bool,
    remaining: Option<u128>,
)
    ensures
        next_step(phase, stop_requested, owner, remaining).1 == WorkerAction::Exit <==> (
        stop_requested || !owner),
        next_step(phase, stop_requested, owner, remaining).1 matches WorkerAction::Sleep(n) ==> n
            <= LONGEST_SLEEP,
{
}

/// Between two attempts of a worker the whole interval passes: it becomes ready to
/// save again only when nothing of the interval remains.
pub proof fn attempts_are_an_interval_apart(
    phase: WorkerPhase,
    stop_requested: bool,
    owner: bool,
    remaining: Option<u128>,
)
    ensures
        ({
            let (after, action) = next_step(phase, stop_requested, owner, remaining);
            &&& action == WorkerAction::Attempt ==> phase == WorkerPhase::Ready && after
                == WorkerPhase::Waiting
            &&& phase == WorkerPhase::Waiting && after == WorkerPhase::Ready ==> remaining is None
        }),
{
}

/// An interval as a span of time: beyond the range of `i64` it wraps around.
pub open spec fn interval_span(interval_seconds: u64) -> int {
    if interval_seconds <= i64::MAX {
        interval_seconds as int
    } else {
        interval_seconds - 0x1_0000_0000_0000_0000
    }
}

/// When the next attempt is due: the interval after the last one was completed.
pub fn next_attempt(completed: Moment, interval_seconds: u64) -> (r: Moment)
    requires
        i64::MIN <= completed.seconds + interval_span(interval_seconds) <= i64::MAX,
    ensures
        r.seconds == completed.seconds + interval_span(interval_seconds),
        r.nanos == completed.nanos,
        r.offset == completed.offset,
{
    let span: i64 = if interval_seconds <= 0x7fff_ffff_ffff_ffffu64 {
        interval_seconds as i64
    } else {
        -((u64::MAX - interval_seconds) as i64) - 1
    };
    Moment { seconds: completed.seconds + span, nanos: completed.nanos, offset: completed.offset }
}

// ---------------------------------------------------------------------------
// Waiting for a worker to stop
// ---------------------------------------------------------------------------
/// How long a worker that was asked to stop is waited for, in nanoseconds: five
/// seconds.
pub const STOP_PATIENCE: u64 = 5_000_000_000;

/// How long the wait for a worker sleeps between two looks, in nanoseconds: a tenth
/// of a second.
pub const STOP_SLEEP: u64 = 100_000_000;

/// What is done while a worker that was asked to stop is waited for.
#[derive(Debug, Clone, Copy, PartialEq, Eq, Structural)]
pub enum StopAction {
    /// Wait no longer.
    Done,
    /// Sleep for this many nanoseconds, and look again.
    Sleep(u64),
}

/// What is done next while a worker is waited for. `remaining` is what is left of
/// the patience, in nanoseconds: the wait is over once the worker is gone or nothing
/// is left.
pub open spec fn next_stop_step(alive: bool, remaining: Option<u128>) -> StopAction {
    match remaining {
        Some(n) => if alive && n > 0 {
            StopAction::Sleep(STOP_SLEEP)
        } else {
            StopAction::Done
        },
        None => StopAction::Done,
    }
}

/// What is done next while a worker is waited for.
pub fn stop_step(alive: bool, remaining: Option<u128>) -> (r: StopAction)
    ensures
        r == next_stop_step(alive, remaining),
        r == StopAction::Done <==> !alive || remaining is None || remaining == Some(0u128),
{
    match remaining {
        Some(n) => if alive && n > 0 {
            StopAction::Sleep(STOP_SLEEP)
        } else {
            StopAction::Done
        },
        None => StopAction::Done,
    }
}

// ---------------------------------------------------------------------------
// Reports
// ---------------------------------------------------------------------------
/// What is told when a watcher has been started.
pub open spec fn started_lines(options: WorkerModel, log_path: Seq<char>) -> Seq<Seq<char>> {
    seq![
        label_line("NAME"@, options.name),
        label_line("EVERY"@, interval_text(options.interval_seconds as nat)),
        label_line(
            "SCOPE"@,
            match options.window_id {
                Some(id) => "bound to Ghostty window "@ + id,
                None => "all Ghostty windows"@,
            },
        ),
        label_line("MODE"@, "fast snapshots; scrollback skipped"@),
        label_line(
            "OWNER"@,
            "shell PID "@ + decimal(options.owner_pid as nat)
                + "; watcher stops when this shell exits"@,
        ),
        label_line("LOG"@, log_path),
    ]
}

/// What is told when a watcher has been started.
pub fn started_report(options: &WorkerOptions, log_path: &str) -> (r: Vec<String>)
    ensures
        texts(r@) == started_lines(options@, log_path@),
{
    let scope = match &options.window_id {
        Some(id) => {
            let mut scope = "bound to Ghostty window ".to_owned();
            scope.append(id.as_str());
            scope
        },
        None => "all Ghostty windows".to_owned(),
    };
    let mut owner = "shell PID ".to_owned();
    owner.append(decimal_text(options.owner_pid as u64).as_str());
    owner.append("; watcher stops when this shell exits");
    let mut lines: Vec<String> = Vec::new();
    push_text(&mut lines, labeled("NAME", options.name.as_str()));
    push_text(&mut lines, labeled("EVERY", display_interval(options.interval_seconds).as_str()));
    push_text(&mut lines, labeled("SCOPE", scope.as_str()));
    push_text(&mut lines, labeled("MODE", "fast snapshots; scrollback skipped"));
    push_text(&mut lines, labeled("OWNER", owner.as_str()));
    push_text(&mut lines, labeled("LOG", log_path));
    assert(texts(lines@) =~= started_lines(options@, log_path@));
    lines
}

/// A time, or that it is still to come.
pub open spec fn time_or_pending(time: Option<Seq<char>>) -> Seq<char> {
    match time {
        Some(text) => shown_time(text),
        None => "pending"@,
    }
}

/// A text, or another in its place.
pub open spec fn text_or(text: Option<Seq<char>>, other: Seq<char>) -> Seq<char> {
    match text {
        Some(text) => text,
        None => other,
    }
}

/// What is told about a watcher that runs.
pub open spec fn status_lines(state: WatchModel) -> Seq<Seq<char>> {
    seq![
        label_line("STATUS"@, "running"@),
        label_line("NAME"@, state.name),
        label_line("EVERY"@, interval_text(state.interval_seconds as nat)),
        label_line("SCOPE"@, scope_text(state.window_id)),
        label_line("WORKER"@, "PID "@ + decimal(state.worker_pid as nat)),
        label_line("STARTED"@, shown_time(state.started_at)),
        label_line("LAST SAVE"@, time_or_pending(state.last_success_at)),
        label_line("SNAPSHOT"@, text_or(state.last_snapshot_id, "pending"@)),
        label_line("NEXT SAVE"@, time_or_pending(state.next_attempt_at)),
        label_line("LAST ERROR"@, text_or(state.last_error, "none"@)),
        label_line("LOG"@, state.log_path),
    ]
}

/// A time, or that it is still to come.
fn shown_or_pending(time: &Option<String>) -> (r: String)
    ensures
        r@ == time_or_pending(optional_text(*time)),
{
    match time {
        Some(text) => display_time(text.as_str()),
        None => "pending".to_owned(),
    }
}

/// A text, or another in its place.
fn given_or(text: &Option<String>, other: &str) -> (r: String)
    ensures
        r@ == text_or(optional_text(*text), other@),
{
    match text {
        Some(text) => text.clone(),
        None => other.to_owned(),
    }
}

/// The number of a worker's process.
fn worker_text(pid: u32) -> (r: String)
    ensures
        r@ == "PID "@ + decimal(pid as nat),
{
    let mut r = "PID ".to_owned();
    r.append(decimal_text(pid as u64).as_str());
    r
}

/// What is told about a watcher that runs.
pub fn status_report(state: &WatchState) -> (r: Vec<String>)
    ensures
        texts(r@) == status_lines(state@),
{
    let window = match &state.window_id {
        Some(id) => Some(id.as_str()),
        None => None,
    };
    let mut lines: Vec<String> = Vec::new();
    push_text(&mut lines, labeled("STATUS", "running"));
    push_text(&mut lines, labeled("NAME", state.name.as_str()));
    push_text(&mut lines, labeled("EVERY", display_interval(state.interval_seconds).as_str()));
    push_text(&mut lines, labeled("SCOPE", scope_summary(window).as_str()));
    push_text(&mut lines, labeled("WORKER", worker_text(state.worker_pid).as_str()));
    push_text(&mut lines, labeled("STARTED", display_time(state.started_at.as_str()).as_str()));
    push_text(&mut lines, labeled("LAST SAVE", shown_or_pending(&state.last_success_at).as_str()));
    push_text(
        &mut lines,
        labeled("SNAPSHOT", given_or(&state.last_snapshot_id, "pending").as_str()),
    );
    push_text(&mut lines, labeled("NEXT SAVE", shown_or_pending(&state.next_attempt_at).as_str()));
    push_text(&mut lines, labeled("LAST ERROR", given_or(&state.last_error, "none").as_str()));
    push_text(&mut lines, labeled("LOG", state.log_path.as_str()));
    assert(texts(lines@) =~= status_lines(state@));
    lines
}

/// What is told when a watcher has been asked to stop and still runs.
pub open spec fn stopping_lines(state: WatchModel) -> Seq<Seq<char>> {
    seq![
        label_line("WORKER"@, "PID "@ + decimal(state.worker_pid as nat)),
        label_line("LOG"@, state.log_path),
    ]
}

/// What is told when a watcher has stopped.
pub open spec fn stopped_lines(state: WatchModel) -> Seq<Seq<char>> {
    seq![
        label_line("NAME"@, state.name),
        label_line("WORKER"@, "PID "@ + decimal(state.worker_pid as nat)),
    ]
}

/// What is told when a watcher has been asked to stop and still runs.
pub fn stopping_report(state: &WatchState) -> (r: Vec<String>)
    ensures
        texts(r@) == stopping_lines(state@),
{
    let mut lines: Vec<String> = Vec::new();
    push_text(&mut lines, labeled("WORKER", worker_text(state.worker_pid).as_str()));
    push_text(&mut lines, labeled("LOG", state.log_path.as_str()));
    assert(texts(lines@) =~= stopping_lines(state@));
    lines
}

/// What is told when a watcher has stopped.
pub fn stopped_report(state: &WatchState) -> (r: Vec<String>)
    ensures
        texts(r@) == stopped_lines(state@),
{
    let mut lines: Vec<String> = Vec::new();
    push_text(&mut lines, labeled("NAME", state.name.as_str()));
    push_text(&mut lines, labeled("WORKER", worker_text(state.worker_pid).as_str()));
    assert(texts(lines@) =~= stopped_lines(state@));
    lines
}

/// What is told about the watcher of a shell, if one lives.
pub open spec fn status_of(state: Option<WatchModel>) -> ReportModel {
    ReportModel {
        title: "WATCHER STATUS"@,
        lines: match state {
            Some(state) => status_lines(state),
            None => seq!["No active watcher belongs to this shell."@],
        },
    }
}

/// What is told about the watcher of a shell, if one lives.
pub fn watch_status(state: &Option<WatchState>) -> (r: Report)
    ensures
        r@ == status_of(state_view(*state)),
{
    let lines = match state {
        Some(state) => status_report(state),
        None => {
            let lines = vec!["No active watcher belongs to this shell.".to_owned()];
            assert(texts(lines@) =~= seq!["No active watcher belongs to this shell."@]);
            lines
        },
    };
    Report { title: "WATCHER STATUS".to_owned(), lines }
}

/// What is told when the watcher of a shell, if one lived, was asked to stop.
pub open spec fn stop_of(state: Option<WatchModel>, still_runs: bool) -> ReportModel {
    match state {
        Some(state) => if still_runs {
            ReportModel { title: "WATCHER STOP REQUESTED"@, lines: stopping_lines(state) }
        } else {
            ReportModel { title: "WATCHER STOPPED"@, lines: stopped_lines(state) }
        },
        None => ReportModel {
            title: "WATCHER STOPPED"@,
            lines: seq!["No active watcher belonged to this shell."@],
        },
    }
}

/// What is told when the watcher of a shell, if one lived, was asked to stop.
pub fn stop_watch(state: &Option<WatchState>, still_runs: bool) -> (r: Report)
    ensures
        r@ == stop_of(state_view(*state), still_runs),
{
    match state {
        Some(state) => if still_runs {
            Report { title: "WATCHER STOP REQUESTED".to_owned(), lines: stopping_report(state) }
        } else {
            Report { title: "WATCHER STOPPED".to_owned(), lines: stopped_report(state) }
        },
        None => {
            let lines = vec!["No active watcher belonged to this shell.".to_owned()];
            assert(texts(lines@) =~= seq!["No active watcher belonged to this shell."@]);
            Report { title: "WATCHER STOPPED".to_owned(), lines }
        },
    }
}

} // verus!
