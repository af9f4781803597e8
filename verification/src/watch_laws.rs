//! What holds of watchers.
use vstd::prelude::*;
use vstd::string::*;

use crate::cli::{WatchOptionsModel, WatchScope, WorkerModel};
use crate::clock::{display_text, read_moment, shown_time};
use crate::model::WatchModel;
use crate::number::{decimal, decimal_is_injective, lemma_decimal_digits};
use crate::path::{base_name, below, joined_name_stands_in, parts, stands_in};
use crate::pattern::is_name;
use crate::report::name_fault;
use crate::text::{contains, is_digit, is_hex, join};
use crate::text_laws::{found_parts_are_there, parts_are_found};
use crate::ui::label_line;
use crate::watch::{
    STOP_PATIENCE, StopAction, WorkerAction, WorkerPhase, begun, belongs, ended, initial_state_of,
    interval_span, interval_text, is_token, log_path_of, next_step, next_stop_step, owner_lives,
    started_lines, state_path_of, status_lines, status_of, stop_of, watcher_lives,
    worker_arguments_for, worker_fault, worker_for,
};

verus! {

// ---------------------------------------------------------------------------
// Words and files
// ---------------------------------------------------------------------------
/// An interval is displayed in whole hours where it is so many, else in whole
/// minutes, else in seconds.
pub proof fn intervals_are_displayed_in_their_unit(n: nat)
    ensures
        interval_text(n * 3_600) == decimal(n) + "h"@,
        n % 60 != 0 ==> interval_text(n * 60) == decimal(n) + "m"@,
        n % 60 != 0 ==> interval_text(n) == decimal(n) + "s"@,
{
    assert((n * 3_600) % 3_600 == 0 && (n * 3_600) / 3_600 == n) by (nonlinear_arith);
    assert((n * 60) % 60 == 0 && (n * 60) / 60 == n) by (nonlinear_arith);
    if n % 60 != 0 {
        if (n * 60) % 3_600 == 0 {
            let k = (n * 60) / 3_600;
            assert(n * 60 == k * 3_600);
            assert(n == k * 60);
        }
        if n % 3_600 == 0 {
            assert(n % 60 == 0);
        }
    }
}

/// The files of a watcher stand among those of the watchers, under the number of its
/// shell: its state and its log are two files.
pub proof fn watchers_have_their_files(watchers_dir: Seq<char>, owner_pid: u32)
    requires
        watchers_dir.len() > 0,
    ensures
        stands_in(state_path_of(watchers_dir, owner_pid), watchers_dir),
        base_name(state_path_of(watchers_dir, owner_pid)) == "shell-"@ + decimal(owner_pid as nat)
            + ".json"@,
        stands_in(log_path_of(watchers_dir, owner_pid), watchers_dir),
        base_name(log_path_of(watchers_dir, owner_pid)) == "shell-"@ + decimal(owner_pid as nat)
            + ".log"@,
        state_path_of(watchers_dir, owner_pid) != log_path_of(watchers_dir, owner_pid),
{
    lemma_shell_file(watchers_dir, owner_pid, ".json"@);
    lemma_shell_file(watchers_dir, owner_pid, ".log"@);
    let a = "shell-"@ + decimal(owner_pid as nat) + ".json"@;
    let b = "shell-"@ + decimal(owner_pid as nat) + ".log"@;
    assert(a.len() != b.len()) by {
        reveal_strlit(".json");
        reveal_strlit(".log");
    }
}

proof fn lemma_shell_file(watchers_dir: Seq<char>, owner_pid: u32, ending: Seq<char>)
    requires
        watchers_dir.len() > 0,
        ending == ".json"@ || ending == ".log"@,
    ensures
        ({
            let name = "shell-"@ + decimal(owner_pid as nat) + ending;
            stands_in(below(watchers_dir, name), watchers_dir) && base_name(
                below(watchers_dir, name),
            ) == name
        }),
{
    let digits = decimal(owner_pid as nat);
    let name = "shell-"@ + digits + ending;
    lemma_decimal_digits(owner_pid as nat);
    reveal_strlit("shell-");
    reveal_strlit(".json");
    reveal_strlit(".log");
    reveal_strlit(".");
    reveal_strlit("..");
    assert(name[0] == 's');
    assert("."@[0] == '.' && ".."@[0] == '.');
    assert forall|i: int| 0 <= i < name.len() implies #[trigger] name[i] != '/' by {
        if 6 <= i < 6 + digits.len() {
            assert(name[i] == digits[i - 6]);
            assert(is_digit(digits[i - 6]));
        } else if i >= 6 + digits.len() {
            assert(name[i] == ending[i - 6 - digits.len()]);
        }
    }
    joined_name_stands_in(watchers_dir, name);
}

/// Two shells have two states: a state that stands where a shell keeps its own is
/// that of this shell.
pub proof fn shells_have_their_own_states(watchers_dir: Seq<char>, a: u32, b: u32)
    requires
        watchers_dir.len() > 0,
        a != b,
    ensures
        state_path_of(watchers_dir, a) != state_path_of(watchers_dir, b),
        log_path_of(watchers_dir, a) != log_path_of(watchers_dir, b),
{
    watchers_have_their_files(watchers_dir, a);
    watchers_have_their_files(watchers_dir, b);
    lemma_between("shell-"@, decimal(a as nat), decimal(b as nat), ".json"@);
    lemma_between("shell-"@, decimal(a as nat), decimal(b as nat), ".log"@);
    if decimal(a as nat) == decimal(b as nat) {
        decimal_is_injective(a as nat, b as nat);
    }
}

/// Texts with the same beginning and the same end differ where their middles do.
proof fn lemma_between(front: Seq<char>, a: Seq<char>, b: Seq<char>, end: Seq<char>)
    ensures
        front + a + end == front + b + end ==> a == b,
{
    if front + a + end == front + b + end {
        let whole = front + a + end;
        assert(a =~= whole.subrange(front.len() as int, whole.len() - end.len()));
        assert(b =~= whole.subrange(front.len() as int, whole.len() - end.len()));
    }
}

// ---------------------------------------------------------------------------
// Who lives
// ---------------------------------------------------------------------------
/// A shell lives while a process has its number and was started when it was: once
/// its number belongs to another process, it is gone.
pub proof fn shells_are_known_by_their_start(alive: bool, started_at: Seq<char>, other: Seq<char>)
    ensures
        owner_lives(true, started_at, started_at),
        !owner_lives(false, other, started_at),
        other != started_at ==> !owner_lives(alive, other, started_at),
{
}

/// A worker that was started is known by its arguments while its shell lives, and
/// another process that has got its number is not, unless its command names the token.
pub proof fn workers_are_known_by_their_token(
    options: WorkerModel,
    before: Seq<char>,
    after: Seq<char>,
    other: Seq<char>,
    owner: bool,
    worker: bool,
)
    ensures
        watcher_lives(
            true,
            true,
            before + join(worker_arguments_for(options), " "@) + after,
            options.token,
        ),
        !contains(other, options.token) ==> !watcher_lives(owner, worker, other, options.token),
        !watcher_lives(false, worker, other, options.token),
        !watcher_lives(owner, false, other, options.token),
{
    let args = worker_arguments_for(options);
    lemma_join_has(args, " "@, 1);
    let line = join(args, " "@);
    found_parts_are_there(line, options.token);
    let (a, b) = choose|a: Seq<char>, b: Seq<char>| line == #[trigger] (a + options.token + b);
    let whole = before + line + after;
    assert(whole =~= (before + a) + options.token + (b + after));
    parts_are_found(before + a, options.token, b + after);
}

/// What is joined stands in the whole.
proof fn lemma_join_has(parts: Seq<Seq<char>>, sep: Seq<char>, i: int)
    requires
        0 <= i < parts.len(),
    ensures
        contains(join(parts, sep), parts[i]),
    decreases parts.len(),
{
    let whole = join(parts, sep);
    let none = Seq::<char>::empty();
    if parts.len() == 1 {
        assert(whole =~= none + parts[0] + none);
        parts_are_found(none, parts[0], none);
    } else if i == parts.len() - 1 {
        let front = join(parts.drop_last(), sep) + sep;
        assert(whole =~= front + parts[i] + none);
        parts_are_found(front, parts[i], none);
    } else {
        let front = join(parts.drop_last(), sep);
        lemma_join_has(parts.drop_last(), sep, i);
        found_parts_are_there(front, parts[i]);
        let (a, b) = choose|a: Seq<char>, b: Seq<char>| front == #[trigger] (a + parts[i] + b);
        assert(whole =~= a + parts[i] + (b + sep + parts.last()));
        parts_are_found(a, parts[i], b + sep + parts.last());
    }
}

// ---------------------------------------------------------------------------
// What a worker is told
// ---------------------------------------------------------------------------
/// A worker is told what was asked for: a watcher of the current window is bound to
/// the window that was in front, one of all windows to none. It is told its shell,
/// its token, and where its state is kept.
pub proof fn workers_are_told_what_was_asked(
    watchers_dir: Seq<char>,
    options: WatchOptionsModel,
    token: Seq<char>,
    owner_pid: u32,
    owner_started_at: Seq<char>,
    window: Seq<char>,
)
    ensures
        ({
            let told = worker_for(watchers_dir, options, token, owner_pid, owner_started_at, window);
            &&& told.name == options.name
            &&& told.interval_seconds == options.interval_seconds
            &&& told.scope == options.scope
            &&& told.token == token
            &&& told.owner_pid == owner_pid
            &&& told.owner_started_at == owner_started_at
            &&& told.state_path == state_path_of(watchers_dir, owner_pid)
            &&& options.scope == WatchScope::CurrentWindow ==> told.window_id == Some(window)
            &&& options.scope == WatchScope::AllWindows ==> told.window_id is None
        }),
{
}

/// A token has 32 hexadecimal digits, in either case, and nothing else.
pub proof fn tokens_are_hexadecimal(token: Seq<char>, i: int)
    ensures
        token.len() != 32 ==> !is_token(token),
        0 <= i < token.len() && !('0' as int <= token[i] as int <= '9' as int || 'a' as int
            <= token[i] as int <= 'f' as int || 'A' as int <= token[i] as int <= 'F' as int)
            ==> !is_token(token),
        token.len() == 32 && (forall|k: int|
            0 <= k < 32 ==> '0' as int <= #[trigger] token[k] as int <= '9' as int || 'a' as int
                <= token[k] as int <= 'f' as int || 'A' as int <= token[k] as int <= 'F' as int)
            ==> is_token(token),
{
    if 0 <= i < token.len() && is_token(token) {
        assert(is_hex(token[i]));
    }
}

/// A worker accepts what it was told exactly where its name and its token can be
/// such, its interval is ten seconds or more, it is bound to a window where it
/// watches one and only there, and its state is kept where its shell keeps it; else
/// the first of these that fails is told.
pub proof fn workers_check_what_they_are_told(watchers_dir: Seq<char>, options: WorkerModel)
    ensures
        !is_name(options.name) ==> worker_fault(watchers_dir, options) == Some(
            name_fault(options.name),
        ),
        is_name(options.name) ==> ({
            let fault = worker_fault(watchers_dir, options);
            &&& !is_token(options.token) ==> fault == Some("invalid watcher token"@)
            &&& is_token(options.token) && options.interval_seconds < 10 ==> fault == Some(
                "invalid watcher interval"@,
            )
            &&& is_token(options.token) && options.interval_seconds >= 10 ==> {
                &&& options.scope == WatchScope::CurrentWindow && options.window_id is None
                    ==> fault == Some("current-window watcher is missing its bound window ID"@)
                &&& options.scope == WatchScope::AllWindows && options.window_id is Some ==> fault
                    == Some("all-windows watcher cannot have a bound window ID"@)
                &&& (options.scope == WatchScope::CurrentWindow) == (options.window_id is Some)
                    && options.state_path == state_path_of(watchers_dir, options.owner_pid)
                    ==> fault is None
                &&& (options.scope == WatchScope::CurrentWindow) == (options.window_id is Some)
                    && parts(options.state_path) != parts(
                    state_path_of(watchers_dir, options.owner_pid),
                ) ==> fault == Some("invalid watcher state path"@)
            }
        }),
{
}

// ---------------------------------------------------------------------------
// What a worker writes down
// ---------------------------------------------------------------------------
/// What is first written down of a worker is what it was told; nothing has been
/// tried, saved or failed yet.
pub proof fn states_begin_with_what_was_told(
    options: WorkerModel,
    worker_pid: u32,
    started_at: Seq<char>,
    log_path: Seq<char>,
)
    ensures
        ({
            let state = initial_state_of(options, worker_pid, started_at, log_path);
            &&& state.version == 1
            &&& belongs(Some(state), options.token)
            &&& state.name == options.name
            &&& state.interval_seconds == options.interval_seconds
            &&& options.scope == WatchScope::CurrentWindow ==> state.scope == "current-window"@
            &&& options.scope == WatchScope::AllWindows ==> state.scope == "all-windows"@
            &&& state.window_id == options.window_id
            &&& state.owner_pid == options.owner_pid
            &&& state.owner_started_at == options.owner_started_at
            &&& state.worker_pid == worker_pid
            &&& state.started_at == started_at
            &&& state.log_path == log_path
            &&& state.last_attempt_at is None && state.last_success_at is None
            &&& state.last_snapshot_id is None && state.next_attempt_at is None
            &&& state.last_error is None
        }),
{
}

/// A state is that of one watcher: another token does not own it, and no state is
/// nobody's.
pub proof fn states_have_one_owner(state: WatchModel, token: Seq<char>)
    ensures
        belongs(Some(state), state.token),
        token != state.token ==> !belongs(Some(state), token),
        !belongs(None, token),
{
}

/// A save that succeeds is written down with its time and its snapshot; one that
/// fails with its time in the error. When the next is due is written down either
/// way, and the log and the version stay.
pub proof fn attempts_are_written_down(
    state: WatchModel,
    start: Seq<char>,
    now: Seq<char>,
    next: Seq<char>,
    newest: Option<Seq<char>>,
)
    ensures
        begun(state, start).last_attempt_at == Some(start),
        begun(state, start).last_error is None,
        begun(state, start).last_success_at == state.last_success_at,
        begun(state, start).last_snapshot_id == state.last_snapshot_id,
        begun(state, start).next_attempt_at == state.next_attempt_at,
        ended(state, true, now, next, newest).last_snapshot_id == newest,
        ended(state, true, now, next, newest).last_success_at == Some(now),
        ended(state, true, now, next, newest).last_error is None,
        ended(state, false, now, next, newest).last_error == Some(
            "save failed at "@ + now + "; see watcher log"@,
        ),
        ended(state, true, now, next, newest).next_attempt_at == Some(next),
        ended(state, false, now, next, newest).next_attempt_at == Some(next),
        ended(begun(state, start), true, now, next, newest).log_path == state.log_path,
        ended(begun(state, start), false, now, next, newest).log_path == state.log_path,
        ended(begun(state, start), true, now, next, newest).version == state.version,
        ended(begun(state, start), false, now, next, newest).version == state.version,
{
}

// ---------------------------------------------------------------------------
// What a worker does
// ---------------------------------------------------------------------------
/// A worker that may go on saves when it is ready, and waits afterwards; while it
/// waits it sleeps for what remains, for five seconds at most, and becomes ready once
/// nothing remains.
pub proof fn workers_save_and_wait(remaining: Option<u128>, n: u128)
    ensures
        next_step(WorkerPhase::Ready, false, true, remaining) == (
            WorkerPhase::Waiting,
            WorkerAction::Attempt,
        ),
        next_step(WorkerPhase::Waiting, false, true, None) == (
            WorkerPhase::Ready,
            WorkerAction::Look,
        ),
        n <= 5_000_000_000 ==> next_step(WorkerPhase::Waiting, false, true, Some(n)) == (
            WorkerPhase::Waiting,
            WorkerAction::Sleep(n),
        ),
        n > 5_000_000_000 ==> next_step(WorkerPhase::Waiting, false, true, Some(n)) == (
            WorkerPhase::Waiting,
            WorkerAction::Sleep(5_000_000_000),
        ),
{
}

/// A worker that was asked to stop is looked at every tenth of a second, while it
/// lives and anything is left of five seconds.
pub proof fn stopping_is_waited_for(remaining: Option<u128>, n: u128)
    ensures
        n > 0 ==> next_stop_step(true, Some(n)) == StopAction::Sleep(100_000_000),
        next_stop_step(true, Some(0)) == StopAction::Done,
        next_stop_step(true, None) == StopAction::Done,
        next_stop_step(false, remaining) == StopAction::Done,
        STOP_PATIENCE == 5_000_000_000,
{
}

/// An interval is that many seconds of a clock that counts with a sign; a longer one
/// than it can count wraps around.
pub proof fn intervals_span_their_seconds(interval_seconds: u64)
    ensures
        i64::MIN <= interval_span(interval_seconds) <= i64::MAX,
        interval_seconds <= i64::MAX ==> interval_span(interval_seconds) == interval_seconds,
        interval_seconds > i64::MAX ==> interval_span(interval_seconds) + 0x1_0000_0000_0000_0000
            == interval_seconds,
{
}

// ---------------------------------------------------------------------------
// What is told
// ---------------------------------------------------------------------------
/// What is told of a watcher that was started: its name, its interval, the window
/// that it is bound to if any, its shell and its log.
pub proof fn starting_tells_the_watcher(options: WorkerModel, log_path: Seq<char>)
    ensures
        ({
            let lines = started_lines(options, log_path);
            &&& lines.len() == 6
            &&& lines[0] == label_line("NAME"@, options.name)
            &&& lines[1] == label_line("EVERY"@, interval_text(options.interval_seconds as nat))
            &&& options.window_id is None ==> lines[2] == label_line(
                "SCOPE"@,
                "all Ghostty windows"@,
            )
            &&& options.window_id matches Some(id) ==> lines[2] == label_line(
                "SCOPE"@,
                "bound to Ghostty window "@ + id,
            )
            &&& lines[3] == label_line("MODE"@, "fast snapshots; scrollback skipped"@)
            &&& lines[4] == label_line(
                "OWNER"@,
                "shell PID "@ + decimal(options.owner_pid as nat)
                    + "; watcher stops when this shell exits"@,
            )
            &&& lines[5] == label_line("LOG"@, log_path)
        }),
{
}

/// What is told of a watcher that runs: what it was asked for, its process, and its
/// saves, as far as there were any.
pub proof fn the_status_tells_the_state(state: WatchModel)
    ensures
        ({
            let lines = status_lines(state);
            &&& lines.len() == 11
            &&& lines[0] == label_line("STATUS"@, "running"@)
            &&& lines[1] == label_line("NAME"@, state.name)
            &&& lines[2] == label_line("EVERY"@, interval_text(state.interval_seconds as nat))
            &&& state.window_id is None ==> lines[3] == label_line("SCOPE"@, "all Ghostty windows"@)
            &&& state.window_id matches Some(id) ==> lines[3] == label_line(
                "SCOPE"@,
                "Ghostty window "@ + id,
            )
            &&& lines[4] == label_line("WORKER"@, "PID "@ + decimal(state.worker_pid as nat))
            &&& lines[5] == label_line("STARTED"@, shown_time(state.started_at))
            &&& state.last_success_at is None ==> lines[6] == label_line("LAST SAVE"@, "pending"@)
            &&& state.last_success_at matches Some(t) ==> lines[6] == label_line(
                "LAST SAVE"@,
                shown_time(t),
            )
            &&& state.last_snapshot_id is None ==> lines[7] == label_line("SNAPSHOT"@, "pending"@)
            &&& state.last_snapshot_id matches Some(id) ==> lines[7] == label_line("SNAPSHOT"@, id)
            &&& state.next_attempt_at is None ==> lines[8] == label_line("NEXT SAVE"@, "pending"@)
            &&& state.next_attempt_at matches Some(t) ==> lines[8] == label_line(
                "NEXT SAVE"@,
                shown_time(t),
            )
            &&& state.last_error is None ==> lines[9] == label_line("LAST ERROR"@, "none"@)
            &&& state.last_error matches Some(e) ==> lines[9] == label_line("LAST ERROR"@, e)
            &&& lines[10] == label_line("LOG"@, state.log_path)
        }),
{
}

/// The status and the end of a watcher are told where the shell has one, and that it
/// has none where it has not.
pub proof fn shells_are_told_of_their_watcher(state: WatchModel, still_runs: bool)
    ensures
        status_of(Some(state)).title == "WATCHER STATUS"@,
        status_of(Some(state)).lines == status_lines(state),
        status_of(None).title == "WATCHER STATUS"@,
        status_of(None).lines == seq!["No active watcher belongs to this shell."@],
        stop_of(Some(state), true).title == "WATCHER STOP REQUESTED"@,
        stop_of(Some(state), true).lines == seq![
            label_line("WORKER"@, "PID "@ + decimal(state.worker_pid as nat)),
            label_line("LOG"@, state.log_path),
        ],
        stop_of(Some(state), false).title == "WATCHER STOPPED"@,
        stop_of(Some(state), false).lines == seq![
            label_line("NAME"@, state.name),
            label_line("WORKER"@, "PID "@ + decimal(state.worker_pid as nat)),
        ],
        stop_of(None, still_runs).title == "WATCHER STOPPED"@,
        stop_of(None, still_runs).lines == seq!["No active watcher belonged to this shell."@],
{
}

/// A time that cannot be read is shown as it was written.
pub proof fn unreadable_times_are_shown_as_they_are(text: Seq<char>)
    requires
        read_moment(text) is Err,
    ensures
        shown_time(text) == text,
{
}

/// A time that can be read is shown in the form for display, where it has one.
pub proof fn readable_times_are_shown(text: Seq<char>, shown: Seq<char>)
    requires
        read_moment(text) is Ok,
        display_text(read_moment(text)->Ok_0) == Some(shown),
    ensures
        shown_time(text) == shown,
{
}

} // verus!
