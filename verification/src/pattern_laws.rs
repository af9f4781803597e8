//! How numbers, names and identifiers are written, and the lines that hold them.
use vstd::prelude::*;
use vstd::string::*;

use crate::agents::{
    ProbeModel, ProcessModel, directory_line, files_matter, line_processes, line_rollouts,
    line_threads, named_session, only_one, open_session, process_of, rollout_of, told_by,
    told_by_all,
};
use crate::cli::{WatchScope, WorkerModel, number_fault, scope_name, scope_named, worker_of};
use crate::command::{ReplyModel, optional_answer};
use crate::error::debug_text;
use crate::model::{Agent, WindowModel};
use crate::number::{
    NumberFault, decimal, decimal_reads_back, lemma_decimal_digits, lemma_scan_decimal, read_signed,
    read_unsigned, scan, signed_decimal,
};
use crate::pattern::{
    CODEX_ROLLOUT_PATTERN, PROCESS_PATTERN, ProcessLine, is_name, is_uuid, regex_captures, uuid_at,
};
use crate::save::empty_fault;
use crate::snapshot::count_tabs;
use crate::text::{is_digit, is_hex, lines};

verus! {

// ---------------------------------------------------------------------------
// Numbers
// ---------------------------------------------------------------------------
/// Numbers are written to the base of ten: one digit more is ten times the number and
/// that digit.
pub proof fn numbers_are_written_to_the_base_of_ten(n: nat, d: nat)
    requires
        d < 10,
    ensures
        decimal(d).len() == 1,
        decimal(d)[0] as int == '0' as int + d,
        n > 0 ==> decimal(n * 10 + d) == decimal(n) + decimal(d),
{
    if n > 0 {
        assert((n * 10 + d) / 10 == n && (n * 10 + d) % 10 == d);
        assert(decimal(n * 10 + d) =~= decimal(n) + decimal(d));
    }
}

/// A number below zero is written with a minus sign, any other without a sign.
pub proof fn signs_are_written(n: nat)
    ensures
        signed_decimal(n as int) == decimal(n),
        n > 0 ==> signed_decimal(-(n as int)) == seq!['-'] + decimal(n),
{
    if n > 0 {
        assert(signed_decimal(-(n as int)) =~= seq!['-'] + decimal(n));
    }
}

/// A number is read with a plus sign or without, and with zeros in front; one above
/// the limit is refused, and so are nothing, a sign alone and a minus sign.
pub proof fn numbers_are_read(n: nat, limit: nat)
    ensures
        n <= limit ==> read_unsigned(decimal(n), limit) == Ok::<nat, NumberFault>(n),
        n <= limit ==> read_unsigned(seq!['+'] + decimal(n), limit) == Ok::<nat, NumberFault>(n),
        n <= limit ==> read_unsigned(seq!['0'] + decimal(n), limit) == Ok::<nat, NumberFault>(n),
        n > limit ==> read_unsigned(decimal(n), limit) == Err::<nat, NumberFault>(
            NumberFault::TooLarge,
        ),
        read_unsigned(Seq::empty(), limit) == Err::<nat, NumberFault>(NumberFault::Empty),
        read_unsigned(seq!['+'], limit) == Err::<nat, NumberFault>(NumberFault::InvalidDigit),
        read_unsigned(seq!['-'] + decimal(n), limit) == Err::<nat, NumberFault>(
            NumberFault::InvalidDigit,
        ),
{
    lemma_decimal_digits(n);
    let s = decimal(n);
    assert(is_digit(s[0]));
    assert((seq!['+'] + s).drop_first() =~= s);
    lemma_scan_fault(Seq::empty(), '-', s, limit, NumberFault::TooLarge);
    assert(Seq::<char>::empty() + seq!['-'] + s =~= seq!['-'] + s);
    if n <= limit {
        decimal_reads_back(n, limit);
        lemma_scan_decimal(n, limit, NumberFault::TooLarge);
        lemma_scan_zero(s, limit, NumberFault::TooLarge);
    } else {
        lemma_scan_large(n, limit, NumberFault::TooLarge);
    }
}

/// A zero in front changes no number.
proof fn lemma_scan_zero(s: Seq<char>, limit: nat, excess: NumberFault)
    ensures
        scan(seq!['0'] + s, limit, excess) == scan(s, limit, excess),
    decreases s.len(),
{
    let all = seq!['0'] + s;
    if s.len() == 0 {
        assert(all.drop_last() =~= Seq::empty());
        assert(scan(all.drop_last(), limit, excess) == Ok::<nat, NumberFault>(0));
        assert(all.last() == '0');
    } else {
        assert(all.drop_last() =~= seq!['0'] + s.drop_last());
        lemma_scan_zero(s.drop_last(), limit, excess);
    }
}

/// A number above the limit is refused.
proof fn lemma_scan_large(n: nat, limit: nat, excess: NumberFault)
    requires
        n > limit,
    ensures
        scan(decimal(n), limit, excess) == Err::<nat, NumberFault>(excess),
    decreases n,
{
    let s = decimal(n);
    lemma_decimal_digits(n);
    assert(is_digit(s[s.len() - 1]));
    if n < 10 {
        assert(s.drop_last() =~= Seq::empty());
        assert(scan(s.drop_last(), limit, excess) == Ok::<nat, NumberFault>(0));
    } else {
        assert(s.drop_last() =~= decimal(n / 10));
        if n / 10 > limit {
            lemma_scan_large(n / 10, limit, excess);
        } else {
            lemma_scan_decimal(n / 10, limit, excess);
        }
    }
}

/// The first character that is no digit is refused, where what stands before it can be
/// read.
proof fn lemma_scan_fault(
    before: Seq<char>,
    c: char,
    after: Seq<char>,
    limit: nat,
    excess: NumberFault,
)
    requires
        scan(before, limit, excess) is Ok,
        !is_digit(c),
    ensures
        scan(before + seq![c] + after, limit, excess) == Err::<nat, NumberFault>(
            NumberFault::InvalidDigit,
        ),
    decreases after.len(),
{
    let all = before + seq![c] + after;
    if after.len() == 0 {
        assert(all.drop_last() =~= before);
    } else {
        lemma_scan_fault(before, c, after.drop_last(), limit, excess);
        assert(all.drop_last() =~= before + seq![c] + after.drop_last());
    }
}

/// What holds anything but digits behind a number is no number.
pub proof fn numbers_have_nothing_behind_them(n: nat, c: char, after: Seq<char>, limit: nat)
    requires
        n <= limit,
        !is_digit(c),
    ensures
        read_unsigned(decimal(n) + seq![c] + after, limit) == Err::<nat, NumberFault>(
            NumberFault::InvalidDigit,
        ),
{
    lemma_decimal_digits(n);
    assert(is_digit(decimal(n)[0]));
    lemma_scan_decimal(n, limit, NumberFault::TooLarge);
    lemma_scan_fault(decimal(n), c, after, limit, NumberFault::TooLarge);
    assert((decimal(n) + seq![c] + after)[0] == decimal(n)[0]);
}

/// Numbers with a sign are read down to the smallest and up to the largest.
pub proof fn signed_numbers_are_read(n: nat)
    ensures
        n <= i64::MAX ==> read_signed(decimal(n)) == Ok::<int, NumberFault>(n as int),
        n <= i64::MAX + 1 ==> read_signed(seq!['-'] + decimal(n)) == Ok::<int, NumberFault>(
            -(n as int),
        ),
        n > i64::MAX ==> read_signed(decimal(n)) == Err::<int, NumberFault>(NumberFault::TooLarge),
        n > i64::MAX + 1 ==> read_signed(seq!['-'] + decimal(n)) == Err::<int, NumberFault>(
            NumberFault::TooSmall,
        ),
{
    lemma_decimal_digits(n);
    assert(is_digit(decimal(n)[0]));
    assert((seq!['-'] + decimal(n)).drop_first() =~= decimal(n));
    numbers_are_read(n, i64::MAX as nat);
    if n <= i64::MAX + 1 {
        lemma_scan_decimal(n, (i64::MAX + 1) as nat, NumberFault::TooSmall);
    } else {
        lemma_scan_large(n, (i64::MAX + 1) as nat, NumberFault::TooSmall);
    }
}

/// What is told of a number that cannot be read.
pub proof fn faults_of_numbers_are_told()
    ensures
        number_fault(NumberFault::Empty) == "cannot parse integer from empty string"@,
        number_fault(NumberFault::InvalidDigit) == "invalid digit found in string"@,
        number_fault(NumberFault::TooLarge) == "number too large to fit in target type"@,
        number_fault(NumberFault::TooSmall) == "number too small to fit in target type"@,
{
}

// ---------------------------------------------------------------------------
// Names and identifiers
// ---------------------------------------------------------------------------
/// A name begins with a letter or a digit, and goes on with these and with dots,
/// underscores and dashes; nothing else is one.
pub proof fn names_are_letters_and_digits(s: Seq<char>, i: int)
    ensures
        s.len() == 0 ==> !is_name(s),
        s.len() > 0 && !is_plain(s[0]) ==> !is_name(s),
        0 <= i < s.len() && !is_plain(s[i]) && s[i] != '.' && s[i] != '_' && s[i] != '-'
            ==> !is_name(s),
        s.len() > 0 && is_plain(s[0]) && (forall|k: int|
            0 < k < s.len() ==> is_plain(#[trigger] s[k]) || s[k] == '.' || s[k] == '_' || s[k]
                == '-') ==> is_name(s),
{
}

/// Whether `c` is a letter or a digit of ASCII.
pub open spec fn is_plain(c: char) -> bool {
    'a' as int <= c as int <= 'z' as int || 'A' as int <= c as int <= 'Z' as int || '0' as int
        <= c as int <= '9' as int
}

/// A UUID has groups of 8, 4, 4, 4 and 12 hexadecimal digits with dashes between
/// them.
pub proof fn uuids_have_five_groups(
    a: Seq<char>,
    b: Seq<char>,
    c: Seq<char>,
    d: Seq<char>,
    e: Seq<char>,
)
    requires
        a.len() == 8,
        b.len() == 4,
        c.len() == 4,
        d.len() == 4,
        e.len() == 12,
        forall|i: int| 0 <= i < 8 ==> is_hex(#[trigger] a[i]),
        forall|i: int| 0 <= i < 4 ==> is_hex(#[trigger] b[i]),
        forall|i: int| 0 <= i < 4 ==> is_hex(#[trigger] c[i]),
        forall|i: int| 0 <= i < 4 ==> is_hex(#[trigger] d[i]),
        forall|i: int| 0 <= i < 12 ==> is_hex(#[trigger] e[i]),
    ensures
        is_uuid(a + seq!['-'] + b + seq!['-'] + c + seq!['-'] + d + seq!['-'] + e),
{
    let s = a + seq!['-'] + b + seq!['-'] + c + seq!['-'] + d + seq!['-'] + e;
    assert(s.len() == 36);
    assert forall|k: int| 0 <= k < 36 implies if k == 8 || k == 13 || k == 18 || k == 23 {
        #[trigger] s[0 + k] == '-'
    } else {
        is_hex(s[0 + k])
    } by {
        if k < 8 {
            assert(s[k] == a[k]);
        } else if 8 < k < 13 {
            assert(s[k] == b[k - 9]);
        } else if 13 < k < 18 {
            assert(s[k] == c[k - 14]);
        } else if 18 < k < 23 {
            assert(s[k] == d[k - 19]);
        } else if k > 23 {
            assert(s[k] == e[k - 24]);
        }
    }
    assert(uuid_at(s, 0));
}

/// A text of another length, or with another character in one of the groups or between
/// them, is no UUID.
pub proof fn other_texts_are_no_uuids(s: Seq<char>, k: int)
    requires
        s.len() != 36 || 0 <= k < 36 && (if k == 8 || k == 13 || k == 18 || k == 23 {
            s[k] != '-'
        } else {
            !('0' as int <= s[k] as int <= '9' as int || 'a' as int <= s[k] as int <= 'f' as int
                || 'A' as int <= s[k] as int <= 'F' as int)
        }),
    ensures
        !is_uuid(s),
{
    if is_uuid(s) {
        assert(s[0 + k] == s[k]);
    }
}

// ---------------------------------------------------------------------------
// Lines of processes
// ---------------------------------------------------------------------------
/// A line of the process list tells the number of the process, that of its parent, its
/// terminal and its command, in this order; one with a number that is out of range
/// tells nothing.
pub proof fn process_lines_tell_their_process(line: ProcessLine, pid: nat, ppid: nat)
    requires
        line.pid == decimal(pid),
        line.ppid == decimal(ppid),
    ensures
        process_of(Some(line.groups())) == told_by(line),
        process_of(None) is None,
        pid <= u32::MAX && ppid <= u32::MAX ==> told_by(line) == Some(
            ProcessModel {
                pid: pid as u32,
                ppid: ppid as u32,
                tty: line.tty,
                command: line.command,
            },
        ),
        pid > u32::MAX || ppid > u32::MAX ==> told_by(line) is None,
        line.text() == line.indent + decimal(pid) + line.gap + decimal(ppid) + line.second_gap
            + line.tty + line.third_gap + line.command,
{
    numbers_are_read(pid, u32::MAX as nat);
    numbers_are_read(ppid, u32::MAX as nat);
}

/// The processes are listed line by line; a line that tells none is left out.
pub proof fn processes_are_listed_line_by_line(before: Seq<ProcessLine>, line: ProcessLine)
    ensures
        told_by_all(Seq::empty()).len() == 0,
        told_by(line) matches Some(process) ==> told_by_all(before.push(line)) == told_by_all(
            before,
        ).push(process),
        told_by(line) is None ==> told_by_all(before.push(line)) == told_by_all(before),
{
    assert(before.push(line).drop_last() =~= before);
}

/// The processes and the files of conversations that lines tell of are listed in the
/// order of the lines, each with what its line tells.
pub proof fn matches_are_listed_line_by_line(before: Seq<Seq<char>>, line: Seq<char>)
    ensures
        process_of(regex_captures(PROCESS_PATTERN@, line)) matches Some(process)
            ==> line_processes(before.push(line)) == line_processes(before).push(process),
        process_of(regex_captures(PROCESS_PATTERN@, line)) is None ==> line_processes(
            before.push(line),
        ) == line_processes(before),
        rollout_of(regex_captures(CODEX_ROLLOUT_PATTERN@, line)) matches Some(file)
            ==> line_rollouts(before.push(line)) == line_rollouts(before).push(file),
        rollout_of(regex_captures(CODEX_ROLLOUT_PATTERN@, line)) is None ==> line_rollouts(
            before.push(line),
        ) == line_rollouts(before),
{
    assert(before.push(line).drop_last() =~= before);
}

/// A file of a Codex conversation is told with its path first and then the identifier.
pub proof fn files_are_told_with_their_conversation(
    whole: Seq<char>,
    path: Seq<char>,
    id: Seq<char>,
)
    ensures
        rollout_of(Some(seq![Some(whole), Some(path), Some(id)])) == Some((path, id)),
        rollout_of(None) is None,
{
}

/// Codex holds the conversation whose file was changed last, Amp the only one whose
/// file is open. Open files are looked at only where the directory is told and the
/// command names no conversation.
pub proof fn open_files_tell_the_conversation(
    agent: Agent,
    probe: ProbeModel,
    command: Seq<char>,
    directory: Option<ReplyModel>,
)
    ensures
        open_session(Agent::Codex, probe) == probe.newest,
        optional_answer(probe.files) matches Some(output) ==> open_session(Agent::Amp, probe)
            == only_one(line_threads(lines(output))),
        optional_answer(probe.files) is None ==> open_session(Agent::Amp, probe) is None,
        named_session(agent, command) is Some ==> !files_matter(agent, command, directory),
        optional_answer(directory) is None ==> !files_matter(agent, command, directory),
        named_session(agent, command) is None && (optional_answer(directory) matches Some(output)
            && directory_line(lines(output)) is Some) ==> files_matter(agent, command, directory),
{
}

// ---------------------------------------------------------------------------
// Arguments of a worker
// ---------------------------------------------------------------------------
/// A worker is told eight things, in this order; a dash stands for no window. With more
/// or fewer, another scope, or a number that cannot be read, it is refused.
pub proof fn workers_are_told_eight_things(args: Seq<Seq<char>>, interval: u64, owner: u32)
    ensures
        args.len() != 8 ==> worker_of(args) == Err::<WorkerModel, Seq<char>>(
            "malformed watcher worker arguments"@,
        ),
        args.len() == 8 && args[2] == decimal(interval as nat) && args[3] == decimal(owner as nat)
            ==> {
            &&& args[5] != "current-window"@ && args[5] != "all-windows"@ ==> worker_of(args)
                == Err::<WorkerModel, Seq<char>>("invalid watcher scope"@)
            &&& args[5] == "current-window"@ || args[5] == "all-windows"@ ==> worker_of(args) is Ok
            &&& worker_of(args) matches Ok(told) ==> {
                &&& told.token == args[0]
                &&& told.name == args[1]
                &&& told.interval_seconds == interval
                &&& told.owner_pid == owner
                &&& told.owner_started_at == args[4]
                &&& told.scope == WatchScope::CurrentWindow <==> args[5] == "current-window"@
                &&& args[6] == "-"@ ==> told.window_id is None
                &&& args[6] != "-"@ ==> told.window_id == Some(args[6])
                &&& told.state_path == args[7]
            }
        },
        args.len() == 8 ==> (read_unsigned(args[2], u64::MAX as nat) matches Err(fault)
            ==> worker_of(args) == Err::<WorkerModel, Seq<char>>(number_fault(fault))),
        args.len() == 8 && read_unsigned(args[2], u64::MAX as nat) is Ok ==> (read_unsigned(
            args[3],
            u32::MAX as nat,
        ) matches Err(fault) ==> worker_of(args) == Err::<WorkerModel, Seq<char>>(
            number_fault(fault),
        )),
{
    decimal_reads_back(interval as nat, u64::MAX as nat);
    decimal_reads_back(owner as nat, u32::MAX as nat);
    reveal_strlit("current-window");
    reveal_strlit("all-windows");
    assert("current-window"@.len() == 14 && "all-windows"@.len() == 11);
}

/// The scopes of a watcher are written so, and read back.
pub proof fn scopes_are_written(scope: WatchScope)
    ensures
        scope_name(WatchScope::CurrentWindow) == "current-window"@,
        scope_name(WatchScope::AllWindows) == "all-windows"@,
        scope_named(scope_name(scope)) == Some(scope),
{
    reveal_strlit("current-window");
    reveal_strlit("all-windows");
    assert("current-window"@.len() == 14 && "all-windows"@.len() == 11);
}

// ---------------------------------------------------------------------------
// Counting tabs, and captures that hold nothing
// ---------------------------------------------------------------------------
/// The tabs of a snapshot are those of its windows together.
pub proof fn tabs_are_counted(windows: Seq<WindowModel>, window: WindowModel)
    ensures
        count_tabs(Seq::empty()) == 0,
        count_tabs(windows.push(window)) == count_tabs(windows) + window.tabs.len(),
{
    assert(windows.push(window).drop_last() =~= windows);
}

/// A capture that holds nothing tells that the window is gone, or that there is none.
pub proof fn empty_captures_are_told(id: Seq<char>)
    ensures
        empty_fault(Some(id)) == "Ghostty window "@ + debug_text(id) + " is no longer available"@,
        empty_fault(None) == "Ghostty has no restorable terminal surfaces"@,
{
}

} // verus!
