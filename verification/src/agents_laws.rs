//! Which processes hold conversations, and what is found about them.
use vstd::prelude::*;
use vstd::string::*;

use crate::agents::{
    DatedRollout, FindingModel, ProbeModel, ProcessModel, agent_of, ancestor, changed_last,
    changed_last_is_unique, descends, directory_line, finding_of, findings_of, ghostty_runs,
    inspected, is_amp, is_codex, is_ghostty, is_root, is_thread_log, line_threads, listed_processes,
    named_session, newest_of, numbered, only_one, running, session_of, sessions_of, targets,
    told_of,
};
use crate::list::{last_index, lemma_select};
use crate::model::{Agent, SessionModel};
use crate::path::{
    base_name, below, is_file_name, joined_name_stands_in, parts, piece_parts, rooted,
};
use crate::pattern::{
    CODEX_RESUME_PATTERN, begins_with_thread, first_thread, is_uuid, regex_captures,
};
use crate::text::{
    contains, ends_with, is_hex, is_space, leading_word, lemma_split_tail, lemma_trim_end,
    lemma_trim_start, lines, occurs_at, split, starts_with, trim, trim_end,
};
use crate::text_laws::{is_blank, parts_are_found};

verus! {

// ---------------------------------------------------------------------------
// Commands
// ---------------------------------------------------------------------------
/// A program called `codex` in a directory called `bin` is Codex, wherever that
/// directory is and whatever the arguments are; but not where `node` runs it, nor where
/// it is the helper.
pub proof fn codex_with_any_arguments_is_codex(
    directory: Seq<char>,
    arguments: Seq<char>,
)
    requires
        !starts_with(directory, "node "@),
        !contains(directory + "/bin/codex"@ + arguments, "codex-code-mode-host"@),
    ensures
        is_codex(directory + "/bin/codex"@ + arguments),
        agent_of(directory + "/bin/codex"@ + arguments) == Some(Agent::Codex),
{
    reveal_strlit("node ");
    reveal_strlit("/bin/codex");
    let command = directory + "/bin/codex"@ + arguments;
    parts_are_found(directory, "/bin/codex"@, arguments);
    if starts_with(command, "node "@) {
        let front = command.subrange(0, 5);
        assert(front == "node "@);
        if directory.len() >= 5 {
            assert(directory.subrange(0, 5) =~= front);
            assert(occurs_at(directory, "node "@, 0));
        } else {
            let n = directory.len() as int;
            assert(command[n] == '/');
            assert(front[n] == command[n]);
            assert("node "@[n] == '/');
            assert(n == 0 || n == 1 || n == 2 || n == 3 || n == 4);
        }
    }
}

/// What is not Codex itself: its helper, what `node` runs, and every other program.
pub proof fn other_programs_are_not_codex(a: Seq<char>, b: Seq<char>, command: Seq<char>)
    ensures
        !is_codex(a + "codex-code-mode-host"@ + b),
        !is_codex("node "@ + b),
        !contains(command, "/bin/codex"@) ==> !is_codex(command),
{
    parts_are_found(a, "codex-code-mode-host"@, b);
    parts_are_found(Seq::empty(), "node "@, b);
}

/// The first word of a command goes up to whitespace.
proof fn lemma_first_word(word: Seq<char>, rest: Seq<char>)
    requires
        forall|i: int| 0 <= i < word.len() ==> !is_space(#[trigger] word[i]),
        rest.len() == 0 || is_space(rest[0]),
    ensures
        leading_word(word + rest) == word,
    decreases word.len(),
{
    let s = word + rest;
    if word.len() == 0 {
        assert(s =~= rest);
        assert(leading_word(s) =~= word);
    } else {
        let tail = word.drop_first();
        assert forall|i: int| 0 <= i < tail.len() implies !is_space(#[trigger] tail[i]) by {
            assert(!is_space(word[i + 1]));
        }
        lemma_first_word(tail, rest);
        assert(!is_space(word[0]));
        assert(s.drop_first() =~= tail + rest);
        assert(leading_word(s) =~= word);
    }
}

/// A name alone is the name that its path ends in.
pub proof fn names_are_their_own_base(name: Seq<char>)
    requires
        is_file_name(name),
    ensures
        base_name(name) == name,
{
    let none = Seq::<char>::empty();
    lemma_split_tail(none, name, '/');
    assert(none + name =~= name);
    assert(split(none, '/') == seq![none]);
    assert(split(name, '/') =~= seq![name]);
    assert(!rooted(name)) by {
        if rooted(name) {
            assert(name.contains(name[0]));
        }
    }
    assert(seq![name].drop_last() =~= Seq::<Seq<char>>::empty());
    assert(piece_parts(Seq::<Seq<char>>::empty(), false) =~= Seq::empty());
    assert(parts(name).len() == 1);
}

/// A program called `amp` is Amp, in any directory, with any arguments and with
/// whitespace in front; unless the command is one of Codex.
pub proof fn amp_with_any_arguments_is_amp(
    before: Seq<char>,
    directory: Seq<char>,
    arguments: Seq<char>,
)
    requires
        is_blank(before),
        arguments.len() == 0 || is_space(arguments[0]),
        directory.len() > 0,
        directory.last() != '/',
        forall|i: int| 0 <= i < directory.len() ==> !is_space(#[trigger] directory[i]),
    ensures
        is_amp(before + ("amp"@ + arguments)),
        is_amp(before + (directory + "/amp"@ + arguments)),
{
    reveal_strlit("amp");
    reveal_strlit("/amp");
    reveal_strlit("/");
    reveal_strlit(".");
    reveal_strlit("..");
    assert("amp"@.len() == 3 && "."@.len() == 1 && ".."@.len() == 2);
    assert(is_file_name("amp"@)) by {
        if "amp"@.contains('/') {
            let k = choose|k: int| 0 <= k < "amp"@.len() && "amp"@[k] == '/';
            assert(k == 0 || k == 1 || k == 2);
        }
    }
    names_are_their_own_base("amp"@);
    lemma_amp("amp"@, before, arguments);
    let path = directory + "/amp"@;
    joined_name_stands_in(directory, "amp"@);
    assert(path =~= directory + "/"@ + "amp"@);
    assert(!rooted("amp"@));
    assert(below(directory, "amp"@) == path);
    assert forall|i: int| 0 <= i < path.len() implies !is_space(#[trigger] path[i]) by {
        if i < directory.len() {
            assert(path[i] == directory[i]);
        } else {
            assert(path[i] == "/amp"@[i - directory.len()]);
        }
    }
    lemma_amp(path, before, arguments);
}

proof fn lemma_amp(word: Seq<char>, before: Seq<char>, arguments: Seq<char>)
    requires
        is_blank(before),
        word.len() > 0,
        forall|i: int| 0 <= i < word.len() ==> !is_space(#[trigger] word[i]),
        arguments.len() == 0 || is_space(arguments[0]),
        base_name(word) == "amp"@,
    ensures
        is_amp(before + (word + arguments)),
{
    let command = before + (word + arguments);
    let n = before.len() as int;
    assert forall|i: int| 0 <= i < n implies is_space(#[trigger] command[i]) by {
        assert(command[i] == before[i]);
    }
    assert(command[n] == word[0]);
    lemma_trim_start(command, n);
    assert(command.skip(n) =~= word + arguments);
    lemma_first_word(word, arguments);
}

/// Only the program of a command tells whether it is Amp: the arguments do not.
pub proof fn arguments_do_not_make_amp(word: Seq<char>, arguments: Seq<char>)
    requires
        word.len() > 0,
        forall|i: int| 0 <= i < word.len() ==> !is_space(#[trigger] word[i]),
        base_name(word) != "amp"@,
    ensures
        !is_amp(word + " "@ + arguments),
        !is_amp(word),
{
    reveal_strlit(" ");
    let rest = " "@ + arguments;
    assert(word + " "@ + arguments =~= word + rest);
    assert((word + rest)[0] == word[0]);
    lemma_trim_start(word + rest, 0);
    assert((word + rest).skip(0) =~= word + rest);
    lemma_first_word(word, rest);
    lemma_trim_start(word, 0);
    assert(word.skip(0) =~= word);
    lemma_first_word(word, Seq::empty());
    assert(word + Seq::<char>::empty() =~= word);
}

/// Ghostty is known by its place in its bundle, wherever that is and whatever follows.
pub proof fn ghostty_is_known_by_its_place(a: Seq<char>, b: Seq<char>, command: Seq<char>)
    ensures
        is_ghostty(a + "/Ghostty.app/Contents/MacOS/ghostty"@ + b),
        !contains(command, "/Ghostty.app/Contents/MacOS/ghostty"@) ==> !is_ghostty(command),
{
    parts_are_found(a, "/Ghostty.app/Contents/MacOS/ghostty"@, b);
}

/// A command is Codex's before it is Amp's; any other is no agent's.
pub proof fn agents_are_told_by_their_commands(command: Seq<char>)
    ensures
        is_codex(command) ==> agent_of(command) == Some(Agent::Codex),
        !is_codex(command) && is_amp(command) ==> agent_of(command) == Some(Agent::Amp),
        !is_codex(command) && !is_amp(command) ==> agent_of(command) is None,
{
}

// ---------------------------------------------------------------------------
// Descent
// ---------------------------------------------------------------------------
/// The steps up from a process and from its parent are the same.
proof fn lemma_step_up(all: Seq<ProcessModel>, start: u32, i: int, n: nat)
    requires
        start > 0,
        last_index(all, numbered(start)) == Some(i),
        0 <= i < all.len(),
    ensures
        ancestor(all, start, n + 1) == ancestor(all, all[i].ppid, n),
    decreases n,
{
    if n > 0 {
        lemma_step_up(all, start, i, (n - 1) as nat);
    } else {
        assert(ancestor(all, start, 0) == Some(start));
    }
}

/// A child of Ghostty descends from it, and so does a child of what descends from it;
/// a process without a parent, or whose parent is neither listed nor Ghostty, does
/// not.
pub proof fn descent_goes_from_child_to_parent(
    all: Seq<ProcessModel>,
    process: ProcessModel,
    i: int,
)
    ensures
        process.ppid > 0 && is_root(all, process.ppid) ==> descends(all, process),
        0 <= i < all.len() && process.ppid > 0 && last_index(all, numbered(process.ppid)) == Some(i)
            && descends(all, all[i]) ==> descends(all, process),
        process.ppid == 0 ==> !descends(all, process),
        last_index(all, numbered(process.ppid)) is None && !is_root(all, process.ppid)
            ==> !descends(all, process),
{
    assert(process.ppid > 0 ==> ancestor(all, process.ppid, 0) == Some(process.ppid));
    if process.ppid > 0 && is_root(all, process.ppid) {
        assert(ancestor(all, process.ppid, 0) == Some(process.ppid));
    }
    if 0 <= i < all.len() && process.ppid > 0 && last_index(all, numbered(process.ppid)) == Some(i)
        && descends(all, all[i]) {
        let n = choose|n: nat|
            match #[trigger] ancestor(all, all[i].ppid, n) {
                Some(pid) => is_root(all, pid),
                None => false,
            };
        lemma_step_up(all, process.ppid, i, n);
        assert(ancestor(all, process.ppid, n + 1) is Some);
    }
    if descends(all, process) {
        let n = choose|n: nat|
            match #[trigger] ancestor(all, process.ppid, n) {
                Some(pid) => is_root(all, pid),
                None => false,
            };
        if process.ppid == 0 {
            lemma_nowhere_up(all, process.ppid, n);
        } else if last_index(all, numbered(process.ppid)) is None && !is_root(all, process.ppid) {
            if n > 0 {
                lemma_unlisted_up(all, process.ppid, n);
            }
        }
    }
}

proof fn lemma_nowhere_up(all: Seq<ProcessModel>, start: u32, n: nat)
    requires
        start == 0,
    ensures
        ancestor(all, start, n) is None,
    decreases n,
{
    if n > 0 {
        lemma_nowhere_up(all, start, (n - 1) as nat);
    }
}

proof fn lemma_unlisted_up(all: Seq<ProcessModel>, start: u32, n: nat)
    requires
        n > 0,
        last_index(all, numbered(start)) is None,
    ensures
        ancestor(all, start, n) is None,
    decreases n,
{
    if n > 1 {
        lemma_unlisted_up(all, start, (n - 1) as nat);
    } else if start > 0 {
        assert(ancestor(all, start, 0) == Some(start));
    } else {
        assert(ancestor(all, start, 0) is None);
    }
}

/// Ghostty is the root that processes descend from: it is listed under its number.
pub proof fn ghostty_is_the_root(all: Seq<ProcessModel>, i: int)
    requires
        0 <= i < all.len(),
    ensures
        is_ghostty(all[i].command) ==> is_root(all, all[i].pid) && ghostty_runs(all),
        (forall|k: int| 0 <= k < all.len() ==> !is_ghostty((#[trigger] all[k]).command))
            ==> !ghostty_runs(all) && !is_root(all, all[i].pid),
{
}

/// Every listed process of an agent is looked into: all of them where Ghostty is not
/// listed, and those that descend from it where it is. No other process is.
pub proof fn agents_under_ghostty_are_looked_into(all: Seq<ProcessModel>, p: ProcessModel)
    ensures
        targets(all).contains(p) <==> all.contains(p) && agent_of(p.command) is Some && (
        !ghostty_runs(all) || descends(all, p)),
{
    let keep = inspected(all);
    lemma_select(all, keep);
    if targets(all).contains(p) {
        let k = choose|k: int| 0 <= k < targets(all).len() && targets(all)[k] == p;
        assert(keep(targets(all)[k]));
    }
    if all.contains(p) && agent_of(p.command) is Some && (!ghostty_runs(all) || descends(all, p)) {
        let i = choose|i: int| 0 <= i < all.len() && all[i] == p;
        assert(keep(all[i]));
    }
}

// ---------------------------------------------------------------------------
// Sessions
// ---------------------------------------------------------------------------
/// Every process that is looked into, and of which the directory and the conversation
/// are told, is among the running sessions, with what it was listed with.
pub proof fn told_processes_hold_sessions(
    ps_output: Seq<char>,
    probes: Seq<ProbeModel>,
    i: int,
    agent: Agent,
    cwd: Seq<char>,
    id: Seq<char>,
)
    requires
        0 <= i < targets(listed_processes(ps_output)).len(),
        i < probes.len(),
        agent_of(targets(listed_processes(ps_output))[i].command) == Some(agent),
        finding_of(agent, targets(listed_processes(ps_output))[i].command, probes[i]).cwd == Some(
            cwd,
        ),
        finding_of(
            agent,
            targets(listed_processes(ps_output))[i].command,
            probes[i],
        ).session_id == Some(id),
    ensures
        ({
            let process = targets(listed_processes(ps_output))[i];
            running(ps_output, probes).contains(
                SessionModel {
                    agent,
                    pid: process.pid,
                    tty: process.tty,
                    cwd,
                    session_id: id,
                    command: process.command,
                },
            )
        }),
{
    let found = targets(listed_processes(ps_output));
    let findings = findings_of(found, probes);
    assert(findings[i] == told_of(found[i], probes[i]));
    lemma_session_there(found, findings, i);
}

proof fn lemma_session_there(
    processes: Seq<ProcessModel>,
    findings: Seq<FindingModel>,
    i: int,
)
    requires
        0 <= i < processes.len(),
        i < findings.len(),
        session_of(processes[i], findings[i]) is Some,
    ensures
        sessions_of(processes, findings).contains(session_of(processes[i], findings[i])->0),
    decreases processes.len(),
{
    let front = processes.drop_last();
    let before = sessions_of(front, findings);
    let all = sessions_of(processes, findings);
    let session = session_of(processes[i], findings[i])->0;
    if i < front.len() {
        lemma_session_there(front, findings, i);
        let k = choose|k: int| 0 <= k < before.len() && before[k] == session;
        assert(all[k] == session);
    } else {
        assert(all[before.len() as int] == session);
    }
}

/// There are no more sessions than processes that were asked about, and one that
/// lacks a directory or an identifier holds none.
pub proof fn untold_processes_hold_no_session(process: ProcessModel, finding: FindingModel)
    ensures
        finding.cwd is None || finding.session_id is None ==> session_of(process, finding) is None,
        finding.cwd matches Some(cwd) ==> finding.session_id matches Some(id) ==> (session_of(
            process,
            finding,
        ) matches Some(session) && session.pid == process.pid && session.tty == process.tty
            && session.cwd == cwd && session.session_id == id && session.command
            == process.command),
{
}

/// What the command line names comes before what the open files tell; the directory
/// comes from `lsof`.
pub proof fn command_lines_name_first(agent: Agent, command: Seq<char>, probe: ProbeModel)
    ensures
        named_session(agent, command) matches Some(id) ==> finding_of(
            agent,
            command,
            probe,
        ).session_id == Some(id),
        named_session(agent, command) is None && agent == Agent::Codex ==> finding_of(
            agent,
            command,
            probe,
        ).session_id == probe.newest,
        named_session(agent, command) is None && agent == Agent::Amp ==> (probe.files matches Some(
            reply,
        ) ==> reply.success ==> finding_of(agent, command, probe).session_id == only_one(
            line_threads(lines(trim(reply.stdout + reply.stderr))),
        )),
        probe.directory matches Some(reply) ==> (reply.success ==> finding_of(
            agent,
            command,
            probe,
        ).cwd == directory_line(lines(trim(reply.stdout + reply.stderr)))) && (!reply.success
            ==> finding_of(agent, command, probe).cwd is None),
        probe.directory is None ==> finding_of(agent, command, probe).cwd is None,
{
}

/// The working directory is the path of the first line that begins with `n/`, whatever
/// other lines there are.
pub proof fn the_first_path_is_the_directory(
    before: Seq<Seq<char>>,
    path: Seq<char>,
    after: Seq<Seq<char>>,
)
    requires
        starts_with(path, "/"@),
        forall|i: int| 0 <= i < before.len() ==> !starts_with(#[trigger] before[i], "n/"@),
    ensures
        directory_line(before + seq!["n"@ + path] + after) == Some(path),
        directory_line(before) is None,
    decreases before.len() + after.len(),
{
    reveal_strlit("n");
    reveal_strlit("/");
    reveal_strlit("n/");
    let line = "n"@ + path;
    let all = before + seq![line] + after;
    lemma_no_directory(before);
    if after.len() > 0 {
        the_first_path_is_the_directory(before, path, after.drop_last());
        assert(all.drop_last() =~= before + seq![line] + after.drop_last());
    } else {
        assert(all.drop_last() =~= before);
        assert(all.last() == line);
        assert(path.subrange(0, 1)[0] == '/');
        assert(line.subrange(0, 2) =~= "n/"@);
        assert(occurs_at(line, "n/"@, 0));
        assert(line.drop_first() =~= path);
    }
}

proof fn lemma_no_directory(before: Seq<Seq<char>>)
    requires
        forall|i: int| 0 <= i < before.len() ==> !starts_with(#[trigger] before[i], "n/"@),
    ensures
        directory_line(before) is None,
    decreases before.len(),
{
    if before.len() > 0 {
        let front = before.drop_last();
        assert forall|i: int| 0 <= i < front.len() implies !starts_with(
            #[trigger] front[i],
            "n/"@,
        ) by {
            assert(!starts_with(before[i], "n/"@));
        }
        lemma_no_directory(front);
        assert(before[before.len() - 1] == before.last());
    }
}

/// The identifier of a thread is found wherever it stands, and it is the first.
pub proof fn threads_are_found(before: Seq<char>, id: Seq<char>, after: Seq<char>)
    requires
        id.len() == 38,
        id[0] == 'T',
        id[1] == '-',
        is_uuid(id.skip(2)),
        forall|i: int|
            0 <= i < before.len() ==> #[trigger] before[i] != 'T' && before[i] != 't',
    ensures
        first_thread(before + id + after) == Some(id),
    decreases before.len(),
{
    let s = before + id + after;
    if before.len() == 0 {
        assert(s =~= id + after);
        let uuid = id.skip(2);
        assert forall|k: int| 0 <= k < 36 implies if k == 8 || k == 13 || k == 18 || k == 23 {
            #[trigger] s[2 + k] == '-'
        } else {
            is_hex(s[2 + k])
        } by {
            assert(s[2 + k] == uuid[k]);
            assert(uuid[0 + k] == uuid[k]);
        }
        assert(begins_with_thread(s));
        assert(s.take(38) =~= id);
    } else {
        let tail = before.drop_first();
        assert forall|i: int| 0 <= i < tail.len() implies #[trigger] tail[i] != 'T' && tail[i]
            != 't' by {
            assert(before[i + 1] != 'T' && before[i + 1] != 't');
        }
        threads_are_found(tail, id, after);
        assert(before[0] != 'T' && before[0] != 't');
        assert(s[0] == before[0]);
        assert(s.drop_first() =~= tail + id + after);
    }
}

/// A line of `lsof` names a thread's log where it holds the directory of the logs and
/// ends in `.log`, with whitespace behind it or not.
pub proof fn thread_logs_are_known(
    a: Seq<char>,
    b: Seq<char>,
    after: Seq<char>,
    line: Seq<char>,
)
    requires
        is_blank(after),
    ensures
        is_thread_log(a + "/.cache/amp/logs/threads/"@ + b + ".log"@ + after),
        !contains(line, "/.cache/amp/logs/threads/"@) ==> !is_thread_log(line),
        !ends_with(trim_end(line), ".log"@) ==> !is_thread_log(line),
{
    assert(".log"@.len() == 4 && ".log"@.last() == 'g') by {
        reveal_strlit(".log");
    }
    lemma_log_line(a, "/.cache/amp/logs/threads/"@, b, ".log"@, after);
}

/// A line that holds `place` and ends in `end`, but for whitespace.
proof fn lemma_log_line(
    a: Seq<char>,
    place: Seq<char>,
    b: Seq<char>,
    end: Seq<char>,
    after: Seq<char>,
)
    requires
        end.len() > 0,
        !is_space(end.last()),
        is_blank(after),
    ensures
        contains(a + place + b + end + after, place),
        ends_with(trim_end(a + place + b + end + after), end),
{
    let core = a + place + b + end;
    lemma_regrouped(a, place, b, end, after);
    parts_are_found(a, place, b + end + after);
    parts_are_found(a + place + b, end, Seq::empty());
    assert(core.last() == end.last());
    lemma_trailing_space(core, after);
}

proof fn lemma_regrouped(
    a: Seq<char>,
    p: Seq<char>,
    b: Seq<char>,
    l: Seq<char>,
    w: Seq<char>,
)
    ensures
        a + p + b + l + w == a + p + (b + l + w),
{
    assert(a + p + b + l + w =~= a + p + (b + l + w));
}

/// Whitespace at the end is trimmed.
proof fn lemma_trailing_space(core: Seq<char>, after: Seq<char>)
    requires
        core.len() > 0,
        !is_space(core.last()),
        is_blank(after),
    ensures
        trim_end(core + after) == core,
{
    let s = core + after;
    let n = core.len() as int;
    assert forall|i: int| n <= i < s.len() implies is_space(#[trigger] s[i]) by {
        assert(s[i] == after[i - n]);
    }
    assert(s[n - 1] == core.last());
    lemma_trim_end(s, n);
    assert(s.take(n) =~= core);
}

/// A thread is told exactly where all the logs that are open are of one thread.
pub proof fn only_one_thread_is_told(ids: Seq<Seq<char>>, id: Seq<char>)
    ensures
        only_one(ids) == Some(id) <==> ids.len() > 0 && forall|i: int|
            0 <= i < ids.len() ==> #[trigger] ids[i] == id,
        ids.len() == 0 ==> only_one(ids) is None,
{
    if only_one(ids) == Some(id) {
        assert(ids[0] == id);
    }
    if ids.len() > 0 && forall|i: int| 0 <= i < ids.len() ==> #[trigger] ids[i] == id {
        assert(ids[0] == id);
    }
}

/// The conversation whose file was changed last is told: no file of another was
/// changed later.
pub proof fn the_file_changed_last_is_told(files: Seq<DatedRollout>, i: int)
    requires
        0 <= i < files.len(),
        forall|j: int|
            0 <= j < files.len() && j != i ==> (#[trigger] files[j]).modified < files[i].modified,
    ensures
        newest_of(files) == Some(files[i].id@),
{
    assert(changed_last(files, i));
    let k = choose|k: int| #[trigger] changed_last(files, k);
    changed_last_is_unique(files, i, k);
}

/// The conversation that a command line names: for Amp the first thread in it, for
/// Codex what its pattern captures; with neither, none.
pub proof fn command_lines_name_their_conversation(
    before: Seq<char>,
    id: Seq<char>,
    after: Seq<char>,
    command: Seq<char>,
    whole: Seq<char>,
)
    requires
        id.len() == 38,
        id[0] == 'T',
        id[1] == '-',
        is_uuid(id.skip(2)),
        forall|i: int|
            0 <= i < before.len() ==> #[trigger] before[i] != 'T' && before[i] != 't',
    ensures
        named_session(Agent::Amp, before + id + after) == Some(id),
        regex_captures(CODEX_RESUME_PATTERN@, command) == Some(seq![Some(whole), Some(id)])
            ==> named_session(Agent::Codex, command) == Some(id),
        regex_captures(CODEX_RESUME_PATTERN@, command) is None ==> named_session(
            Agent::Codex,
            command,
        ) is None,
{
    threads_are_found(before, id, after);
}

/// A command line too short for the identifier of a thread names none.
pub proof fn short_commands_name_no_thread(command: Seq<char>)
    requires
        command.len() < 38,
    ensures
        named_session(Agent::Amp, command) is None,
    decreases command.len(),
{
    if command.len() > 0 {
        short_commands_name_no_thread(command.drop_first());
    }
}

} // verus!
