//! Finding the conversations that processes under Ghostty hold.
//!
//! Running `ps` and `lsof` is left to the caller; what they print is read here.
use vstd::prelude::*;
use vstd::string::*;

use crate::command::{Reply, ReplyModel, answer, optional_answer, reply_view, run, try_run};
use crate::error::Error;
use crate::list::{last_index, lemma_last_index, lemma_select, select};
use crate::model::{Agent, AgentSession, SessionModel, session_views};
use crate::number::{decimal, decimal_text, parse_u32, read_unsigned};
use crate::path::{base_name, file_name};
use crate::pattern::{
    AMP_THREAD_PATTERN, CODEX_RESUME_PATTERN, CODEX_ROLLOUT_PATTERN, PROCESS_PATTERN, ProcessLine,
    captured, first_thread, group_views, is_uuid, pattern_captures, pattern_find, regex_captures,
};
use crate::text::{
    begins, char_is_digit, chars_of, contains, ends, ends_with, first_word, is_digit, leading_word,
    lines, lines_of, mentions, optional_text, same, starts_with, text_between, texts, trim_end,
    trim_start, trimmed_end,
};

verus! {

// ---------------------------------------------------------------------------
// Processes
// ---------------------------------------------------------------------------
/// A process as `ps` lists it.
#[derive(Debug)]
pub struct Process {
    pub pid: u32,
    pub ppid: u32,
    pub tty: String,
    pub command: String,
}

/// The view of a `Process`.
pub struct ProcessModel {
    pub pid: u32,
    pub ppid: u32,
    pub tty: Seq<char>,
    pub command: Seq<char>,
}

impl View for Process {
    type V = ProcessModel;

    open spec fn view(&self) -> ProcessModel {
        ProcessModel {
            pid: self.pid,
            ppid: self.ppid,
            tty: self.tty@,
            command: self.command@,
        }
    }
}

/// The processes that a list holds.
pub open spec fn process_views(v: Seq<Process>) -> Seq<ProcessModel> {
    v.map_values(|p: Process| p@)
}

/// The process that the captured parts of a line tell of: its number, its
/// parent's, its terminal and its command. There is none where a number is out
/// of range.
pub open spec fn process_of(groups: Option<Seq<Option<Seq<char>>>>) -> Option<ProcessModel> {
    match groups {
        Some(g) => match (
            read_unsigned(g[1]->0, u32::MAX as nat),
            read_unsigned(g[2]->0, u32::MAX as nat),
        ) {
            (Ok(pid), Ok(ppid)) => Some(
                ProcessModel {
                    pid: pid as u32,
                    ppid: ppid as u32,
                    tty: g[3]->0,
                    command: g[4]->0,
                },
            ),
            _ => None,
        },
        None => None,
    }
}

/// The processes that the lines tell of.
pub open spec fn line_processes(all: Seq<Seq<char>>) -> Seq<ProcessModel>
    decreases all.len(),
{
    if all.len() == 0 {
        Seq::empty()
    } else {
        let before = line_processes(all.drop_last());
        match process_of(regex_captures(PROCESS_PATTERN@, all.last())) {
            Some(process) => before.push(process),
            None => before,
        }
    }
}

/// The processes that the output of `ps` tells of.
pub open spec fn listed_processes(output: Seq<char>) -> Seq<ProcessModel> {
    line_processes(lines(output))
}

/// A copy of the text that a group captured; empty where it captured nothing.
fn group_text(groups: &Vec<Option<String>>, i: usize) -> (r: String)
    requires
        i < groups@.len(),
    ensures
        groups@[i as int] is Some ==> Some(r@) == optional_text(groups@[i as int]),
{
    match &groups[i] {
        Some(text) => text.clone(),
        None => String::new(),
    }
}

/// The process that the captured parts of a line tell of.
pub fn process_from_groups(groups: &Option<Vec<Option<String>>>) -> (r: Option<Process>)
    requires
        groups is Some ==> groups->0@.len() == 5 && forall|i: int|
            0 <= i < 5 ==> #[trigger] groups->0@[i] is Some,
    ensures
        match r {
            Some(process) => process_of(captured(*groups)) == Some(process@),
            None => process_of(captured(*groups)) is None,
        },
{
    match groups {
        Some(g) => {
            let pid_text = group_text(g, 1);
            let ppid_text = group_text(g, 2);
            assert(g@[1] is Some && g@[2] is Some && g@[3] is Some && g@[4] is Some);
            let ghost views = group_views(g@);
            assert(views[1] == Some(pid_text@) && views[2] == Some(ppid_text@));
            match (parse_u32(pid_text.as_str()), parse_u32(ppid_text.as_str())) {
                (Ok(pid), Ok(ppid)) => {
                    let tty = group_text(g, 3);
                    let command = group_text(g, 4);
                    assert(views[3] == Some(tty@) && views[4] == Some(command@));
                    Some(Process { pid, ppid, tty, command })
                },
                _ => None,
            }
        },
        None => None,
    }
}

/// The process that a well formed line of `ps` tells of; there is none where a
/// number is out of range.
pub open spec fn told_by(line: ProcessLine) -> Option<ProcessModel> {
    match (read_unsigned(line.pid, u32::MAX as nat), read_unsigned(line.ppid, u32::MAX as nat)) {
        (Ok(pid), Ok(ppid)) => Some(
            ProcessModel {
                pid: pid as u32,
                ppid: ppid as u32,
                tty: line.tty,
                command: line.command,
            },
        ),
        _ => None,
    }
}

/// The processes that well formed lines of `ps` tell of.
pub open spec fn told_by_all(parts: Seq<ProcessLine>) -> Seq<ProcessModel>
    decreases parts.len(),
{
    if parts.len() == 0 {
        Seq::empty()
    } else {
        let before = told_by_all(parts.drop_last());
        match told_by(parts.last()) {
            Some(process) => before.push(process),
            None => before,
        }
    }
}

/// The lines that the parts make.
pub open spec fn lines_made_of(parts: Seq<ProcessLine>) -> Seq<Seq<char>> {
    parts.map_values(|line: ProcessLine| line.text())
}

/// Whether all lines are well formed.
pub open spec fn all_well_formed(parts: Seq<ProcessLine>) -> bool {
    forall|i: int| 0 <= i < parts.len() ==> (#[trigger] parts[i]).well_formed()
}

/// The process, where there is one.
pub open spec fn process_view(process: Option<Process>) -> Option<ProcessModel> {
    match process {
        Some(process) => Some(process@),
        None => None,
    }
}

/// The process that a line of `ps` tells of.
pub fn process_in_line(line: &str) -> (r: Option<Process>)
    ensures
        process_view(r) == process_of(regex_captures(PROCESS_PATTERN@, line@)),
        forall|parts: ProcessLine| #[trigger]
            parts.well_formed() && line@ == parts.text() ==> process_view(r) == told_by(parts),
{
    let groups = pattern_captures(PROCESS_PATTERN, line);
    proof {
        if groups is Some {
            assert forall|k: int| 0 <= k < 5 implies #[trigger] groups->0@[k] is Some by {
                assert(group_views(groups->0@)[k] is Some);
            }
        }
        assert forall|parts: ProcessLine| #[trigger]
            parts.well_formed() && line@ == parts.text() implies process_of(captured(groups))
            == told_by(parts) by {
            let g = parts.groups();
            assert(captured(groups) == Some(g));
            assert(g[1] == Some(parts.pid) && g[2] == Some(parts.ppid));
            assert(g[3] == Some(parts.tty) && g[4] == Some(parts.command));
        }
    }
    process_from_groups(&groups)
}

/// The processes that the output of `ps` tells of. Of well formed lines none is
/// passed over but for a number that is out of range.
pub fn parse_processes(output: &str) -> (r: Vec<Process>)
    ensures
        process_views(r@) == listed_processes(output@),
        forall|parts: Seq<ProcessLine>|
            all_well_formed(parts) && #[trigger] lines_made_of(parts) == lines(output@)
                ==> process_views(r@) == told_by_all(parts),
{
    let all = lines_of(output);
    let ghost model = lines(output@);
    let mut r: Vec<Process> = Vec::new();
    let mut i: usize = 0;
    assert(process_views(r@) =~= line_processes(model.take(0)));
    assert forall|parts: Seq<ProcessLine>|
        all_well_formed(parts) && #[trigger] lines_made_of(parts)
            == model implies process_views(r@) == told_by_all(parts.take(0)) by {
        assert(process_views(r@) =~= told_by_all(parts.take(0)));
    }
    while i < all.len()
        invariant
            model == texts(all@),
            i <= all@.len(),
            process_views(r@) == line_processes(model.take(i as int)),
            forall|parts: Seq<ProcessLine>|
                all_well_formed(parts) && #[trigger] lines_made_of(parts) == model
                    ==> process_views(r@) == told_by_all(parts.take(i as int)),
        decreases all@.len() - i,
    {
        proof {
            assert(model.take(i + 1).drop_last() == model.take(i as int));
            assert(model.take(i + 1).last() == all@[i as int]@);
        }
        let ghost before = r@;
        let found = process_in_line(all[i].as_str());
        let ghost process = process_view(found);
        match found {
            Some(process) => {
                r.push(process);
                assert(process_views(r@) =~= process_views(before).push(process@));
            },
            None => {},
        }
        assert forall|parts: Seq<ProcessLine>|
            all_well_formed(parts) && #[trigger] lines_made_of(parts)
                == model implies process_views(r@) == told_by_all(parts.take(i + 1)) by {
            assert(lines_made_of(parts).len() == parts.len());
            assert(parts[i as int].well_formed());
            assert(lines_made_of(parts)[i as int] == parts[i as int].text());
            assert(process == told_by(parts[i as int]));
            assert(parts.take(i + 1).drop_last() == parts.take(i as int));
            assert(parts.take(i + 1).last() == parts[i as int]);
        }
        i = i + 1;
    }
    assert(model.take(all@.len() as int) == model);
    assert forall|parts: Seq<ProcessLine>|
        all_well_formed(parts) && #[trigger] lines_made_of(parts)
            == model implies process_views(r@) == told_by_all(parts) by {
        assert(lines_made_of(parts).len() == parts.len());
        assert(parts.take(i as int) == parts);
    }
    r
}

/// Whether the command is Codex itself, and not a helper or a script that runs
/// it.
pub open spec fn is_codex(command: Seq<char>) -> bool {
    &&& contains(command, "/bin/codex"@)
    &&& !contains(command, "codex-code-mode-host"@)
    &&& !starts_with(command, "node "@)
}

/// Whether the command's program is called `amp`.
pub open spec fn is_amp(command: Seq<char>) -> bool {
    base_name(leading_word(trim_start(command))) == "amp"@
}

/// Whether the command is Ghostty.
pub open spec fn is_ghostty(command: Seq<char>) -> bool {
    contains(command, "/Ghostty.app/Contents/MacOS/ghostty"@)
}

/// Whether the command is Codex itself.
pub fn codex_process(command: &str) -> (r: bool)
    ensures
        r == is_codex(command@),
{
    mentions(command, "/bin/codex") && !mentions(command, "codex-code-mode-host") && !begins(command, "node ")
}

/// Whether the command's program is called `amp`.
pub fn amp_process(command: &str) -> (r: bool)
    ensures
        r == is_amp(command@),
{
    let program = first_word(command);
    let name = file_name(program.as_str());
    same(name.as_str(), "amp")
}

/// Whether the command is Ghostty.
pub fn ghostty_process(command: &str) -> (r: bool)
    ensures
        r == is_ghostty(command@),
{
    mentions(command, "/Ghostty.app/Contents/MacOS/ghostty")
}

// ---------------------------------------------------------------------------
// Descent
// ---------------------------------------------------------------------------
/// Accepts the processes with number `pid`.
pub open spec fn numbered(pid: u32) -> spec_fn(ProcessModel) -> bool {
    |p: ProcessModel| p.pid == pid
}

/// The number of the process that `n` steps up from `start` lead to. A step goes
/// from a process to its parent; there is none from a process that is not
/// listed, nor to number zero.
pub open spec fn ancestor(all: Seq<ProcessModel>, start: u32, n: nat) -> Option<u32>
    decreases n,
{
    if n == 0 {
        if start > 0 {
            Some(start)
        } else {
            None
        }
    } else {
        match ancestor(all, start, (n - 1) as nat) {
            Some(pid) => match last_index(all, numbered(pid)) {
                Some(i) => if all[i].ppid > 0 {
                    Some(all[i].ppid)
                } else {
                    None
                },
                None => None,
            },
            None => None,
        }
    }
}

/// Whether `pid` is the number of a Ghostty process.
pub open spec fn is_root(all: Seq<ProcessModel>, pid: u32) -> bool {
    exists|i: int| 0 <= i < all.len() && all[i].pid == pid && is_ghostty(#[trigger] all[i].command)
}

/// Whether Ghostty is among the ancestors of `process`.
pub open spec fn descends(all: Seq<ProcessModel>, process: ProcessModel) -> bool {
    exists|n: nat|
        match #[trigger] ancestor(all, process.ppid, n) {
            Some(pid) => is_root(all, pid),
            None => false,
        }
}

/// The parent of the process with number `pid`: of the last one, if several are
/// listed.
fn parent_of(all: &Vec<Process>, pid: u32) -> (r: Option<u32>)
    ensures
        match r {
            Some(ppid) => match last_index(process_views(all@), numbered(pid)) {
                Some(i) => process_views(all@)[i].ppid == ppid,
                None => false,
            },
            None => last_index(process_views(all@), numbered(pid)) is None,
        },
{
    let ghost model = process_views(all@);
    let mut i: usize = all.len();
    assert(model.take(all@.len() as int) == model);
    while i > 0
        invariant
            model == process_views(all@),
            i <= all@.len(),
            last_index(model, numbered(pid)) == last_index(model.take(i as int), numbered(pid)),
        decreases i,
    {
        assert(model.take(i as int).last() == all@[i - 1]@);
        assert(model.take(i as int).drop_last() == model.take(i - 1));
        if all[i - 1].pid == pid {
            return Some(all[i - 1].ppid);
        }
        i = i - 1;
    }
    None
}

/// Whether `pid` is the number of a Ghostty process.
fn is_ghostty_pid(all: &Vec<Process>, pid: u32) -> (r: bool)
    ensures
        r == is_root(process_views(all@), pid),
{
    let ghost model = process_views(all@);
    let mut i: usize = 0;
    while i < all.len()
        invariant
            model == process_views(all@),
            i <= all@.len(),
            forall|j: int|
                0 <= j < i ==> !(model[j].pid == pid && is_ghostty(#[trigger] model[j].command)),
        decreases all@.len() - i,
    {
        if all[i].pid == pid && ghostty_process(all[i].command.as_str()) {
            assert(model[i as int].pid == pid && is_ghostty(model[i as int].command));
            return true;
        }
        i = i + 1;
    }
    false
}

/// Once the steps up come to a number again, they come to no new one.
proof fn lemma_cycle(all: Seq<ProcessModel>, start: u32, first: nat, again: nat, n: nat)
    requires
        first < again <= n,
        ancestor(all, start, first) == ancestor(all, start, again),
    ensures
        exists|k: nat| k < again && #[trigger] ancestor(all, start, k) == ancestor(all, start, n),
    decreases n,
{
    if n == again {
        assert(ancestor(all, start, first) == ancestor(all, start, n));
    } else {
        lemma_cycle(all, start, first, again, (n - 1) as nat);
        let k = choose|k: nat|
            k < again && #[trigger] ancestor(all, start, k) == ancestor(
                all,
                start,
                (n - 1) as nat,
            );
        assert(ancestor(all, start, (k + 1) as nat) == ancestor(all, start, n));
        if k + 1 == again {
            assert(ancestor(all, start, first) == ancestor(all, start, n));
        }
    }
}

/// Where the steps up end, they stay ended.
proof fn lemma_ended(all: Seq<ProcessModel>, start: u32, from: nat, n: nat)
    requires
        from <= n,
        ancestor(all, start, from) is None,
    ensures
        ancestor(all, start, n) is None,
    decreases n,
{
    if n > from {
        lemma_ended(all, start, from, (n - 1) as nat);
    }
}

/// There are no more different listed numbers than processes.
proof fn lemma_listed_bound(all: Seq<ProcessModel>, seen: Seq<u32>)
    requires
        seen.no_duplicates(),
        forall|k: int|
            0 <= k < seen.len() ==> exists|i: int|
                0 <= i < all.len() && all[i].pid == #[trigger] seen[k],
    ensures
        seen.len() <= all.len(),
{
    let pids = all.map_values(|p: ProcessModel| p.pid);
    seen.unique_seq_to_set();
    pids.lemma_cardinality_of_set();
    assert(seen.to_set().subset_of(pids.to_set())) by {
        assert forall|x: u32| seen.to_set().contains(x) implies pids.to_set().contains(x) by {
            let k = choose|k: int| 0 <= k < seen.len() && seen[k] == x;
            let i = choose|i: int| 0 <= i < all.len() && all[i].pid == seen[k];
            assert(pids[i] == x);
        }
    }
    vstd::set_lib::lemma_len_subset(seen.to_set(), pids.to_set());
}

/// Whether Ghostty is among the ancestors of a process.
pub fn descends_from(process: &Process, all: &Vec<Process>) -> (r: bool)
    ensures
        r == descends(process_views(all@), process@),
{
    let ghost model = process_views(all@);
    let ghost start = process.ppid;
    let mut seen: Vec<u32> = Vec::new();
    let mut parent: u32 = process.ppid;
    while parent > 0
        invariant
            model == process_views(all@),
            start == process.ppid,
            ancestor(model, start, seen@.len()) == (if parent > 0 {
                Some(parent)
            } else {
                None
            }),
            forall|k: int|
                0 <= k < seen@.len() ==> ancestor(model, start, k as nat) == Some(
                    #[trigger] seen@[k],
                ),
            forall|k: int| 0 <= k < seen@.len() ==> !is_root(model, #[trigger] seen@[k]),
            seen@.no_duplicates(),
            forall|k: int|
                0 <= k < seen@.len() ==> exists|i: int|
                    0 <= i < model.len() && model[i].pid == #[trigger] seen@[k],
        decreases model.len() + 1 - seen@.len(),
    {
        let mut k: usize = 0;
        while k < seen.len()
            invariant
                k <= seen@.len(),
                forall|j: int| 0 <= j < k ==> #[trigger] seen@[j] != parent,
                model == process_views(all@),
                start == process.ppid,
                parent > 0,
                ancestor(model, start, seen@.len()) == Some(parent),
                forall|k: int|
                    0 <= k < seen@.len() ==> ancestor(model, start, k as nat) == Some(
                        #[trigger] seen@[k],
                    ),
                forall|k: int| 0 <= k < seen@.len() ==> !is_root(model, #[trigger] seen@[k]),
            decreases seen@.len() - k,
        {
            if seen[k] == parent {
                proof {
                    assert forall|n: nat|
                        match #[trigger] ancestor(model, start, n) {
                            Some(pid) => !is_root(model, pid),
                            None => true,
                        } by {
                        if n >= seen@.len() {
                            lemma_cycle(model, start, k as nat, seen@.len(), n);
                            let m = choose|m: nat|
                                m < seen@.len() && #[trigger] ancestor(model, start, m) == ancestor(
                                    model,
                                    start,
                                    n,
                                );
                            assert(!is_root(model, seen@[m as int]));
                        } else {
                            assert(!is_root(model, seen@[n as int]));
                        }
                    }
                }
                return false;
            }
            k = k + 1;
        }
        if is_ghostty_pid(all, parent) {
            assert(ancestor(model, start, seen@.len()) == Some(parent));
            return true;
        }
        match parent_of(all, parent) {
            Some(next) => {
                let ghost before = seen@;
                proof {
                    lemma_last_index(model, numbered(parent));
                    let i = last_index(model, numbered(parent))->0;
                    assert(model[i].pid == parent);
                }
                seen.push(parent);
                proof {
                    assert forall|k: int| 0 <= k < seen@.len() implies exists|i: int|
                        0 <= i < model.len() && model[i].pid == #[trigger] seen@[k] by {
                        if k < before.len() {
                            assert(seen@[k] == before[k]);
                        } else {
                            let i = last_index(model, numbered(parent))->0;
                            assert(model[i].pid == seen@[k]);
                        }
                    }
                    lemma_listed_bound(model, seen@);
                }
                parent = next;
            },
            None => {
                proof {
                    assert(ancestor(model, start, (seen@.len() + 1) as nat) is None);
                    assert forall|n: nat|
                        match #[trigger] ancestor(model, start, n) {
                            Some(pid) => !is_root(model, pid),
                            None => true,
                        } by {
                        if n > seen@.len() {
                            lemma_ended(model, start, (seen@.len() + 1) as nat, n);
                        } else if n < seen@.len() {
                            assert(!is_root(model, seen@[n as int]));
                        }
                    }
                }
                return false;
            },
        }
    }
    proof {
        assert forall|n: nat|
            match #[trigger] ancestor(model, start, n) {
                Some(pid) => !is_root(model, pid),
                None => true,
            } by {
            if n >= seen@.len() {
                lemma_ended(model, start, seen@.len(), n);
            } else {
                assert(!is_root(model, seen@[n as int]));
            }
        }
    }
    false
}

// ---------------------------------------------------------------------------
// Sessions
// ---------------------------------------------------------------------------
/// The agent that a command runs.
pub open spec fn agent_of(command: Seq<char>) -> Option<Agent> {
    if is_codex(command) {
        Some(Agent::Codex)
    } else if is_amp(command) {
        Some(Agent::Amp)
    } else {
        None
    }
}

/// Whether Ghostty is among the processes.
pub open spec fn ghostty_runs(all: Seq<ProcessModel>) -> bool {
    exists|i: int| 0 <= i < all.len() && is_ghostty(#[trigger] all[i].command)
}

/// Accepts the processes that may hold a conversation of a Ghostty terminal:
/// agents that descend from Ghostty, or any agent where Ghostty is not listed.
pub open spec fn inspected(all: Seq<ProcessModel>) -> spec_fn(ProcessModel) -> bool {
    |p: ProcessModel| agent_of(p.command) is Some && (ghostty_runs(all) ==> descends(all, p))
}

/// The processes to look into.
pub open spec fn targets(all: Seq<ProcessModel>) -> Seq<ProcessModel> {
    select(all, inspected(all))
}

/// What looking into a process found.
#[derive(Debug)]
pub struct Finding {
    /// Its working directory, where it could be told.
    pub cwd: Option<String>,
    /// The identifier of its conversation, where it could be told.
    pub session_id: Option<String>,
}

/// The view of a `Finding`.
pub struct FindingModel {
    pub cwd: Option<Seq<char>>,
    pub session_id: Option<Seq<char>>,
}

impl View for Finding {
    type V = FindingModel;

    open spec fn view(&self) -> FindingModel {
        FindingModel {
            cwd: optional_text(self.cwd),
            session_id: optional_text(self.session_id),
        }
    }
}

/// The findings that a list holds.
pub open spec fn finding_views(v: Seq<Finding>) -> Seq<FindingModel> {
    v.map_values(|f: Finding| f@)
}

/// The session that a process holds: the finding on it must tell the directory and
/// the identifier.
pub open spec fn session_of(process: ProcessModel, finding: FindingModel) -> Option<
    SessionModel,
> {
    match (finding.cwd, finding.session_id) {
        (Some(cwd), Some(session_id)) => Some(
            SessionModel {
                agent: agent_of(process.command)->0,
                pid: process.pid,
                tty: process.tty,
                cwd,
                session_id,
                command: process.command,
            },
        ),
        _ => None,
    }
}

/// The sessions that processes hold. Each finding is on the process in the same
/// place; a process without a finding holds none.
pub open spec fn sessions_of(
    processes: Seq<ProcessModel>,
    findings: Seq<FindingModel>,
) -> Seq<SessionModel>
    decreases processes.len(),
{
    if processes.len() == 0 {
        Seq::empty()
    } else {
        let before = sessions_of(processes.drop_last(), findings);
        let n = processes.len() - 1;
        if n < findings.len() {
            match session_of(processes.last(), findings[n]) {
                Some(session) => before.push(session),
                None => before,
            }
        } else {
            before
        }
    }
}

/// The agent that a command runs.
pub fn agent_for(command: &str) -> (r: Option<Agent>)
    ensures
        r == agent_of(command@),
{
    if codex_process(command) {
        Some(Agent::Codex)
    } else if amp_process(command) {
        Some(Agent::Amp)
    } else {
        None
    }
}

/// Whether Ghostty is among the processes.
fn lists_ghostty(all: &Vec<Process>) -> (r: bool)
    ensures
        r == ghostty_runs(process_views(all@)),
{
    let ghost model = process_views(all@);
    let mut i: usize = 0;
    while i < all.len()
        invariant
            model == process_views(all@),
            i <= all@.len(),
            forall|j: int| 0 <= j < i ==> !is_ghostty(#[trigger] model[j].command),
        decreases all@.len() - i,
    {
        if ghostty_process(all[i].command.as_str()) {
            assert(is_ghostty(model[i as int].command));
            return true;
        }
        i = i + 1;
    }
    false
}

/// The processes to look into, of those listed.
pub fn agent_processes(all: &Vec<Process>) -> (r: Vec<Process>)
    ensures
        process_views(r@) == targets(process_views(all@)),
{
    let ghost model = process_views(all@);
    let ghost keep = inspected(model);
    let under_ghostty = lists_ghostty(all);
    let mut r: Vec<Process> = Vec::new();
    let mut i: usize = 0;
    assert(process_views(r@) =~= select(model.take(0), keep));
    while i < all.len()
        invariant
            model == process_views(all@),
            keep == inspected(model),
            under_ghostty == ghostty_runs(model),
            i <= all@.len(),
            process_views(r@) == select(model.take(i as int), keep),
        decreases all@.len() - i,
    {
        let process = &all[i];
        let ghost before = r@;
        proof {
            assert(model.take(i + 1).drop_last() == model.take(i as int));
            assert(model.take(i + 1).last() == process@);
        }
        let is_agent = agent_for(process.command.as_str()).is_some();
        if is_agent && (!under_ghostty || descends_from(process, all)) {
            r.push(
                Process {
                    pid: process.pid,
                    ppid: process.ppid,
                    tty: process.tty.clone(),
                    command: process.command.clone(),
                },
            );
            assert(process_views(r@) =~= process_views(before).push(process@));
        }
        i = i + 1;
    }
    assert(model.take(all@.len() as int) == model);
    r
}

/// The processes that the output of `ps` gives reason to look into.
pub fn inspection_targets(ps_output: &str) -> (r: Vec<Process>)
    ensures
        process_views(r@) == targets(listed_processes(ps_output@)),
{
    agent_processes(&parse_processes(ps_output))
}

/// The session that a process holds, by the finding on it.
fn session_for(process: &Process, finding: &Finding) -> (r: Option<AgentSession>)
    requires
        agent_of(process@.command) is Some,
    ensures
        match r {
            Some(session) => session_of(process@, finding@) == Some(session@),
            None => session_of(process@, finding@) is None,
        },
{
    match (&finding.cwd, &finding.session_id, agent_for(process.command.as_str())) {
        (Some(cwd), Some(session_id), Some(agent)) => Some(
            AgentSession {
                agent,
                pid: process.pid,
                tty: process.tty.clone(),
                cwd: cwd.clone(),
                session_id: session_id.clone(),
                command: process.command.clone(),
            },
        ),
        _ => None,
    }
}

/// The sessions that processes hold, by the findings.
pub fn sessions_from(processes: &Vec<Process>, findings: &Vec<Finding>) -> (r: Vec<AgentSession>)
    requires
        forall|i: int|
            0 <= i < processes@.len() ==> agent_of(#[trigger] processes@[i]@.command) is Some,
    ensures
        session_views(r@) == sessions_of(process_views(processes@), finding_views(findings@)),
{
    let ghost model = process_views(processes@);
    let ghost found = finding_views(findings@);
    let mut r: Vec<AgentSession> = Vec::new();
    let mut i: usize = 0;
    assert(session_views(r@) =~= sessions_of(model.take(0), found));
    while i < processes.len()
        invariant
            model == process_views(processes@),
            found == finding_views(findings@),
            i <= processes@.len(),
            session_views(r@) == sessions_of(model.take(i as int), found),
            forall|i: int|
                0 <= i < processes@.len() ==> agent_of(#[trigger] processes@[i]@.command) is Some,
        decreases processes@.len() - i,
    {
        let ghost before = r@;
        proof {
            assert(model.take(i + 1).drop_last() == model.take(i as int));
            assert(model.take(i + 1).last() == processes@[i as int]@);
        }
        if i < findings.len() {
            assert(found[i as int] == findings@[i as int]@);
            match session_for(&processes[i], &findings[i]) {
                Some(session) => {
                    r.push(session);
                    assert(session_views(r@) =~= session_views(before).push(session@));
                },
                None => {},
            }
        }
        i = i + 1;
    }
    assert(model.take(processes@.len() as int) == model);
    r
}

/// The sessions that the output of `ps` and the findings on its processes tell
/// of. Each finding is on the process in the same place of `inspection_targets`.
pub fn discover_sessions(ps_output: &str, findings: &Vec<Finding>) -> (r: Vec<AgentSession>)
    ensures
        session_views(r@) == sessions_of(
            targets(listed_processes(ps_output@)),
            finding_views(findings@),
        ),
{
    let processes = inspection_targets(ps_output);
    proof {
        let all = listed_processes(ps_output@);
        lemma_select(all, inspected(all));
        assert forall|i: int| 0 <= i < processes@.len() implies agent_of(
            #[trigger] processes@[i]@.command,
        ) is Some by {
            assert(targets(all)[i] == processes@[i]@);
        }
    }
    sessions_from(&processes, findings)
}

// ---------------------------------------------------------------------------
// Identifiers
// ---------------------------------------------------------------------------
/// What group `i` captured, if there was a match.
pub open spec fn group_of(groups: Option<Seq<Option<Seq<char>>>>, i: int) -> Option<Seq<char>> {
    match groups {
        Some(g) => g[i],
        None => None,
    }
}

/// The identifier that a command line names.
pub open spec fn named_session(agent: Agent, command: Seq<char>) -> Option<Seq<char>> {
    match agent {
        Agent::Codex => group_of(regex_captures(CODEX_RESUME_PATTERN@, command), 1),
        Agent::Amp => first_thread(command),
    }
}

/// What group `i` captured, if there was a match.
pub fn captured_group(groups: &Option<Vec<Option<String>>>, i: usize) -> (r: Option<String>)
    requires
        groups is Some ==> i < groups->0@.len(),
    ensures
        optional_text(r) == group_of(captured(*groups), i as int),
{
    match groups {
        Some(g) => {
            assert(group_views(g@)[i as int] == optional_text(g@[i as int]));
            match &g[i] {
                Some(text) => Some(text.clone()),
                None => None,
            }
        },
        None => None,
    }
}

/// The identifier that a command line names.
pub fn session_id_in_command(agent: Agent, command: &str) -> (r: Option<String>)
    ensures
        optional_text(r) == named_session(agent, command@),
        agent == Agent::Codex && r is Some ==> is_uuid(r->0@),
{
    match agent {
        Agent::Codex => captured_group(&pattern_captures(CODEX_RESUME_PATTERN, command), 1),
        Agent::Amp => pattern_find(AMP_THREAD_PATTERN, command),
    }
}

/// The working directory that `lsof` prints: the first line that begins with
/// `n/`, without the `n`.
pub open spec fn directory_line(all: Seq<Seq<char>>) -> Option<Seq<char>>
    decreases all.len(),
{
    if all.len() == 0 {
        None
    } else {
        match directory_line(all.drop_last()) {
            Some(cwd) => Some(cwd),
            None => if starts_with(all.last(), "n/"@) {
                Some(all.last().drop_first())
            } else {
                None
            },
        }
    }
}

/// A directory found in the first lines is the one found in all of them.
proof fn lemma_directory_prefix(all: Seq<Seq<char>>, n: int)
    requires
        0 <= n <= all.len(),
        directory_line(all.take(n)) is Some,
    ensures
        directory_line(all) == directory_line(all.take(n)),
    decreases all.len() - n,
{
    if n == all.len() {
        assert(all.take(n) == all);
    } else {
        assert(all.take(n + 1).drop_last() == all.take(n));
        lemma_directory_prefix(all, n + 1);
    }
}

/// The working directory that `lsof` prints for a process.
pub fn cwd_from_lsof(output: &str) -> (r: Option<String>)
    ensures
        optional_text(r) == directory_line(lines(output@)),
{
    let all = lines_of(output);
    let ghost model = lines(output@);
    let mut i: usize = 0;
    while i < all.len()
        invariant
            model == texts(all@),
            model == lines(output@),
            i <= all@.len(),
            directory_line(model.take(i as int)) is None,
        decreases all@.len() - i,
    {
        proof {
            assert(model.take(i + 1).drop_last() == model.take(i as int));
            assert(model.take(i + 1).last() == all@[i as int]@);
        }
        if begins(all[i].as_str(), "n/") {
            let chars = chars_of(all[i].as_str());
            proof {
                reveal_strlit("n/");
                lemma_directory_prefix(model, i + 1);
                assert(chars@.subrange(1, chars@.len() as int) == chars@.drop_first());
            }
            return Some(text_between(&chars, 1, chars.len()));
        }
        i = i + 1;
    }
    assert(model.take(all@.len() as int) == model);
    None
}

/// The file of a Codex conversation that a process has open.
#[derive(Debug)]
pub struct Rollout {
    pub path: String,
    pub id: String,
}

impl View for Rollout {
    type V = (Seq<char>, Seq<char>);

    open spec fn view(&self) -> (Seq<char>, Seq<char>) {
        (self.path@, self.id@)
    }
}

/// The files that a list holds.
pub open spec fn rollout_views(v: Seq<Rollout>) -> Seq<(Seq<char>, Seq<char>)> {
    v.map_values(|r: Rollout| r@)
}

/// The path and the identifier that the captured parts of a line tell.
pub open spec fn rollout_of(groups: Option<Seq<Option<Seq<char>>>>) -> Option<
    (Seq<char>, Seq<char>),
> {
    match (group_of(groups, 1), group_of(groups, 2)) {
        (Some(path), Some(id)) => Some((path, id)),
        _ => None,
    }
}

/// The files that the lines tell of.
pub open spec fn line_rollouts(all: Seq<Seq<char>>) -> Seq<(Seq<char>, Seq<char>)>
    decreases all.len(),
{
    if all.len() == 0 {
        Seq::empty()
    } else {
        let before = line_rollouts(all.drop_last());
        match rollout_of(regex_captures(CODEX_ROLLOUT_PATTERN@, all.last())) {
            Some(rollout) => before.push(rollout),
            None => before,
        }
    }
}

/// The path and the identifier that the captured parts of a line tell.
pub fn rollout_from_groups(groups: &Option<Vec<Option<String>>>) -> (r: Option<Rollout>)
    requires
        groups is Some ==> groups->0@.len() == 3,
    ensures
        match r {
            Some(rollout) => rollout_of(captured(*groups)) == Some(rollout@),
            None => rollout_of(captured(*groups)) is None,
        },
{
    match (captured_group(groups, 1), captured_group(groups, 2)) {
        (Some(path), Some(id)) => Some(Rollout { path, id }),
        _ => None,
    }
}

/// The files of Codex conversations that `lsof` lists for a process.
pub fn codex_rollouts(output: &str) -> (r: Vec<Rollout>)
    ensures
        rollout_views(r@) == line_rollouts(lines(output@)),
{
    let all = lines_of(output);
    let ghost model = lines(output@);
    let mut r: Vec<Rollout> = Vec::new();
    let mut i: usize = 0;
    assert(rollout_views(r@) =~= line_rollouts(model.take(0)));
    while i < all.len()
        invariant
            model == texts(all@),
            i <= all@.len(),
            rollout_views(r@) == line_rollouts(model.take(i as int)),
        decreases all@.len() - i,
    {
        let groups = pattern_captures(CODEX_ROLLOUT_PATTERN, all[i].as_str());
        let ghost before = r@;
        proof {
            assert(model.take(i + 1).drop_last() == model.take(i as int));
            assert(model.take(i + 1).last() == all@[i as int]@);
        }
        match rollout_from_groups(&groups) {
            Some(rollout) => {
                r.push(rollout);
                assert(rollout_views(r@) =~= rollout_views(before).push(rollout@));
            },
            None => {},
        }
        i = i + 1;
    }
    assert(model.take(all@.len() as int) == model);
    r
}

/// A conversation's file with the time of its last change.
#[derive(Debug)]
pub struct DatedRollout {
    pub id: String,
    /// Nanoseconds since the epoch.
    pub modified: i128,
}

/// Whether file `i` was changed last: no file later, and none behind it at the
/// same time.
pub open spec fn changed_last(files: Seq<DatedRollout>, i: int) -> bool {
    &&& 0 <= i < files.len()
    &&& forall|j: int|
        0 <= j < files.len() ==> (#[trigger] files[j]).modified <= files[i].modified
    &&& forall|j: int| i < j < files.len() ==> (#[trigger] files[j]).modified < files[i].modified
}

/// The conversation whose file was changed last.
pub fn newest_codex_session(files: &Vec<DatedRollout>) -> (r: Option<String>)
    ensures
        match r {
            Some(id) => exists|i: int|
                #[trigger] changed_last(files@, i) && files@[i].id@ == id@,
            None => files@.len() == 0,
        },
{
    if files.len() == 0 {
        return None;
    }
    let mut best: usize = 0;
    let mut i: usize = 1;
    while i < files.len()
        invariant
            best < i <= files@.len(),
            forall|j: int|
                0 <= j < i ==> (#[trigger] files@[j]).modified <= files@[best as int].modified,
            forall|j: int|
                best < j < i ==> (#[trigger] files@[j]).modified < files@[best as int].modified,
        decreases files@.len() - i,
    {
        if files[i].modified >= files[best].modified {
            best = i;
        }
        i = i + 1;
    }
    assert(changed_last(files@, best as int));
    Some(files[best].id.clone())
}

/// Only one file was changed last.
pub proof fn changed_last_is_unique(files: Seq<DatedRollout>, a: int, b: int)
    requires
        changed_last(files, a),
        changed_last(files, b),
    ensures
        a == b,
{
    assert(files[a].modified <= files[b].modified);
    assert(files[b].modified <= files[a].modified);
}

/// Whether a line of `lsof` names the log of an Amp thread.
pub open spec fn is_thread_log(line: Seq<char>) -> bool {
    contains(line, "/.cache/amp/logs/threads/"@) && ends_with(trim_end(line), ".log"@)
}

/// The identifiers of the threads whose logs the lines name.
pub open spec fn line_threads(all: Seq<Seq<char>>) -> Seq<Seq<char>>
    decreases all.len(),
{
    if all.len() == 0 {
        Seq::empty()
    } else {
        let before = line_threads(all.drop_last());
        match first_thread(all.last()) {
            Some(id) => if is_thread_log(all.last()) {
                before.push(id)
            } else {
                before
            },
            None => before,
        }
    }
}

/// The one text that all of `ids` are.
pub open spec fn only_one(ids: Seq<Seq<char>>) -> Option<Seq<char>> {
    if ids.len() > 0 && forall|i: int| 0 <= i < ids.len() ==> #[trigger] ids[i] == ids[0] {
        Some(ids[0])
    } else {
        None
    }
}

/// The Amp thread whose log a process has open, where it is only one.
pub fn amp_thread_from_lsof(output: &str) -> (r: Option<String>)
    ensures
        optional_text(r) == only_one(line_threads(lines(output@))),
{
    let all = lines_of(output);
    let ghost model = lines(output@);
    let mut ids: Vec<String> = Vec::new();
    let mut i: usize = 0;
    assert(texts(ids@) =~= line_threads(model.take(0)));
    while i < all.len()
        invariant
            model == texts(all@),
            i <= all@.len(),
            texts(ids@) == line_threads(model.take(i as int)),
        decreases all@.len() - i,
    {
        let line = all[i].as_str();
        let ghost before = ids@;
        proof {
            assert(model.take(i + 1).drop_last() == model.take(i as int));
            assert(model.take(i + 1).last() == all@[i as int]@);
        }
        let ended = trimmed_end(line);
        if mentions(line, "/.cache/amp/logs/threads/") && ends(ended.as_str(), ".log") {
            match pattern_find(AMP_THREAD_PATTERN, line) {
                Some(id) => {
                    ids.push(id);
                    assert(texts(ids@) =~= texts(before).push(id@));
                },
                None => {},
            }
        }
        i = i + 1;
    }
    assert(model.take(all@.len() as int) == model);
    let ghost found = texts(ids@);
    if ids.len() == 0 {
        return None;
    }
    let mut k: usize = 1;
    while k < ids.len()
        invariant
            found == texts(ids@),
            found == line_threads(lines(output@)),
            1 <= k <= ids@.len(),
            forall|j: int| 0 <= j < k ==> #[trigger] found[j] == found[0],
        decreases ids@.len() - k,
    {
        if !same(ids[k].as_str(), ids[0].as_str()) {
            assert(found[k as int] != found[0]);
            return None;
        }
        k = k + 1;
    }
    Some(ids[0].clone())
}

/// The number at the end of a terminal's name; one million where there is none
/// of 32 bits.
pub open spec fn terminal_number(tty: Seq<char>) -> u32 {
    match read_unsigned(trailing_digits(tty), u32::MAX as nat) {
        Ok(n) => n as u32,
        Err(_) => 1_000_000,
    }
}

/// The digits that a text ends in.
pub open spec fn trailing_digits(s: Seq<char>) -> Seq<char>
    decreases s.len(),
{
    if s.len() > 0 && is_digit(s.last()) {
        trailing_digits(s.drop_last()).push(s.last())
    } else {
        Seq::empty()
    }
}

/// The digits at the end stand in one run.
proof fn lemma_trailing_digits(s: Seq<char>, n: int)
    requires
        0 <= n <= s.len(),
        forall|i: int| n <= i < s.len() ==> is_digit(#[trigger] s[i]),
        n > 0 ==> !is_digit(s[n - 1]),
    ensures
        trailing_digits(s) == s.skip(n),
    decreases s.len(),
{
    if n < s.len() {
        assert(is_digit(s[s.len() - 1]));
        lemma_trailing_digits(s.drop_last(), n);
        assert(s.drop_last().skip(n).push(s.last()) =~= s.skip(n));
    } else {
        assert(s.skip(n) =~= Seq::empty());
    }
}

/// The number at the end of a terminal's name.
pub fn tty_number(tty: &str) -> (r: u32)
    ensures
        r == terminal_number(tty@),
{
    let chars = chars_of(tty);
    let mut n: usize = chars.len();
    while n > 0 && char_is_digit(chars[n - 1])
        invariant
            n <= chars@.len(),
            forall|i: int| n <= i < chars@.len() ==> is_digit(#[trigger] chars@[i]),
        decreases n,
    {
        n = n - 1;
    }
    proof {
        lemma_trailing_digits(chars@, n as int);
        assert(chars@.skip(n as int) == chars@.subrange(n as int, chars@.len() as int));
    }
    let digits = text_between(&chars, n, chars.len());
    match parse_u32(digits.as_str()) {
        Ok(number) => number,
        Err(_) => 1_000_000,
    }
}

// ---------------------------------------------------------------------------
// Everything that runs
// ---------------------------------------------------------------------------
/// What was asked about one process.
#[derive(Debug)]
pub struct Probe {
    /// What `lsof` answered about its working directory.
    pub directory: Option<Reply>,
    /// What `lsof` answered about its open files.
    pub files: Option<Reply>,
    /// The files of Codex conversations among them, with their times.
    pub rollouts: Vec<DatedRollout>,
}

/// The view of a `Probe`.
pub struct ProbeModel {
    pub directory: Option<ReplyModel>,
    pub files: Option<ReplyModel>,
    pub newest: Option<Seq<char>>,
}

/// The conversation whose file was changed last.
pub open spec fn newest_of(files: Seq<DatedRollout>) -> Option<Seq<char>> {
    if files.len() == 0 {
        None
    } else {
        Some(files[choose|i: int| #[trigger] changed_last(files, i)].id@)
    }
}

impl View for Probe {
    type V = ProbeModel;

    open spec fn view(&self) -> ProbeModel {
        ProbeModel {
            directory: reply_view(self.directory),
            files: reply_view(self.files),
            newest: newest_of(self.rollouts@),
        }
    }
}

/// The probes that a list holds.
pub open spec fn probe_views(v: Seq<Probe>) -> Seq<ProbeModel> {
    v.map_values(|p: Probe| p@)
}

/// The conversation whose files a process has open: for Codex the one whose file
/// was changed last, for Amp the only one.
pub open spec fn open_session(agent: Agent, probe: ProbeModel) -> Option<Seq<char>> {
    match agent {
        Agent::Codex => probe.newest,
        Agent::Amp => match optional_answer(probe.files) {
            Some(output) => only_one(line_threads(lines(output))),
            None => None,
        },
    }
}

/// What a probe tells about a process that runs `command`. The identifier that the
/// command line names comes before one of the open files.
pub open spec fn finding_of(agent: Agent, command: Seq<char>, probe: ProbeModel) -> FindingModel {
    FindingModel {
        cwd: match optional_answer(probe.directory) {
            Some(output) => directory_line(lines(output)),
            None => None,
        },
        session_id: match named_session(agent, command) {
            Some(id) => Some(id),
            None => open_session(agent, probe),
        },
    }
}

/// What a probe tells about a process; nothing, where it is of no agent.
pub open spec fn told_of(process: ProcessModel, probe: ProbeModel) -> FindingModel {
    match agent_of(process.command) {
        Some(agent) => finding_of(agent, process.command, probe),
        None => FindingModel { cwd: None, session_id: None },
    }
}

/// What the probes tell about processes: each about the process in the same place.
pub open spec fn findings_of(processes: Seq<ProcessModel>, probes: Seq<ProbeModel>) -> Seq<
    FindingModel,
> {
    let n = if processes.len() < probes.len() {
        processes.len()
    } else {
        probes.len()
    };
    Seq::new(n, |i: int| told_of(processes[i], probes[i]))
}

/// The sessions that run, by what `ps` lists and what the probes tell.
pub open spec fn running(ps_output: Seq<char>, probes: Seq<ProbeModel>) -> Seq<SessionModel> {
    let found = targets(listed_processes(ps_output));
    sessions_of(found, findings_of(found, probes))
}

/// The identifier of a conversation: the one that the command line names, else the
/// one of the open files.
pub fn session_id_or(named: Option<String>, open: Option<String>) -> (r: Option<String>)
    ensures
        r == match named {
            Some(id) => Some(id),
            None => open,
        },
{
    match named {
        Some(id) => Some(id),
        None => open,
    }
}

/// Whether the open files of a process matter: its working directory is told, and
/// its command line names no conversation.
pub open spec fn files_matter(
    agent: Agent,
    command: Seq<char>,
    directory: Option<ReplyModel>,
) -> bool {
    &&& optional_answer(directory) matches Some(output) && directory_line(lines(output)) is Some
    &&& named_session(agent, command) is None
}

/// Whether the open files of a process matter.
pub fn needs_open_files(agent: Agent, command: &str, directory: &Option<Reply>) -> (r: bool)
    ensures
        r == files_matter(agent, command@, reply_view(*directory)),
{
    let told = match try_run("lsof", directory) {
        Some(output) => cwd_from_lsof(output.as_str()).is_some(),
        None => false,
    };
    told && session_id_in_command(agent, command).is_none()
}

/// Where the open files of a process do not matter, what is found without them is
/// what is found with them: the same directory and conversation, or no session.
pub proof fn open_files_do_not_matter_otherwise(
    agent: Agent,
    command: Seq<char>,
    a: ProbeModel,
    b: ProbeModel,
)
    requires
        a.directory == b.directory,
        !files_matter(agent, command, a.directory),
    ensures
        finding_of(agent, command, a).cwd == finding_of(agent, command, b).cwd,
        finding_of(agent, command, a).cwd is None || finding_of(agent, command, a).session_id
            == finding_of(agent, command, b).session_id,
{
}

/// What a probe tells about a process that runs `command`.
pub fn finding_for(agent: Agent, command: &str, probe: &Probe) -> (r: Finding)
    ensures
        r@ == finding_of(agent, command@, probe@),
{
    let cwd = match try_run("lsof", &probe.directory) {
        Some(output) => cwd_from_lsof(output.as_str()),
        None => None,
    };
    let open = match agent {
        Agent::Codex => {
            let newest = newest_codex_session(&probe.rollouts);
            proof {
                let files = probe.rollouts@;
                if files.len() > 0 {
                    let i = choose|i: int| #[trigger] changed_last(files, i) && files[i].id@
                        == newest->0@;
                    let j = choose|j: int| #[trigger] changed_last(files, j);
                    changed_last_is_unique(files, i, j);
                }
                assert(optional_text(newest) == newest_of(files));
            }
            newest
        },
        Agent::Amp => match try_run("lsof", &probe.files) {
            Some(output) => amp_thread_from_lsof(output.as_str()),
            None => None,
        },
    };
    let session_id = session_id_or(session_id_in_command(agent, command), open);
    Finding { cwd, session_id }
}

/// What the probes tell about processes.
fn findings_for(processes: &Vec<Process>, probes: &Vec<Probe>) -> (r: Vec<Finding>)
    ensures
        finding_views(r@) == findings_of(process_views(processes@), probe_views(probes@)),
{
    let ghost all = process_views(processes@);
    let ghost model = probe_views(probes@);
    let ghost wanted = findings_of(all, model);
    let mut r: Vec<Finding> = Vec::new();
    let mut i: usize = 0;
    assert(finding_views(r@) =~= wanted.take(0));
    while i < processes.len() && i < probes.len()
        invariant
            all == process_views(processes@),
            model == probe_views(probes@),
            wanted == findings_of(all, model),
            i <= processes@.len(),
            i <= probes@.len(),
            finding_views(r@) == wanted.take(i as int),
        decreases processes@.len() - i,
    {
        let process = &processes[i];
        let ghost before = r@;
        assert(all[i as int] == process@);
        assert(model[i as int] == probes@[i as int]@);
        let finding = match agent_for(process.command.as_str()) {
            Some(agent) => finding_for(agent, process.command.as_str(), &probes[i]),
            None => Finding { cwd: None, session_id: None },
        };
        assert(finding@ == wanted[i as int]);
        r.push(finding);
        assert(finding_views(r@) =~= finding_views(before).push(finding@));
        assert(wanted.take(i + 1) =~= wanted.take(i as int).push(finding@));
        i = i + 1;
    }
    assert(wanted.take(i as int) == wanted);
    r
}

/// The arguments with which `ps` lists all processes.
pub fn process_list_request() -> (r: Vec<String>)
    ensures
        texts(r@) == seq!["-axo"@, "pid=,ppid=,tty=,command="@],
{
    let r = vec!["-axo".to_owned(), "pid=,ppid=,tty=,command=".to_owned()];
    assert(texts(r@) =~= seq!["-axo"@, "pid=,ppid=,tty=,command="@]);
    r
}

/// The arguments with which `lsof` tells the working directory of a process.
pub fn directory_request(pid: u32) -> (r: Vec<String>)
    ensures
        texts(r@) == seq![
            "-nP"@,
            "-a"@,
            "-p"@,
            decimal(pid as nat),
            "-d"@,
            "cwd"@,
            "-Fn"@,
        ],
{
    let r = vec![
        "-nP".to_owned(),
        "-a".to_owned(),
        "-p".to_owned(),
        decimal_text(pid as u64),
        "-d".to_owned(),
        "cwd".to_owned(),
        "-Fn".to_owned(),
    ];
    assert(texts(r@) =~= seq![
        "-nP"@,
        "-a"@,
        "-p"@,
        decimal(pid as nat),
        "-d"@,
        "cwd"@,
        "-Fn"@,
    ]);
    r
}

/// The arguments with which `lsof` tells the open files of a process: for Amp one
/// name in each line, for Codex everything about each file.
pub fn files_request(agent: Agent, pid: u32) -> (r: Vec<String>)
    ensures
        texts(r@) == match agent {
            Agent::Codex => seq!["-nP"@, "-p"@, decimal(pid as nat)],
            Agent::Amp => seq!["-nP"@, "-p"@, decimal(pid as nat), "-Fn"@],
        },
{
    let mut r = vec!["-nP".to_owned(), "-p".to_owned(), decimal_text(pid as u64)];
    match agent {
        Agent::Codex => {
            assert(texts(r@) =~= seq!["-nP"@, "-p"@, decimal(pid as nat)]);
        },
        Agent::Amp => {
            r.push("-Fn".to_owned());
            assert(texts(r@) =~= seq!["-nP"@, "-p"@, decimal(pid as nat), "-Fn"@]);
        },
    }
    r
}

/// The sessions that run, by what `ps` lists and what the probes tell. Each probe is
/// of the process in the same place of `inspection_targets`.
pub fn running_sessions(ps: &Option<Reply>, probes: &Vec<Probe>) -> (r: Result<
    Vec<AgentSession>,
    Error,
>)
    ensures
        match (r, answer("ps"@, reply_view(*ps))) {
            (Ok(sessions), Ok(output)) => session_views(sessions@) == running(
                output,
                probe_views(probes@),
            ),
            (Err(e), Err(message)) => e@ == message,
            _ => false,
        },
{
    match run("ps", ps) {
        Ok(output) => {
            let processes = inspection_targets(output.as_str());
            let findings = findings_for(&processes, probes);
            Ok(discover_sessions(output.as_str(), &findings))
        },
        Err(e) => Err(e),
    }
}

/// Whether a session is held by a listed process of an agent that runs under
/// Ghostty, where Ghostty is listed at all.
pub open spec fn is_held(all: Seq<ProcessModel>, session: SessionModel) -> bool {
    exists|k: int|
        {
            &&& 0 <= k < all.len()
            &&& (#[trigger] all[k]).pid == session.pid
            &&& all[k].tty == session.tty
            &&& all[k].command == session.command
            &&& agent_of(all[k].command) == Some(session.agent)
            &&& ghostty_runs(all) ==> descends(all, all[k])
        }
}

/// Only processes of agents that run under Ghostty hold sessions.
pub proof fn sessions_run_under_ghostty(ps_output: Seq<char>, probes: Seq<ProbeModel>)
    ensures
        forall|i: int|
            0 <= i < running(ps_output, probes).len() ==> is_held(
                listed_processes(ps_output),
                #[trigger] running(ps_output, probes)[i],
            ),
{
    let all = listed_processes(ps_output);
    let found = targets(all);
    lemma_select(all, inspected(all));
    lemma_sessions_of(all, found, findings_of(found, probes));
}

proof fn lemma_sessions_of(
    all: Seq<ProcessModel>,
    processes: Seq<ProcessModel>,
    findings: Seq<FindingModel>,
)
    requires
        forall|i: int|
            0 <= i < processes.len() ==> inspected(all)(#[trigger] processes[i]) && all.contains(
                processes[i],
            ),
    ensures
        forall|i: int|
            0 <= i < sessions_of(processes, findings).len() ==> is_held(
                all,
                #[trigger] sessions_of(processes, findings)[i],
            ),
    decreases processes.len(),
{
    if processes.len() > 0 {
        let front = processes.drop_last();
        assert forall|i: int| 0 <= i < front.len() implies inspected(all)(#[trigger] front[i])
            && all.contains(front[i]) by {
            assert(inspected(all)(processes[i]) && all.contains(processes[i]));
        }
        lemma_sessions_of(all, front, findings);
        let before = sessions_of(front, findings);
        let after = sessions_of(processes, findings);
        let last = processes[processes.len() - 1];
        assert(inspected(all)(last) && all.contains(last));
        let k = choose|k: int| 0 <= k < all.len() && all[k] == last;
        assert forall|i: int| 0 <= i < after.len() implies is_held(all, #[trigger] after[i]) by {
            if i < before.len() {
                assert(after[i] == before[i]);
            } else {
                assert(after[i].pid == all[k].pid);
                assert(after[i].tty == all[k].tty && after[i].command == all[k].command);
            }
        }
    }
}

} // verus!
