//! Matching conversations with the terminals that show them.
//!
//! A conversation goes to a terminal whose directory and title name it; then, in
//! directories with one kind of agent, to the terminals of that directory in
//! order; then to the one terminal without a directory whose title names its
//! project; then to the one whose title is that of an earlier snapshot. Where
//! that leaves a choice, nothing is matched.
use vstd::prelude::*;
use vstd::string::*;

use crate::agents::{terminal_number, tty_number};
use crate::list::{
    first_index, first_place, flat, include_by, lemma_sorted_by_map, ordered_set, select,
    select_places, sort_by, sorted_by,
};
use crate::model::{
    Agent, AgentSession, CaptureRow, KeyModel, RowModel, SessionKey, SessionModel, Snapshot,
    SnapshotModel, Terminal, TerminalModel, agent_label, agent_unit, all_terminals, row_views,
    session_views, terminal_ref_views,
};
use crate::path::{
    base_name, file_name, parts, parts_before, path_comes_before, same_path, same_place,
};
use crate::text::{
    chars_of, code_point, contains, ends, ends_with, lower, lowered, mentions, optional_text, same,
    text_between, texts, trim, trim_start, trimmed, trimmed_start,
};

verus! {

// ---------------------------------------------------------------------------
// Titles
// ---------------------------------------------------------------------------
/// Whether a title begins with a Braille pattern, as that of a busy agent does.
pub open spec fn shows_activity(title: Seq<char>) -> bool {
    title.len() > 0 && 0x2800 <= title[0] as int <= 0x28ff
}

/// Whether a title is one that Amp gives.
pub open spec fn is_amp_title(title: Seq<char>) -> bool {
    let t = lower(trim(title));
    t == "amp"@ || contains(t, " - amp - "@) || ends_with(t, " - amp"@)
}

/// Whether a title is one that the agent gives in directory `cwd`.
pub open spec fn is_agent_title(title: Seq<char>, cwd: Seq<char>, agent: Agent) -> bool {
    match agent {
        Agent::Amp => is_amp_title(title),
        Agent::Codex => {
            ||| contains(title, "Action Required"@)
            ||| contains(lower(title), "codex"@)
            ||| title == base_name(cwd)
            ||| ends_with(title, "| "@ + base_name(cwd))
            ||| shows_activity(title) && !is_amp_title(title)
        },
    }
}

/// Whether a title names the project in directory `cwd`, for the agent.
pub open spec fn names_project(title: Seq<char>, cwd: Seq<char>, agent: Agent) -> bool {
    let t = trim(title);
    let project = base_name(cwd);
    ||| t == project
    ||| ends_with(t, "| "@ + project)
    ||| shows_activity(t) && ends_with(t, " "@ + project)
    ||| agent == Agent::Codex && contains(lower(t), "codex"@) && contains(t, project)
    ||| agent == Agent::Amp && is_amp_title(t) && contains(t, project)
    ||| contains(t, "Action Required"@) && contains(t, project)
}

/// What stays of a title while an agent works: it without the Braille pattern.
pub open spec fn lasting_title(title: Seq<char>) -> Seq<char> {
    let t = trim(title);
    if shows_activity(t) {
        trim_start(t.drop_first())
    } else {
        t
    }
}

/// Whether a title begins with a Braille pattern.
fn begins_with_braille(title: &str) -> (r: bool)
    ensures
        r == shows_activity(title@),
{
    let chars = chars_of(title);
    if chars.len() == 0 {
        return false;
    }
    let n: u32 = code_point(chars[0]);
    0x2800 <= n && n <= 0x28ff
}

/// Whether a title is one that Amp gives.
pub fn amp_title(title: &str) -> (r: bool)
    ensures
        r == is_amp_title(title@),
{
    let plain = trimmed(title);
    let t = lowered(plain.as_str());
    same(t.as_str(), "amp") || mentions(t.as_str(), " - amp - ") || ends(t.as_str(), " - amp")
}

/// Whether a title is one that the agent gives in directory `cwd`.
pub fn agent_title(title: &str, cwd: &str, agent: Agent) -> (r: bool)
    ensures
        r == is_agent_title(title@, cwd@, agent),
{
    match agent {
        Agent::Amp => amp_title(title),
        Agent::Codex => {
            let project = file_name(cwd);
            let mut tail = "| ".to_owned();
            tail.append(project.as_str());
            let small = lowered(title);
            mentions(title, "Action Required") || mentions(small.as_str(), "codex") || same(
                title,
                project.as_str(),
            ) || ends(title, tail.as_str()) || (begins_with_braille(title) && !amp_title(title))
        },
    }
}

/// Whether a title names the project in directory `cwd`, for the agent.
pub fn title_matches_cwd(title: &str, cwd: &str, agent: Agent) -> (r: bool)
    ensures
        r == names_project(title@, cwd@, agent),
{
    let project = file_name(cwd);
    let plain = trimmed(title);
    let t = plain.as_str();
    let mut bar = "| ".to_owned();
    bar.append(project.as_str());
    let mut space = " ".to_owned();
    space.append(project.as_str());
    let small = lowered(t);
    let named = mentions(t, project.as_str());
    same(t, project.as_str()) || ends(t, bar.as_str()) || (begins_with_braille(t) && ends(
        t,
        space.as_str(),
    )) || (agent == Agent::Codex && mentions(small.as_str(), "codex") && named) || (agent
        == Agent::Amp && amp_title(t) && named) || (mentions(t, "Action Required") && named)
}

/// What stays of a title while an agent works.
pub fn stable_title(title: &str) -> (r: String)
    ensures
        r@ == lasting_title(title@),
{
    let plain = trimmed(title);
    if begins_with_braille(plain.as_str()) {
        let chars = chars_of(plain.as_str());
        assert(chars@.subrange(1, chars@.len() as int) == chars@.drop_first());
        let rest = text_between(&chars, 1, chars.len());
        trimmed_start(rest.as_str())
    } else {
        plain
    }
}

// ---------------------------------------------------------------------------
// Assignments
// ---------------------------------------------------------------------------
/// Which terminal shows which session.
#[derive(Debug)]
pub struct Assignments {
    /// Each terminal's identifier, with the session; no terminal twice.
    pub entries: Vec<(String, AgentSession)>,
}

/// The pair that an entry holds.
pub open spec fn entry_view(e: (String, AgentSession)) -> (Seq<char>, SessionModel) {
    (e.0@, e.1@)
}

/// The pairs that a list holds.
pub open spec fn entry_views(v: Seq<(String, AgentSession)>) -> Seq<(Seq<char>, SessionModel)> {
    v.map_values(|e: (String, AgentSession)| entry_view(e))
}

impl View for Assignments {
    type V = Seq<(Seq<char>, SessionModel)>;

    open spec fn view(&self) -> Seq<(Seq<char>, SessionModel)> {
        entry_views(self.entries@)
    }
}

/// Whether terminal `id` shows a session.
pub open spec fn is_taken(pairs: Seq<(Seq<char>, SessionModel)>, id: Seq<char>) -> bool {
    exists|i: int| 0 <= i < pairs.len() && (#[trigger] pairs[i]).0 == id
}

/// The pair in place of `pair` once terminal `id` shows `session`.
pub open spec fn renewed(
    pair: (Seq<char>, SessionModel),
    id: Seq<char>,
    session: SessionModel,
) -> (Seq<char>, SessionModel) {
    if pair.0 == id {
        (id, session)
    } else {
        pair
    }
}

/// The pairs with terminal `id` showing `session`.
pub open spec fn put(
    pairs: Seq<(Seq<char>, SessionModel)>,
    id: Seq<char>,
    session: SessionModel,
) -> Seq<(Seq<char>, SessionModel)> {
    if is_taken(pairs, id) {
        pairs.map_values(|pair: (Seq<char>, SessionModel)| renewed(pair, id, session))
    } else {
        pairs.push((id, session))
    }
}

/// The session that terminal `id` shows.
pub open spec fn shown(pairs: Seq<(Seq<char>, SessionModel)>, id: Seq<char>) -> Option<SessionModel>
    decreases pairs.len(),
{
    if pairs.len() == 0 {
        None
    } else if pairs.last().0 == id {
        Some(pairs.last().1)
    } else {
        shown(pairs.drop_last(), id)
    }
}

impl Assignments {
    /// No terminal shows a session.
    pub fn new() -> (r: Assignments)
        ensures
            r@ == Seq::<(Seq<char>, SessionModel)>::empty(),
    {
        let r = Assignments { entries: Vec::new() };
        assert(r@ =~= Seq::<(Seq<char>, SessionModel)>::empty());
        r
    }

    /// Whether terminal `id` shows a session.
    pub fn contains(&self, id: &str) -> (r: bool)
        ensures
            r == is_taken(self@, id@),
    {
        let mut i: usize = 0;
        while i < self.entries.len()
            invariant
                i <= self.entries@.len(),
                forall|j: int| 0 <= j < i ==> (#[trigger] self@[j]).0 != id@,
            decreases self.entries@.len() - i,
        {
            if same(self.entries[i].0.as_str(), id) {
                assert(self@[i as int].0 == id@);
                return true;
            }
            i = i + 1;
        }
        false
    }

    /// The session that terminal `id` shows.
    pub fn get(&self, id: &str) -> (r: Option<AgentSession>)
        ensures
            match r {
                Some(session) => shown(self@, id@) == Some(session@),
                None => shown(self@, id@) is None,
            },
    {
        let ghost pairs = self@;
        let mut i: usize = self.entries.len();
        assert(pairs.take(i as int) == pairs);
        while i > 0
            invariant
                pairs == self@,
                i <= self.entries@.len(),
                shown(pairs, id@) == shown(pairs.take(i as int), id@),
            decreases i,
        {
            assert(pairs.take(i as int).last() == entry_view(self.entries@[i - 1]));
            assert(pairs.take(i as int).drop_last() == pairs.take(i - 1));
            if same(self.entries[i - 1].0.as_str(), id) {
                return Some(self.entries[i - 1].1.clone());
            }
            i = i - 1;
        }
        None
    }

    /// Terminal `id` shows `session` from now on.
    pub fn insert(&mut self, id: &str, session: AgentSession)
        ensures
            final(self)@ == put(old(self)@, id@, session@),
    {
        let ghost pairs = self@;
        let mut found = false;
        let mut i: usize = 0;
        while i < self.entries.len()
            invariant
                i <= self.entries@.len() == pairs.len(),
                forall|j: int|
                    0 <= j < i ==> entry_view(#[trigger] self.entries@[j]) == renewed(
                        pairs[j],
                        id@,
                        session@,
                    ),
                forall|j: int|
                    i <= j < pairs.len() ==> entry_view(#[trigger] self.entries@[j]) == pairs[j],
                found ==> is_taken(pairs, id@),
                !found ==> forall|j: int| 0 <= j < i ==> (#[trigger] pairs[j]).0 != id@,
            decreases self.entries@.len() - i,
        {
            assert(entry_view(self.entries@[i as int]) == pairs[i as int]);
            if same(self.entries[i].0.as_str(), id) {
                let entry = (id.to_owned(), session.clone());
                self.entries[i] = entry;
                found = true;
            }
            i = i + 1;
        }
        if !found {
            let ghost before = self.entries@;
            self.entries.push((id.to_owned(), session));
            assert(entry_views(self.entries@) =~= pairs.push((id@, session@)));
        } else {
            assert(entry_views(self.entries@) =~= put(pairs, id@, session@));
        }
    }

    /// The sessions that are shown.
    pub fn sessions(&self) -> (r: Vec<AgentSession>)
        ensures
            session_views(r@) == self@.map_values(|pair: (Seq<char>, SessionModel)| pair.1),
    {
        let ghost all = self@.map_values(|pair: (Seq<char>, SessionModel)| pair.1);
        let mut r: Vec<AgentSession> = Vec::new();
        let mut i: usize = 0;
        while i < self.entries.len()
            invariant
                all == self@.map_values(|pair: (Seq<char>, SessionModel)| pair.1),
                i <= self.entries@.len(),
                session_views(r@) == all.take(i as int),
            decreases self.entries@.len() - i,
        {
            let ghost before = r@;
            r.push(self.entries[i].1.clone());
            assert(all[i as int] == self.entries@[i as int].1@);
            assert(session_views(r@) =~= session_views(before).push(all[i as int]));
            assert(all.take(i + 1) =~= all.take(i as int).push(all[i as int]));
            i = i + 1;
        }
        assert(all.take(self.entries@.len() as int) == all);
        r
    }

    /// Whether no terminal shows a session.
    pub fn is_empty(&self) -> (r: bool)
        ensures
            r == (self@.len() == 0),
    {
        self.entries.len() == 0
    }
}

// ---------------------------------------------------------------------------
// Matching
// ---------------------------------------------------------------------------
/// How far the matching has come.
pub struct Matching {
    /// Which terminal shows which session.
    pub pairs: Seq<(Seq<char>, SessionModel)>,
    /// The sessions that no terminal shows.
    pub left: Seq<SessionModel>,
}

/// Accepts the sessions of other conversations than `key`.
pub open spec fn other_than(key: KeyModel) -> spec_fn(SessionModel) -> bool {
    |s: SessionModel| s.key() != key
}

/// The matching in which terminal `id` shows `session`, whose conversation is
/// then left no more.
pub open spec fn give(m: Matching, id: Seq<char>, session: SessionModel) -> Matching {
    Matching {
        pairs: put(m.pairs, id, session),
        left: select(m.left, other_than(session.key())),
    }
}

/// The place of an agent in the order of agents.
pub open spec fn agent_rank(agent: Agent) -> int {
    match agent {
        Agent::Amp => 0,
        Agent::Codex => 1,
    }
}

/// Orders sessions by agent, then by the number of their terminal.
pub open spec fn by_agent_and_number() -> spec_fn(SessionModel, SessionModel) -> bool {
    |a: SessionModel, b: SessionModel|
        agent_rank(a.agent) < agent_rank(b.agent) || (a.agent == b.agent && terminal_number(a.tty)
            < terminal_number(b.tty))
}

/// Orders sessions by the number of their terminal.
pub open spec fn by_number() -> spec_fn(SessionModel, SessionModel) -> bool {
    |a: SessionModel, b: SessionModel| terminal_number(a.tty) < terminal_number(b.tty)
}

/// Orders agents in directories: by agent, then by directory.
pub open spec fn by_agent_and_directory() -> spec_fn((Agent, Seq<char>), (Agent, Seq<char>)) -> bool {
    |a: (Agent, Seq<char>), b: (Agent, Seq<char>)|
        agent_rank(a.0) < agent_rank(b.0) || (a.0 == b.0 && parts_before(parts(a.1), parts(b.1)))
}

/// Accepts the free terminals in the session's directory with a title that its
/// agent gives.
pub open spec fn titled_for(
    pairs: Seq<(Seq<char>, SessionModel)>,
    s: SessionModel,
) -> spec_fn(RowModel) -> bool {
    |r: RowModel|
        !is_taken(pairs, r.terminal_id) && same_place(r.working_directory, s.cwd)
            && is_agent_title(r.terminal_name, s.cwd, s.agent)
}

/// One session goes to the first such terminal.
pub open spec fn match_title(rows: Seq<RowModel>, m: Matching, s: SessionModel) -> Matching {
    match first_index(rows, titled_for(m.pairs, s)) {
        Some(i) => give(m, rows[i].terminal_id, s),
        None => m,
    }
}

/// The sessions of `ordered`, one after the other, by title.
pub open spec fn match_titles(
    rows: Seq<RowModel>,
    m: Matching,
    ordered: Seq<SessionModel>,
) -> Matching
    decreases ordered.len(),
{
    if ordered.len() == 0 {
        m
    } else {
        match_title(rows, match_titles(rows, m, ordered.drop_last()), ordered.last())
    }
}

/// Accepts the sessions in directory `cwd`.
pub open spec fn in_directory(cwd: Seq<char>) -> spec_fn(SessionModel) -> bool {
    |s: SessionModel| same_place(s.cwd, cwd)
}

/// Accepts the free terminals in directory `cwd`.
pub open spec fn free_in(
    pairs: Seq<(Seq<char>, SessionModel)>,
    cwd: Seq<char>,
) -> spec_fn(RowModel) -> bool {
    |r: RowModel| !is_taken(pairs, r.terminal_id) && same_place(r.working_directory, cwd)
}

/// Whether there are sessions of different agents.
pub open spec fn mixed(s: Seq<SessionModel>) -> bool {
    exists|i: int| 0 < i < s.len() && (#[trigger] s[i]).agent != s[0].agent
}

/// The first `n` sessions go to the first `n` terminals, in order.
pub open spec fn pair_up(
    m: Matching,
    sessions: Seq<SessionModel>,
    rows: Seq<RowModel>,
    n: nat,
) -> Matching
    decreases n,
{
    if n == 0 {
        m
    } else {
        give(
            pair_up(m, sessions, rows, (n - 1) as nat),
            rows[n - 1].terminal_id,
            sessions[n - 1],
        )
    }
}

/// The smaller of two counts.
pub open spec fn fewer(a: nat, b: nat) -> nat {
    if a < b {
        a
    } else {
        b
    }
}

/// In a directory with sessions of one agent, they go to its free terminals in
/// order.
pub open spec fn match_directory(rows: Seq<RowModel>, m: Matching, cwd: Seq<char>) -> Matching {
    let here = select(m.left, in_directory(cwd));
    if mixed(here) {
        m
    } else {
        let ordered = sorted_by(here, by_number());
        let free = select(rows, free_in(m.pairs, cwd));
        pair_up(m, ordered, free, fewer(ordered.len(), free.len()))
    }
}

/// The directories one after the other.
pub open spec fn match_directories(
    rows: Seq<RowModel>,
    m: Matching,
    directories: Seq<(Agent, Seq<char>)>,
) -> Matching
    decreases directories.len(),
{
    if directories.len() == 0 {
        m
    } else {
        match_directory(
            rows,
            match_directories(rows, m, directories.drop_last()),
            directories.last().1,
        )
    }
}

/// The directories of sessions, each once and in order.
pub open spec fn directories_of(left: Seq<SessionModel>) -> Seq<(Agent, Seq<char>)> {
    ordered_set(left.map_values(|s: SessionModel| (Agent::Amp, s.cwd)), by_agent_and_directory())
}

/// The agents with their directories, each once and in order.
pub open spec fn groups_of(left: Seq<SessionModel>) -> Seq<(Agent, Seq<char>)> {
    ordered_set(left.map_values(|s: SessionModel| (s.agent, s.cwd)), by_agent_and_directory())
}

/// Accepts the sessions of `agent` in directory `cwd`.
pub open spec fn in_group(agent: Agent, cwd: Seq<char>) -> spec_fn(SessionModel) -> bool {
    |s: SessionModel| s.agent == agent && same_place(s.cwd, cwd)
}

/// Accepts the free terminals without a directory whose title names the project.
pub open spec fn blank_named(
    pairs: Seq<(Seq<char>, SessionModel)>,
    cwd: Seq<char>,
    agent: Agent,
) -> spec_fn(RowModel) -> bool {
    |r: RowModel|
        !is_taken(pairs, r.terminal_id) && r.working_directory.len() == 0 && names_project(
            r.terminal_name,
            cwd,
            agent,
        )
}

/// The one session of an agent in a directory goes to the one such terminal.
pub open spec fn match_project(
    rows: Seq<RowModel>,
    m: Matching,
    group: (Agent, Seq<char>),
) -> Matching {
    let sessions = select(m.left, in_group(group.0, group.1));
    let blank = select(rows, blank_named(m.pairs, group.1, group.0));
    if sessions.len() == 1 && blank.len() == 1 {
        give(m, blank[0].terminal_id, sessions[0])
    } else {
        m
    }
}

/// The groups one after the other.
pub open spec fn match_projects(
    rows: Seq<RowModel>,
    m: Matching,
    groups: Seq<(Agent, Seq<char>)>,
) -> Matching
    decreases groups.len(),
{
    if groups.len() == 0 {
        m
    } else {
        match_project(rows, match_projects(rows, m, groups.drop_last()), groups.last())
    }
}

/// The name of the first of the terminals that held conversation `key` and has
/// one.
pub open spec fn name_among(terminals: Seq<TerminalModel>, key: KeyModel) -> Option<Seq<char>>
    decreases terminals.len(),
{
    if terminals.len() == 0 {
        None
    } else {
        match name_among(terminals.drop_last(), key) {
            Some(name) => Some(name),
            None => if terminals.last().session() == Some(key) && terminals.last().name.len() > 0 {
                Some(terminals.last().name)
            } else {
                None
            },
        }
    }
}

/// The terminals of the snapshots, one after the other.
pub open spec fn terminals_of(history: Seq<SnapshotModel>) -> Seq<TerminalModel> {
    flat(history.map_values(|s: SnapshotModel| s.terminals()))
}

/// The title under which conversation `key` was saved, by the first of the
/// snapshots that tells.
pub open spec fn earlier_title(history: Seq<SnapshotModel>, key: KeyModel) -> Option<Seq<char>> {
    name_among(terminals_of(history), key)
}

/// Accepts the free terminals without a directory whose title is `title` but for
/// a sign of activity.
pub open spec fn blank_titled(
    pairs: Seq<(Seq<char>, SessionModel)>,
    title: Seq<char>,
) -> spec_fn(RowModel) -> bool {
    |r: RowModel|
        !is_taken(pairs, r.terminal_id) && r.working_directory.len() == 0 && lasting_title(
            r.terminal_name,
        ) == lasting_title(title)
}

/// A session goes to the one terminal with the title under which it was saved.
pub open spec fn match_earlier(
    rows: Seq<RowModel>,
    m: Matching,
    s: SessionModel,
    history: Seq<SnapshotModel>,
) -> Matching {
    match earlier_title(history, s.key()) {
        Some(title) => {
            let blank = select(rows, blank_titled(m.pairs, title));
            if blank.len() == 1 {
                give(m, blank[0].terminal_id, s)
            } else {
                m
            }
        },
        None => m,
    }
}

/// The sessions one after the other.
pub open spec fn match_earlier_all(
    rows: Seq<RowModel>,
    m: Matching,
    sessions: Seq<SessionModel>,
    history: Seq<SnapshotModel>,
) -> Matching
    decreases sessions.len(),
{
    if sessions.len() == 0 {
        m
    } else {
        match_earlier(
            rows,
            match_earlier_all(rows, m, sessions.drop_last(), history),
            sessions.last(),
            history,
        )
    }
}

/// The matching of `sessions` with the terminals of `rows`.
pub open spec fn matching(
    rows: Seq<RowModel>,
    sessions: Seq<SessionModel>,
    history: Seq<SnapshotModel>,
) -> Matching {
    let start = Matching { pairs: Seq::empty(), left: sessions };
    let titled = match_titles(rows, start, sorted_by(sessions, by_agent_and_number()));
    let placed = match_directories(rows, titled, directories_of(titled.left));
    let named = match_projects(rows, placed, groups_of(placed.left));
    match_earlier_all(rows, named, named.left, history)
}

// ---------------------------------------------------------------------------
// Warnings
// ---------------------------------------------------------------------------
/// Whether a free terminal stands in directory `cwd`.
pub open spec fn free_terminal_in(
    rows: Seq<RowModel>,
    pairs: Seq<(Seq<char>, SessionModel)>,
    cwd: Seq<char>,
) -> bool {
    exists|i: int| 0 <= i < rows.len() && free_in(pairs, cwd)(#[trigger] rows[i])
}

/// Whether a session of another agent is left in the directory of `s`.
pub open spec fn rivals(left: Seq<SessionModel>, s: SessionModel) -> bool {
    exists|i: int|
        0 <= i < left.len() && (#[trigger] left[i]).key() != s.key() && same_place(
            left[i].cwd,
            s.cwd,
        ) && left[i].agent != s.agent
}

/// Why session `s` is left.
pub open spec fn reason_for(rows: Seq<RowModel>, m: Matching, s: SessionModel) -> Seq<char> {
    if rivals(m.left, s) && free_terminal_in(rows, m.pairs, s.cwd) {
        "multiple agent types share this directory and terminal titles do not identify them"@
    } else if select(rows, blank_named(m.pairs, s.cwd, s.agent)).len() > 1 {
        "multiple blank-directory Ghostty terminals have matching project titles"@
    } else {
        "Ghostty exposed no terminal with that directory, a unique matching project title, or a unique prior session title"@
    }
}

/// The warning that session `s` was not matched.
pub open spec fn warning_text(s: SessionModel, reason: Seq<char>) -> Seq<char> {
    agent_label(s.agent) + " "@ + agent_unit(s.agent) + " "@ + s.session_id + " on "@ + s.tty
        + " in "@ + s.cwd + " was not matched: "@ + reason + "; it will not auto-resume"@
}

/// The warnings on the first `n` sessions left: on each, or on those that a
/// terminal without a directory may belong to.
pub open spec fn warnings_for(
    rows: Seq<RowModel>,
    m: Matching,
    warn_for_all: bool,
    n: nat,
) -> Seq<Seq<char>>
    decreases n,
{
    if n == 0 {
        Seq::empty()
    } else {
        let before = warnings_for(rows, m, warn_for_all, (n - 1) as nat);
        let s = m.left[n - 1];
        if !warn_for_all && select(rows, blank_named(m.pairs, s.cwd, s.agent)).len() == 0 {
            before
        } else {
            before.push(warning_text(s, reason_for(rows, m, s)))
        }
    }
}

// ---------------------------------------------------------------------------
// The matching, done
// ---------------------------------------------------------------------------
/// Whether two keys are of one conversation.
pub fn same_key(a: &SessionKey, b: &SessionKey) -> (r: bool)
    ensures
        r == (a@ == b@),
{
    a.agent == b.agent && same(a.id.as_str(), b.id.as_str())
}

/// A copy of a list of sessions.
pub fn copy_sessions(v: &Vec<AgentSession>) -> (r: Vec<AgentSession>)
    ensures
        r@ == v@,
{
    let mut r: Vec<AgentSession> = Vec::new();
    let mut i: usize = 0;
    while i < v.len()
        invariant
            i <= v@.len(),
            r@ == v@.take(i as int),
        decreases v@.len() - i,
    {
        r.push(v[i].clone());
        i = i + 1;
    }
    assert(v@.take(v@.len() as int) == v@);
    r
}

/// Takes conversation `key` out of `sessions`.
pub fn remove_session(sessions: &mut Vec<AgentSession>, key: &SessionKey)
    ensures
        session_views(final(sessions)@) == select(session_views(old(sessions)@), other_than(key@)),
{
    let ghost model = session_views(sessions@);
    let mut kept: Vec<AgentSession> = Vec::new();
    let mut i: usize = 0;
    assert(session_views(kept@) =~= select(model.take(0), other_than(key@)));
    while i < sessions.len()
        invariant
            model == session_views(sessions@),
            i <= sessions@.len(),
            session_views(kept@) == select(model.take(i as int), other_than(key@)),
        decreases sessions@.len() - i,
    {
        let ghost before = kept@;
        proof {
            assert(model.take(i + 1).drop_last() == model.take(i as int));
            assert(model.take(i + 1).last() == sessions@[i as int]@);
        }
        if !same_key(&sessions[i].key(), key) {
            kept.push(sessions[i].clone());
            assert(session_views(kept@) =~= session_views(before).push(sessions@[i as int]@));
        }
        i = i + 1;
    }
    assert(model.take(sessions@.len() as int) == model);
    *sessions = kept;
}

/// How far a matching has come.
struct Progress {
    assigned: Assignments,
    left: Vec<AgentSession>,
}

impl View for Progress {
    type V = Matching;

    closed spec fn view(&self) -> Matching {
        Matching { pairs: self.assigned@, left: session_views(self.left@) }
    }
}

impl Progress {
    /// Lets terminal `id` show `session`.
    fn give(&mut self, id: &str, session: &AgentSession)
        ensures
            final(self)@ == give(old(self)@, id@, session@),
    {
        self.assigned.insert(id, session.clone());
        remove_session(&mut self.left, &session.key());
    }
}

/// Whether agent `a` comes before agent `b`.
fn agent_before(a: Agent, b: Agent) -> (r: bool)
    ensures
        r == (agent_rank(a) < agent_rank(b)),
{
    a == Agent::Amp && b == Agent::Codex
}

/// Sessions ordered by agent, then by the number of their terminal.
fn order_by_agent(sessions: &Vec<AgentSession>) -> (r: Vec<AgentSession>)
    ensures
        session_views(r@) == sorted_by(session_views(sessions@), by_agent_and_number()),
{
    let ghost view = |s: AgentSession| s@;
    let ghost fine = |a: AgentSession, b: AgentSession| by_agent_and_number()(a@, b@);
    proof {
        lemma_sorted_by_map(sessions@, view, fine, by_agent_and_number());
    }
    let is_before = |a: &AgentSession, b: &AgentSession| -> (r: bool)
        ensures
            r == by_agent_and_number()(a@, b@),
    {
        agent_before(a.agent, b.agent) || (a.agent == b.agent && tty_number(a.tty.as_str())
            < tty_number(b.tty.as_str()))
    };
    sort_by(copy_sessions(sessions), is_before, Ghost(fine))
}

/// Sessions ordered by the number of their terminal.
fn order_by_number(sessions: &Vec<AgentSession>) -> (r: Vec<AgentSession>)
    ensures
        session_views(r@) == sorted_by(session_views(sessions@), by_number()),
{
    let ghost view = |s: AgentSession| s@;
    let ghost fine = |a: AgentSession, b: AgentSession| by_number()(a@, b@);
    proof {
        lemma_sorted_by_map(sessions@, view, fine, by_number());
    }
    let is_before = |a: &AgentSession, b: &AgentSession| -> (r: bool)
        ensures
            r == by_number()(a@, b@),
    { tty_number(a.tty.as_str()) < tty_number(b.tty.as_str()) };
    sort_by(copy_sessions(sessions), is_before, Ghost(fine))
}

/// Matches the sessions of `ordered` by title.
fn run_titles(rows: &Vec<CaptureRow>, progress: &mut Progress, ordered: &Vec<AgentSession>)
    ensures
        final(progress)@ == match_titles(row_views(rows@), old(progress)@, session_views(ordered@)),
{
    let ghost row_model = row_views(rows@);
    let ghost model = session_views(ordered@);
    let ghost start = progress@;
    let mut i: usize = 0;
    assert(model.take(0) =~= Seq::empty());
    while i < ordered.len()
        invariant
            row_model == row_views(rows@),
            model == session_views(ordered@),
            i <= ordered@.len(),
            progress@ == match_titles(row_model, start, model.take(i as int)),
        decreases ordered@.len() - i,
    {
        let session = &ordered[i];
        proof {
            assert(model.take(i + 1).drop_last() == model.take(i as int));
            assert(model.take(i + 1).last() == session@);
        }
        let ghost wanted = titled_for(progress@.pairs, session@);
        let assigned = &progress.assigned;
        let accepts = |k: usize| -> (b: bool)
            requires
                k < rows@.len(),
            ensures
                b == titled_for(assigned@, session@)(rows@[k as int]@),
        {
            let row = &rows[k];
            !assigned.contains(row.terminal_id.as_str()) && same_path(
                row.working_directory.as_str(),
                session.cwd.as_str(),
            ) && agent_title(row.terminal_name.as_str(), session.cwd.as_str(), session.agent)
        };
        let found = first_place::<RowModel, _>(rows.len(), accepts, Ghost(row_model), Ghost(wanted));
        match found {
            Some(k) => {
                assert(row_model[k as int] == rows@[k as int]@);
                progress.give(rows[k].terminal_id.as_str(), session);
            },
            None => {},
        }
        i = i + 1;
    }
    assert(model.take(ordered@.len() as int) == model);
}

/// An agent in a directory.
struct Group {
    agent: Agent,
    cwd: String,
}

impl View for Group {
    type V = (Agent, Seq<char>);

    closed spec fn view(&self) -> (Agent, Seq<char>) {
        (self.agent, self.cwd@)
    }
}

/// The groups that a list holds.
spec fn group_views(v: Seq<Group>) -> Seq<(Agent, Seq<char>)> {
    v.map_values(|g: Group| g@)
}

/// Whether group `a` comes before group `b`.
fn group_before(a: &Group, b: &Group) -> (r: bool)
    ensures
        r == by_agent_and_directory()(a@, b@),
{
    agent_before(a.agent, b.agent) || (a.agent == b.agent && path_comes_before(
        a.cwd.as_str(),
        b.cwd.as_str(),
    ))
}

/// Puts a group in its place, unless it is there.
fn include_group(set: &mut Vec<Group>, group: Group)
    ensures
        group_views(final(set)@) == include_by(
            group_views(old(set)@),
            group@,
            by_agent_and_directory(),
        ),
{
    let ghost all = group_views(set@);
    let ghost x = group@;
    let ghost order = by_agent_and_directory();
    let mut at: usize = set.len();
    proof {
        assert(all.take(at as int) == all);
        assert(include_by(all, x, order) =~= include_by(
            all.take(at as int),
            x,
            order,
        ) + all.skip(at as int));
    }
    while at > 0 && !group_before(&set[at - 1], &group)
        invariant
            all == group_views(set@),
            x == group@,
            order == by_agent_and_directory(),
            at <= set@.len(),
            include_by(all, x, order) == include_by(
                all.take(at as int),
                x,
                order,
            ) + all.skip(at as int),
        decreases at,
    {
        proof {
            assert(all.take(at as int).last() == set@[at - 1]@);
            assert(all.take(at as int).drop_last() == all.take(at - 1));
        }
        if !group_before(&group, &set[at - 1]) {
            proof {
                assert(all.take(at as int) + all.skip(at as int) =~= all);
            }
            return ;
        }
        proof {
            assert(include_by(all, x, order) =~= include_by(
                all.take(at - 1),
                x,
                order,
            ) + all.skip(at - 1));
        }
        at = at - 1;
    }
    proof {
        if at > 0 {
            assert(all.take(at as int).last() == set@[at - 1]@);
        }
        assert(include_by(all, x, order) =~= all.insert(at as int, x));
    }
    let ghost before = set@;
    set.insert(at, group);
    assert(group_views(set@) =~= all.insert(at as int, x));
}

/// The agents with their directories, each once and in order; with `apart` unset
/// the agents are not told apart.
fn ordered_groups(left: &Vec<AgentSession>, apart: bool) -> (r: Vec<Group>)
    ensures
        apart ==> group_views(r@) == groups_of(session_views(left@)),
        !apart ==> group_views(r@) == directories_of(session_views(left@)),
{
    let ghost order = by_agent_and_directory();
    let ghost keys = if apart {
        session_views(left@).map_values(|s: SessionModel| (s.agent, s.cwd))
    } else {
        session_views(left@).map_values(|s: SessionModel| (Agent::Amp, s.cwd))
    };
    let mut r: Vec<Group> = Vec::new();
    let mut i: usize = 0;
    assert(group_views(r@) =~= ordered_set(keys.take(0), order));
    while i < left.len()
        invariant
            order == by_agent_and_directory(),
            keys.len() == left@.len(),
            forall|k: int|
                0 <= k < keys.len() ==> #[trigger] keys[k] == (if apart {
                    left@[k].agent
                } else {
                    Agent::Amp
                }, left@[k].cwd@),
            i <= left@.len(),
            group_views(r@) == ordered_set(keys.take(i as int), order),
        decreases left@.len() - i,
    {
        let agent = if apart {
            left[i].agent
        } else {
            Agent::Amp
        };
        let group = Group { agent, cwd: left[i].cwd.clone() };
        proof {
            assert(keys.take(i + 1).drop_last() == keys.take(i as int));
            assert(keys.take(i + 1).last() == group@);
        }
        include_group(&mut r, group);
        i = i + 1;
    }
    assert(keys.take(left@.len() as int) == keys);
    r
}

/// The sessions of `left` in directory `cwd`.
fn sessions_in(left: &Vec<AgentSession>, cwd: &str) -> (r: Vec<AgentSession>)
    ensures
        session_views(r@) == select(session_views(left@), in_directory(cwd@)),
{
    let accepts = |k: usize| -> (b: bool)
        requires
            k < left@.len(),
        ensures
            b == in_directory(cwd@)(left@[k as int]@),
    { same_path(left[k].cwd.as_str(), cwd) };
    let ghost model = session_views(left@);
    let places = select_places::<SessionModel, _>(
        left.len(),
        accepts,
        Ghost(model),
        Ghost(in_directory(cwd@)),
    );
    pick_sessions(left, &places, Ghost(select(model, in_directory(cwd@))))
}

/// Copies of the sessions at `places`.
fn pick_sessions(
    left: &Vec<AgentSession>,
    places: &Vec<usize>,
    Ghost(wanted): Ghost<Seq<SessionModel>>,
) -> (r: Vec<AgentSession>)
    requires
        places@.len() == wanted.len(),
        forall|k: int|
            0 <= k < places@.len() ==> #[trigger] places@[k] < left@.len() && session_views(
                left@,
            )[places@[k] as int] == wanted[k],
    ensures
        session_views(r@) == wanted,
{
    let mut r: Vec<AgentSession> = Vec::new();
    let mut i: usize = 0;
    while i < places.len()
        invariant
            i <= places@.len() == wanted.len(),
            forall|k: int|
                0 <= k < places@.len() ==> #[trigger] places@[k] < left@.len() && session_views(
                    left@,
                )[places@[k] as int] == wanted[k],
            session_views(r@) == wanted.take(i as int),
        decreases places@.len() - i,
    {
        let ghost before = r@;
        r.push(left[places[i]].clone());
        proof {
            assert(session_views(r@) =~= session_views(before).push(wanted[i as int]));
            assert(wanted.take(i + 1) =~= wanted.take(i as int).push(wanted[i as int]));
        }
        i = i + 1;
    }
    assert(wanted.take(wanted.len() as int) == wanted);
    r
}

/// Whether there are sessions of different agents.
fn is_mixed(sessions: &Vec<AgentSession>) -> (r: bool)
    ensures
        r == mixed(session_views(sessions@)),
{
    let ghost model = session_views(sessions@);
    let mut i: usize = 1;
    while i < sessions.len()
        invariant
            model == session_views(sessions@),
            1 <= i,
            forall|k: int| 0 < k < i && k < model.len() ==> (#[trigger] model[k]).agent
                == model[0].agent,
        decreases sessions@.len() - i,
    {
        if sessions[i].agent != sessions[0].agent {
            assert(model[i as int].agent != model[0].agent);
            return true;
        }
        i = i + 1;
    }
    false
}

/// Matches the sessions in one directory.
fn run_directory(rows: &Vec<CaptureRow>, progress: &mut Progress, cwd: &str)
    ensures
        final(progress)@ == match_directory(row_views(rows@), old(progress)@, cwd@),
{
    let ghost row_model = row_views(rows@);
    let ghost start = progress@;
    let here = sessions_in(&progress.left, cwd);
    if is_mixed(&here) {
        return ;
    }
    let ordered = order_by_number(&here);
    let ghost ordered_model = session_views(ordered@);
    let ghost keep = free_in(start.pairs, cwd@);
    let assigned = &progress.assigned;
    let accepts = |k: usize| -> (b: bool)
        requires
            k < rows@.len(),
        ensures
            b == free_in(assigned@, cwd@)(rows@[k as int]@),
    {
        let row = &rows[k];
        !assigned.contains(row.terminal_id.as_str()) && same_path(
            row.working_directory.as_str(),
            cwd,
        )
    };
    let free = select_places::<RowModel, _>(rows.len(), accepts, Ghost(row_model), Ghost(keep));
    let ghost free_model = select(row_model, keep);
    let mut i: usize = 0;
    while i < ordered.len() && i < free.len()
        invariant
            row_model == row_views(rows@),
            ordered_model == session_views(ordered@),
            free@.len() == free_model.len(),
            forall|k: int|
                0 <= k < free@.len() ==> #[trigger] free@[k] < rows@.len() && row_model[free@[k] as int]
                    == free_model[k],
            i <= ordered@.len(),
            i <= free@.len(),
            progress@ == pair_up(start, ordered_model, free_model, i as nat),
        decreases ordered@.len() - i,
    {
        let row = &rows[free[i]];
        proof {
            assert(row_model[free@[i as int] as int] == row@);
            assert(ordered_model[i as int] == ordered@[i as int]@);
        }
        progress.give(row.terminal_id.as_str(), &ordered[i]);
        i = i + 1;
    }
}

/// Matches the directories one after the other.
fn run_directories(rows: &Vec<CaptureRow>, progress: &mut Progress, directories: &Vec<Group>)
    ensures
        final(progress)@ == match_directories(
            row_views(rows@),
            old(progress)@,
            group_views(directories@),
        ),
{
    let ghost row_model = row_views(rows@);
    let ghost model = group_views(directories@);
    let ghost start = progress@;
    let mut i: usize = 0;
    assert(model.take(0) =~= Seq::empty());
    while i < directories.len()
        invariant
            row_model == row_views(rows@),
            model == group_views(directories@),
            i <= directories@.len(),
            progress@ == match_directories(row_model, start, model.take(i as int)),
        decreases directories@.len() - i,
    {
        proof {
            assert(model.take(i + 1).drop_last() == model.take(i as int));
            assert(model.take(i + 1).last() == directories@[i as int]@);
        }
        run_directory(rows, progress, directories[i].cwd.as_str());
        i = i + 1;
    }
    assert(model.take(directories@.len() as int) == model);
}

/// The free terminals without a directory whose title names the project.
fn blank_rows(rows: &Vec<CaptureRow>, assigned: &Assignments, cwd: &str, agent: Agent) -> (r: Vec<
    usize,
>)
    ensures
        r@.len() == select(row_views(rows@), blank_named(assigned@, cwd@, agent)).len(),
        forall|k: int|
            0 <= k < r@.len() ==> #[trigger] r@[k] < rows@.len() && row_views(rows@)[r@[k] as int]
                == select(row_views(rows@), blank_named(assigned@, cwd@, agent))[k],
{
    let accepts = |k: usize| -> (b: bool)
        requires
            k < rows@.len(),
        ensures
            b == blank_named(assigned@, cwd@, agent)(rows@[k as int]@),
    {
        let row = &rows[k];
        !assigned.contains(row.terminal_id.as_str()) && row.working_directory.as_str().is_empty()
            && title_matches_cwd(row.terminal_name.as_str(), cwd, agent)
    };
    select_places::<RowModel, _>(
        rows.len(),
        accepts,
        Ghost(row_views(rows@)),
        Ghost(blank_named(assigned@, cwd@, agent)),
    )
}

/// Matches the groups one after the other.
fn run_projects(rows: &Vec<CaptureRow>, progress: &mut Progress, groups: &Vec<Group>)
    ensures
        final(progress)@ == match_projects(row_views(rows@), old(progress)@, group_views(groups@)),
{
    let ghost row_model = row_views(rows@);
    let ghost model = group_views(groups@);
    let ghost start = progress@;
    let mut i: usize = 0;
    assert(model.take(0) =~= Seq::empty());
    while i < groups.len()
        invariant
            row_model == row_views(rows@),
            model == group_views(groups@),
            i <= groups@.len(),
            progress@ == match_projects(row_model, start, model.take(i as int)),
        decreases groups@.len() - i,
    {
        let group = &groups[i];
        let cwd = group.cwd.as_str();
        let agent = group.agent;
        proof {
            assert(model.take(i + 1).drop_last() == model.take(i as int));
            assert(model.take(i + 1).last() == group@);
        }
        let ghost left_model = session_views(progress.left@);
        let left = &progress.left;
        let accepts = |k: usize| -> (b: bool)
            requires
                k < left@.len(),
            ensures
                b == in_group(agent, cwd@)(left@[k as int]@),
        { left[k].agent == agent && same_path(left[k].cwd.as_str(), cwd) };
        let members = select_places::<SessionModel, _>(
            left.len(),
            accepts,
            Ghost(left_model),
            Ghost(in_group(agent, cwd@)),
        );
        let blank = blank_rows(rows, &progress.assigned, cwd, agent);
        if members.len() == 1 && blank.len() == 1 {
            let session = progress.left[members[0]].clone();
            let row = &rows[blank[0]];
            proof {
                assert(left_model[members@[0] as int] == session@);
                assert(row_model[blank@[0] as int] == row@);
            }
            progress.give(row.terminal_id.as_str(), &session);
        }
        i = i + 1;
    }
    assert(model.take(groups@.len() as int) == model);
}

/// The snapshots that a list holds.
pub open spec fn snapshot_views(v: Seq<Snapshot>) -> Seq<SnapshotModel> {
    v.map_values(|s: Snapshot| s@)
}

/// A name among the first terminals is the name among all; without one it is
/// the name among the rest.
proof fn lemma_name_among(a: Seq<TerminalModel>, b: Seq<TerminalModel>, key: KeyModel)
    ensures
        name_among(a + b, key) == match name_among(a, key) {
            Some(name) => Some(name),
            None => name_among(b, key),
        },
    decreases b.len(),
{
    if b.len() == 0 {
        assert(a + b =~= a);
    } else {
        lemma_name_among(a, b.drop_last(), key);
        assert((a + b).drop_last() =~= a + b.drop_last());
    }
}

/// The name of the first of the terminals that held conversation `key` and has
/// one.
fn find_name(terminals: &Vec<&Terminal>, key: &SessionKey) -> (r: Option<String>)
    ensures
        optional_text(r) == name_among(
            terminal_ref_views(terminals@),
            key@,
        ),
{
    let ghost model = terminal_ref_views(terminals@);
    let mut i: usize = 0;
    while i < terminals.len()
        invariant
            model == terminal_ref_views(terminals@),
            i <= terminals@.len(),
            name_among(model.take(i as int), key@) is None,
        decreases terminals@.len() - i,
    {
        let terminal = terminals[i];
        proof {
            assert(model.take(i + 1).drop_last() == model.take(i as int));
            assert(model.take(i + 1).last() == terminal@);
        }
        match terminal.session() {
            Some(session) => {
                if same_key(&session.key(), key) && !terminal.name.as_str().is_empty() {
                    proof {
                        lemma_name_among(model.take(i + 1), model.skip(i + 1), key@);
                        assert(model.take(i + 1) + model.skip(i + 1) =~= model);
                    }
                    return Some(terminal.name.clone());
                }
            },
            None => {},
        }
        i = i + 1;
    }
    assert(model.take(terminals@.len() as int) == model);
    None
}

/// The terminals of the first snapshots and one more.
proof fn lemma_terminals_of_step(history: Seq<SnapshotModel>, n: int)
    requires
        0 <= n < history.len(),
    ensures
        terminals_of(history.take(n + 1)) == terminals_of(history.take(n)) + history[n].terminals(),
{
    let f = |s: SnapshotModel| s.terminals();
    assert(history.take(n + 1).map_values(f).drop_last() =~= history.take(n).map_values(f));
    assert(history.take(n + 1).map_values(f).last() == history[n].terminals());
}

/// The terminals of all snapshots are those of the first and those of the rest.
proof fn lemma_terminals_of_split(history: Seq<SnapshotModel>, n: int)
    requires
        0 <= n <= history.len(),
    ensures
        exists|rest: Seq<TerminalModel>|
            terminals_of(history) == #[trigger] (terminals_of(history.take(n)) + rest),
    decreases history.len() - n,
{
    if n == history.len() {
        assert(history.take(n) == history);
        assert(terminals_of(history) =~= terminals_of(history) + Seq::<TerminalModel>::empty());
    } else {
        lemma_terminals_of_split(history, n + 1);
        lemma_terminals_of_step(history, n);
        let rest = choose|rest: Seq<TerminalModel>|
            terminals_of(history) == #[trigger] (terminals_of(history.take(n + 1)) + rest);
        assert(terminals_of(history) =~= terminals_of(history.take(n)) + (history[n].terminals()
            + rest));
    }
}

/// The title under which conversation `key` was saved, by the first of the
/// snapshots that tells.
pub fn historical_terminal_name(history: &Vec<Snapshot>, key: &SessionKey) -> (r: Option<String>)
    ensures
        optional_text(r) == earlier_title(snapshot_views(history@), key@),
{
    let ghost model = snapshot_views(history@);
    let mut i: usize = 0;
    assert(terminals_of(model.take(0)) =~= Seq::empty()) by {
        assert(model.take(0).map_values(|s: SnapshotModel| s.terminals()).len() == 0);
    }
    while i < history.len()
        invariant
            model == snapshot_views(history@),
            i <= history@.len(),
            name_among(terminals_of(model.take(i as int)), key@) is None,
        decreases history@.len() - i,
    {
        let terminals = all_terminals(&history[i]);
        proof {
            assert(model[i as int] == history@[i as int]@);
            lemma_terminals_of_step(model, i as int);
            lemma_name_among(terminals_of(model.take(i as int)), model[i as int].terminals(), key@);
        }
        match find_name(&terminals, key) {
            Some(name) => {
                proof {
                    lemma_terminals_of_split(model, i + 1);
                    let rest = choose|rest: Seq<TerminalModel>|
                        terminals_of(model) == #[trigger] (terminals_of(model.take(i + 1)) + rest);
                    lemma_name_among(terminals_of(model.take(i + 1)), rest, key@);
                }
                return Some(name);
            },
            None => {},
        }
        i = i + 1;
    }
    assert(model.take(history@.len() as int) == model);
    None
}

/// Matches sessions by the title of an earlier snapshot.
fn run_earlier(
    rows: &Vec<CaptureRow>,
    progress: &mut Progress,
    sessions: &Vec<AgentSession>,
    history: &Vec<Snapshot>,
)
    ensures
        final(progress)@ == match_earlier_all(
            row_views(rows@),
            old(progress)@,
            session_views(sessions@),
            snapshot_views(history@),
        ),
{
    let ghost row_model = row_views(rows@);
    let ghost model = session_views(sessions@);
    let ghost saved = snapshot_views(history@);
    let ghost start = progress@;
    let mut i: usize = 0;
    assert(model.take(0) =~= Seq::empty());
    while i < sessions.len()
        invariant
            row_model == row_views(rows@),
            model == session_views(sessions@),
            saved == snapshot_views(history@),
            i <= sessions@.len(),
            progress@ == match_earlier_all(row_model, start, model.take(i as int), saved),
        decreases sessions@.len() - i,
    {
        let session = &sessions[i];
        proof {
            assert(model.take(i + 1).drop_last() == model.take(i as int));
            assert(model.take(i + 1).last() == session@);
        }
        match historical_terminal_name(history, &session.key()) {
            Some(name) => {
                let wanted = stable_title(name.as_str());
                let assigned = &progress.assigned;
                let accepts = |k: usize| -> (b: bool)
                    requires
                        k < rows@.len(),
                        wanted@ == lasting_title(name@),
                    ensures
                        b == blank_titled(assigned@, name@)(rows@[k as int]@),
                {
                    let row = &rows[k];
                    let title = stable_title(row.terminal_name.as_str());
                    !assigned.contains(row.terminal_id.as_str())
                        && row.working_directory.as_str().is_empty() && same(
                        title.as_str(),
                        wanted.as_str(),
                    )
                };
                let blank = select_places::<RowModel, _>(
                    rows.len(),
                    accepts,
                    Ghost(row_model),
                    Ghost(blank_titled(progress@.pairs, name@)),
                );
                if blank.len() == 1 {
                    let row = &rows[blank[0]];
                    assert(row_model[blank@[0] as int] == row@);
                    progress.give(row.terminal_id.as_str(), session);
                }
            },
            None => {},
        }
        i = i + 1;
    }
    assert(model.take(sessions@.len() as int) == model);
}

/// Whether a free terminal stands in directory `cwd`.
fn has_free_terminal(rows: &Vec<CaptureRow>, assigned: &Assignments, cwd: &str) -> (r: bool)
    ensures
        r == free_terminal_in(row_views(rows@), assigned@, cwd@),
{
    let ghost model = row_views(rows@);
    let mut i: usize = 0;
    while i < rows.len()
        invariant
            model == row_views(rows@),
            i <= rows@.len(),
            forall|k: int| 0 <= k < i ==> !free_in(assigned@, cwd@)(#[trigger] model[k]),
        decreases rows@.len() - i,
    {
        let row = &rows[i];
        assert(model[i as int] == row@);
        if !assigned.contains(row.terminal_id.as_str()) && same_path(
            row.working_directory.as_str(),
            cwd,
        ) {
            assert(free_in(assigned@, cwd@)(model[i as int]));
            return true;
        }
        i = i + 1;
    }
    false
}

/// Whether a session of another agent is left in the directory of `session`.
fn has_rivals(left: &Vec<AgentSession>, session: &AgentSession) -> (r: bool)
    ensures
        r == rivals(session_views(left@), session@),
{
    let ghost model = session_views(left@);
    let mut i: usize = 0;
    while i < left.len()
        invariant
            model == session_views(left@),
            i <= left@.len(),
            forall|k: int|
                0 <= k < i ==> !((#[trigger] model[k]).key() != session@.key() && same_place(
                    model[k].cwd,
                    session@.cwd,
                ) && model[k].agent != session@.agent),
        decreases left@.len() - i,
    {
        let other = &left[i];
        assert(model[i as int] == other@);
        if !same_key(&other.key(), &session.key()) && same_path(
            other.cwd.as_str(),
            session.cwd.as_str(),
        ) && other.agent != session.agent {
            assert(model[i as int].key() != session@.key());
            return true;
        }
        i = i + 1;
    }
    false
}

/// The warning that a session was not matched.
fn unmatched_warning(session: &AgentSession, reason: &str) -> (r: String)
    ensures
        r@ == warning_text(session@, reason@),
{
    let mut r = session.agent.label().to_owned();
    r.append(" ");
    r.append(session.agent.unit());
    r.append(" ");
    r.append(session.session_id.as_str());
    r.append(" on ");
    r.append(session.tty.as_str());
    r.append(" in ");
    r.append(session.cwd.as_str());
    r.append(" was not matched: ");
    r.append(reason);
    r.append("; it will not auto-resume");
    r
}

/// The warnings on the sessions left.
fn write_warnings(rows: &Vec<CaptureRow>, progress: &Progress, warn_for_all: bool) -> (r: Vec<
    String,
>)
    ensures
        texts(r@) == warnings_for(
            row_views(rows@),
            progress@,
            warn_for_all,
            progress@.left.len(),
        ),
{
    let ghost row_model = row_views(rows@);
    let ghost m = progress@;
    let mut r: Vec<String> = Vec::new();
    let mut i: usize = 0;
    assert(texts(r@) =~= warnings_for(row_model, m, warn_for_all, 0));
    while i < progress.left.len()
        invariant
            row_model == row_views(rows@),
            m == progress@,
            i <= progress.left@.len(),
            texts(r@) == warnings_for(row_model, m, warn_for_all, i as nat),
        decreases progress.left@.len() - i,
    {
        let session = &progress.left[i];
        let cwd = session.cwd.as_str();
        assert(m.left[i as int] == session@);
        let blank = blank_rows(rows, &progress.assigned, cwd, session.agent);
        if warn_for_all || blank.len() > 0 {
            let reason = if has_rivals(&progress.left, session) && has_free_terminal(
                rows,
                &progress.assigned,
                cwd,
            ) {
                "multiple agent types share this directory and terminal titles do not identify them"
            } else if blank.len() > 1 {
                "multiple blank-directory Ghostty terminals have matching project titles"
            } else {
                "Ghostty exposed no terminal with that directory, a unique matching project title, or a unique prior session title"
            };
            let warning = unmatched_warning(session, reason);
            let ghost before = r@;
            r.push(warning);
            assert(texts(r@) =~= texts(before).push(warning@));
        }
        i = i + 1;
    }
    r
}

/// Matches `sessions` with the terminals of `rows`, with the help of the
/// snapshots in `history`, newest first. Returns which terminal shows which
/// session, and a warning for each session that is left; without
/// `warn_for_all_sessions` only for those that a terminal without a directory
/// may belong to.
pub fn assign_sessions(
    rows: &Vec<CaptureRow>,
    sessions: &Vec<AgentSession>,
    history: &Vec<Snapshot>,
    warn_for_all_sessions: bool,
) -> (r: (Assignments, Vec<String>))
    ensures
        ({
            let m = matching(
                row_views(rows@),
                session_views(sessions@),
                snapshot_views(history@),
            );
            r.0@ == m.pairs && texts(r.1@) == warnings_for(
                row_views(rows@),
                m,
                warn_for_all_sessions,
                m.left.len(),
            )
        }),
{
    let mut progress = Progress { assigned: Assignments::new(), left: copy_sessions(sessions) };
    let ordered = order_by_agent(sessions);
    run_titles(rows, &mut progress, &ordered);
    let directories = ordered_groups(&progress.left, false);
    run_directories(rows, &mut progress, &directories);
    let groups = ordered_groups(&progress.left, true);
    run_projects(rows, &mut progress, &groups);
    let unmatched = copy_sessions(&progress.left);
    run_earlier(rows, &mut progress, &unmatched, history);
    let warnings = write_warnings(rows, &progress, warn_for_all_sessions);
    (progress.assigned, warnings)
}

} // verus!
