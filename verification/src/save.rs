//! Saving a workspace: under which name, of which windows, and with what.
use vstd::prelude::*;
use vstd::string::*;

use crate::assign::{
    Assignments, agent_rank, assign_sessions, copy_sessions, matching, shown, snapshot_views,
    warnings_for,
};
use crate::cli::{SaveModel, SaveOptions};
use crate::error::{Error, debug_text, quoted};
use crate::list::{lemma_sorted_by_map, sort_by, sorted_by};
use crate::model::{
    Agent, AgentSession, CaptureRow, RowModel, SessionModel, Snapshot, SnapshotModel, row_views,
    session_views,
};
use crate::number::{
    decimal, decimal_is_injective, decimal_text, lemma_decimal_digits, two_digit_text, two_digits,
};
use crate::path::{below, is_file_name, joined_name_stands_in, stands_in};
use crate::pattern::is_name;
use crate::store::listed;
use crate::text::{
    comes_before, is_digit, lemma_separated, push_text, same, starts_with, text_before, texts,
};

verus! {

// ---------------------------------------------------------------------------
// What is saved, and where
// ---------------------------------------------------------------------------
/// Which windows are saved.
#[derive(Debug, Clone, PartialEq, Eq)]
pub enum Target {
    /// The window with this identifier.
    Given(String),
    /// The window in front.
    Front,
    /// Every window.
    Every,
}

/// The view of a `Target`.
pub enum TargetModel {
    Given(Seq<char>),
    Front,
    Every,
}

impl View for Target {
    type V = TargetModel;

    open spec fn view(&self) -> TargetModel {
        match self {
            Target::Given(id) => TargetModel::Given(id@),
            Target::Front => TargetModel::Front,
            Target::Every => TargetModel::Every,
        }
    }
}

/// Which windows the options choose.
pub open spec fn target_of(options: SaveModel) -> TargetModel {
    match options.window_id {
        Some(id) => TargetModel::Given(id),
        None => if options.current_window {
            TargetModel::Front
        } else {
            TargetModel::Every
        },
    }
}

/// Which windows the options choose.
pub fn save_target(options: &SaveOptions) -> (r: Target)
    ensures
        r@ == target_of(options@),
{
    match &options.window_id {
        Some(id) => Target::Given(id.clone()),
        None => if options.current_window {
            Target::Front
        } else {
            Target::Every
        },
    }
}

/// The identifier of the snapshot that is saved under `name` at `timestamp`.
pub open spec fn id_of(name: Seq<char>, timestamp: Seq<char>) -> Seq<char> {
    name + "_"@ + timestamp
}

/// The identifier of the snapshot that is saved under `name` at `timestamp`.
pub fn snapshot_id(name: &str, timestamp: &str) -> (r: String)
    ensures
        r@ == id_of(name@, timestamp@),
{
    let mut r = name.to_owned();
    r.append("_");
    r.append(timestamp);
    r
}

/// The name of the directory in which process `pid` prepares a snapshot.
pub open spec fn staging_of(id: Seq<char>, pid: u32) -> Seq<char> {
    "."@ + id + "."@ + decimal(pid as nat) + ".tmp"@
}

/// The name of the directory in which process `pid` prepares a snapshot.
pub fn staging_name(id: &str, pid: u32) -> (r: String)
    ensures
        r@ == staging_of(id@, pid),
{
    let mut r = ".".to_owned();
    r.append(id);
    r.append(".");
    r.append(decimal_text(pid as u64).as_str());
    r.append(".tmp");
    r
}

/// Fails where a snapshot with the identifier is there already.
pub fn check_new(id: &str, exists: bool) -> (r: Result<(), Error>)
    ensures
        match r {
            Ok(_) => !exists,
            Err(e) => exists && e@ == "snapshot already exists: "@ + id@,
        },
{
    if exists {
        let mut message = "snapshot already exists: ".to_owned();
        message.append(id);
        return Err(Error::new(message));
    }
    Ok(())
}

/// Whether `s` is made of digits and dashes.
pub open spec fn is_timestamp(s: Seq<char>) -> bool {
    forall|i: int| 0 <= i < s.len() ==> is_digit(#[trigger] s[i]) || s[i] == '-'
}

/// What is being prepared is never listed as a snapshot.
pub proof fn staging_is_not_listed(id: Seq<char>, pid: u32)
    ensures
        !listed(staging_of(id, pid)),
{
    reveal_strlit(".");
    assert(staging_of(id, pid).subrange(0, 1) =~= "."@);
}

/// What is saved under an accepted name is listed, and stands directly among the
/// snapshots.
pub proof fn saved_snapshot_is_listed(
    snapshots_dir: Seq<char>,
    name: Seq<char>,
    timestamp: Seq<char>,
)
    requires
        snapshots_dir.len() > 0,
        is_name(name),
        is_timestamp(timestamp),
    ensures
        listed(id_of(name, timestamp)),
        stands_in(below(snapshots_dir, id_of(name, timestamp)), snapshots_dir),
{
    let id = id_of(name, timestamp);
    reveal_strlit(".");
    reveal_strlit("..");
    reveal_strlit("_");
    assert(id[0] == name[0]);
    assert(id[0] != '.');
    if starts_with(id, "."@) {
        assert(id.subrange(0, 1)[0] == '.');
    }
    assert(!id.contains('/')) by {
        if id.contains('/') {
            let k = choose|k: int| 0 <= k < id.len() && id[k] == '/';
            if k < name.len() {
                assert(name[k] == '/');
            } else if k > name.len() {
                assert(timestamp[k - name.len() - 1] == '/');
            }
        }
    }
    assert(is_file_name(id)) by {
        if id == "."@ || id == ".."@ {
            assert("."@[0] == '.' && ".."@[0] == '.');
        }
    }
    joined_name_stands_in(snapshots_dir, id);
}

// ---------------------------------------------------------------------------
// What was captured
// ---------------------------------------------------------------------------
/// What is wrong with a capture that holds nothing.
pub open spec fn empty_fault(window_id: Option<Seq<char>>) -> Seq<char> {
    match window_id {
        Some(id) => "Ghostty window "@ + debug_text(id) + " is no longer available"@,
        None => "Ghostty has no restorable terminal surfaces"@,
    }
}

/// Fails where a capture holds nothing.
pub fn check_rows(rows: &Vec<CaptureRow>, window_id: Option<&str>) -> (r: Result<(), Error>)
    ensures
        match r {
            Ok(_) => rows@.len() > 0,
            Err(e) => rows@.len() == 0 && e@ == empty_fault(
                match window_id {
                    Some(id) => Some(id@),
                    None => None,
                },
            ),
        },
{
    if rows.len() > 0 {
        return Ok(());
    }
    match window_id {
        Some(id) => {
            let mut message = "Ghostty window ".to_owned();
            message.append(quoted(id).as_str());
            message.append(" is no longer available");
            Err(Error::new(message))
        },
        None => Err(Error::from_text("Ghostty has no restorable terminal surfaces")),
    }
}

/// Whether row `i` is the first of its window.
pub open spec fn begins_window(rows: Seq<RowModel>, i: int) -> bool {
    forall|j: int| 0 <= j < i ==> (#[trigger] rows[j]).window_index != rows[i].window_index
}

/// Whether the place of a window is not known: its first row tells.
pub open spec fn lacks_geometry(rows: Seq<RowModel>) -> bool {
    exists|i: int|
        0 <= i < rows.len() && #[trigger] begins_window(rows, i) && !rows[i].has_geometry()
}

/// Whether row `i` is the first of its window.
fn is_first_of_window(rows: &Vec<CaptureRow>, i: usize) -> (r: bool)
    requires
        i < rows@.len(),
    ensures
        r == begins_window(row_views(rows@), i as int),
{
    let ghost model = row_views(rows@);
    let mut j: usize = 0;
    while j < i
        invariant
            model == row_views(rows@),
            j <= i < rows@.len(),
            forall|k: int| 0 <= k < j ==> (#[trigger] model[k]).window_index != model[i as int].window_index,
        decreases i - j,
    {
        if rows[j].window_index == rows[i].window_index {
            assert(model[j as int].window_index == model[i as int].window_index);
            return false;
        }
        j = j + 1;
    }
    true
}

/// Whether the place of a window is not known.
pub fn geometry_is_missing(rows: &Vec<CaptureRow>) -> (r: bool)
    ensures
        r == lacks_geometry(row_views(rows@)),
{
    let ghost model = row_views(rows@);
    let mut i: usize = 0;
    while i < rows.len()
        invariant
            model == row_views(rows@),
            i <= rows@.len(),
            forall|k: int|
                0 <= k < i ==> !(#[trigger] begins_window(model, k) && !model[k].has_geometry()),
        decreases rows@.len() - i,
    {
        assert(model[i as int] == rows@[i as int]@);
        if !rows[i].has_geometry() && is_first_of_window(rows, i) {
            assert(begins_window(model, i as int) && !model[i as int].has_geometry());
            return true;
        }
        i = i + 1;
    }
    false
}

/// The file for the scrollback of a row, below the directory of the snapshot.
pub open spec fn scrollback_name(row: RowModel) -> Seq<char> {
    "scrollback/window-"@ + two_digits(row.window_index as nat) + "-tab-"@ + two_digits(
        row.tab_index as nat,
    ) + "-terminal-"@ + two_digits(row.terminal_index as nat) + ".txt"@
}

/// The file for the scrollback of a row.
fn scrollback_file_for(row: &CaptureRow) -> (r: String)
    ensures
        r@ == scrollback_name(row@),
{
    let mut r = "scrollback/window-".to_owned();
    r.append(two_digit_text(row.window_index as u64).as_str());
    r.append("-tab-");
    r.append(two_digit_text(row.tab_index as u64).as_str());
    r.append("-terminal-");
    r.append(two_digit_text(row.terminal_index as u64).as_str());
    r.append(".txt");
    r
}

/// A number of two digits or more is told by them, and they are digits.
proof fn lemma_two_digits(a: nat, b: nat)
    ensures
        forall|i: int| 0 <= i < two_digits(a).len() ==> is_digit(#[trigger] two_digits(a)[i]),
        two_digits(a) == two_digits(b) ==> a == b,
{
    lemma_decimal_digits(a);
    lemma_decimal_digits(b);
    assert forall|i: int| 0 <= i < two_digits(a).len() implies is_digit(
        #[trigger] two_digits(a)[i],
    ) by {
        if a < 10 && i > 0 {
            assert(two_digits(a)[i] == decimal(a)[i - 1]);
        } else if a >= 10 {
            assert(two_digits(a)[i] == decimal(a)[i]);
        }
    }
    if two_digits(a) == two_digits(b) {
        if a < 10 && b < 10 {
            assert(two_digits(a).skip(1) =~= decimal(a));
            assert(two_digits(b).skip(1) =~= decimal(b));
            decimal_is_injective(a, b);
        } else if a >= 10 && b >= 10 {
            decimal_is_injective(a, b);
        } else if a < 10 {
            assert(two_digits(a)[0] == '0');
            assert(two_digits(b)[0] == decimal(b)[0]);
        } else {
            assert(two_digits(b)[0] == '0');
            assert(two_digits(a)[0] == decimal(a)[0]);
        }
    }
}

/// Digits in front of a mark that begins with none are told by the whole.
proof fn lemma_marked(a: Seq<char>, b: Seq<char>, mark: Seq<char>, x: Seq<char>, y: Seq<char>)
    requires
        mark.len() > 0,
        !is_digit(mark[0]),
        a + mark + x == b + mark + y,
        forall|i: int| 0 <= i < a.len() ==> is_digit(#[trigger] a[i]),
        forall|i: int| 0 <= i < b.len() ==> is_digit(#[trigger] b[i]),
    ensures
        a == b,
        x == y,
{
    let rest = mark.skip(1);
    assert(a + mark + x =~= a + seq![mark[0]] + (rest + x));
    assert(b + mark + y =~= b + seq![mark[0]] + (rest + y));
    lemma_separated(a, b, mark[0], rest + x, rest + y);
    assert(x =~= (rest + x).skip(rest.len() as int));
    assert(y =~= (rest + y).skip(rest.len() as int));
}

/// Three runs of digits, each in front of a mark, are told by the whole.
proof fn lemma_three_marked(
    front: Seq<char>,
    marks: (Seq<char>, Seq<char>, Seq<char>),
    a: (Seq<char>, Seq<char>, Seq<char>),
    b: (Seq<char>, Seq<char>, Seq<char>),
)
    requires
        marks.0.len() > 0 && !is_digit(marks.0[0]),
        marks.1.len() > 0 && !is_digit(marks.1[0]),
        marks.2.len() > 0 && !is_digit(marks.2[0]),
        forall|i: int| 0 <= i < a.0.len() ==> is_digit(#[trigger] a.0[i]),
        forall|i: int| 0 <= i < a.1.len() ==> is_digit(#[trigger] a.1[i]),
        forall|i: int| 0 <= i < a.2.len() ==> is_digit(#[trigger] a.2[i]),
        forall|i: int| 0 <= i < b.0.len() ==> is_digit(#[trigger] b.0[i]),
        forall|i: int| 0 <= i < b.1.len() ==> is_digit(#[trigger] b.1[i]),
        forall|i: int| 0 <= i < b.2.len() ==> is_digit(#[trigger] b.2[i]),
        front + a.0 + marks.0 + a.1 + marks.1 + a.2 + marks.2 == front + b.0 + marks.0 + b.1
            + marks.1 + b.2 + marks.2,
    ensures
        a == b,
{
    let none = Seq::<char>::empty();
    let z = a.2 + marks.2 + none;
    let z2 = b.2 + marks.2 + none;
    let y = a.1 + marks.1 + z;
    let y2 = b.1 + marks.1 + z2;
    let x = a.0 + marks.0 + y;
    let x2 = b.0 + marks.0 + y2;
    assert(front + a.0 + marks.0 + a.1 + marks.1 + a.2 + marks.2 =~= front + x);
    assert(front + b.0 + marks.0 + b.1 + marks.1 + b.2 + marks.2 =~= front + x2);
    assert(x =~= (front + x).skip(front.len() as int));
    assert(x2 =~= (front + x2).skip(front.len() as int));
    lemma_marked(a.0, b.0, marks.0, y, y2);
    lemma_marked(a.1, b.1, marks.1, z, z2);
    lemma_marked(a.2, b.2, marks.2, none, none);
}

/// The scrollback of different terminals goes to different files.
pub proof fn scrollback_names_differ(a: RowModel, b: RowModel)
    requires
        scrollback_name(a) == scrollback_name(b),
    ensures
        a.window_index == b.window_index,
        a.tab_index == b.tab_index,
        a.terminal_index == b.terminal_index,
{
    let w = two_digits(a.window_index as nat);
    let w2 = two_digits(b.window_index as nat);
    let t = two_digits(a.tab_index as nat);
    let t2 = two_digits(b.tab_index as nat);
    let k = two_digits(a.terminal_index as nat);
    let k2 = two_digits(b.terminal_index as nat);
    lemma_two_digits(a.window_index as nat, b.window_index as nat);
    lemma_two_digits(b.window_index as nat, a.window_index as nat);
    lemma_two_digits(a.tab_index as nat, b.tab_index as nat);
    lemma_two_digits(b.tab_index as nat, a.tab_index as nat);
    lemma_two_digits(a.terminal_index as nat, b.terminal_index as nat);
    lemma_two_digits(b.terminal_index as nat, a.terminal_index as nat);
    assert("-tab-"@.len() > 0 && !is_digit("-tab-"@[0])) by {
        reveal_strlit("-tab-");
    }
    assert("-terminal-"@.len() > 0 && !is_digit("-terminal-"@[0])) by {
        reveal_strlit("-terminal-");
    }
    assert(".txt"@.len() > 0 && !is_digit(".txt"@[0])) by {
        reveal_strlit(".txt");
    }
    lemma_three_marked(
        "scrollback/window-"@,
        ("-tab-"@, "-terminal-"@, ".txt"@),
        (w, t, k),
        (w2, t2, k2),
    );
}

/// A row with the conversation that its terminal shows, which also gives the
/// directory where Ghostty told none; and with a file for its scrollback, where
/// `available` says that there is any.
pub open spec fn prepared_row(
    row: RowModel,
    pairs: Seq<(Seq<char>, SessionModel)>,
    available: bool,
) -> RowModel {
    let session = shown(pairs, row.terminal_id);
    RowModel {
        agent_session: match session {
            Some(s) => Some(s),
            None => row.agent_session,
        },
        working_directory: match session {
            Some(s) => if row.working_directory.len() == 0 {
                s.cwd
            } else {
                row.working_directory
            },
            None => row.working_directory,
        },
        scrollback_file: if row.scrollback_path is Some && available {
            Some(scrollback_name(row))
        } else {
            row.scrollback_file
        },
        ..row
    }
}

/// The rows, each prepared.
pub open spec fn prepared_rows(
    rows: Seq<RowModel>,
    pairs: Seq<(Seq<char>, SessionModel)>,
    available: Seq<bool>,
) -> Seq<RowModel> {
    Seq::new(rows.len(), |i: int| prepared_row(rows[i], pairs, available[i]))
}

/// Orders sessions by their agents, those of one agent by their terminals.
pub open spec fn by_agent_and_terminal() -> spec_fn(SessionModel, SessionModel) -> bool {
    |a: SessionModel, b: SessionModel|
        agent_rank(a.agent) < agent_rank(b.agent) || (a.agent == b.agent && text_before(
            a.tty,
            b.tty,
        ))
}

/// `s` without sessions that stand behind one of the same conversation.
pub open spec fn without_repeats(s: Seq<SessionModel>) -> Seq<SessionModel>
    decreases s.len(),
{
    if s.len() == 0 {
        Seq::empty()
    } else {
        let before = without_repeats(s.drop_last());
        if before.len() > 0 && before.last().key() == s.last().key() {
            before
        } else {
            before.push(s.last())
        }
    }
}

/// What a snapshot is made of.
pub struct Prepared {
    pub rows: Vec<CaptureRow>,
    pub sessions: Vec<AgentSession>,
    pub warnings: Vec<String>,
}

/// The view of a `Prepared`.
pub struct PreparedModel {
    pub rows: Seq<RowModel>,
    pub sessions: Seq<SessionModel>,
    pub warnings: Seq<Seq<char>>,
}

impl View for Prepared {
    type V = PreparedModel;

    open spec fn view(&self) -> PreparedModel {
        PreparedModel {
            rows: row_views(self.rows@),
            sessions: session_views(self.sessions@),
            warnings: texts(self.warnings@),
        }
    }
}

/// The warning that the place of a window is not known.
pub open spec fn geometry_warning(rows: Seq<RowModel>) -> Seq<Seq<char>> {
    if lacks_geometry(rows) {
        seq!["window geometry unavailable; grant your shell Accessibility permission"@]
    } else {
        Seq::empty()
    }
}

/// What a snapshot of one window or of all is made of. Of one window only the
/// conversations are noted that its terminals show.
pub open spec fn prepared_of(
    rows: Seq<RowModel>,
    sessions: Seq<SessionModel>,
    history: Seq<SnapshotModel>,
    one_window: bool,
    available: Seq<bool>,
) -> PreparedModel {
    let m = matching(rows, sessions, history);
    let noted = if one_window {
        m.pairs.map_values(|pair: (Seq<char>, SessionModel)| pair.1)
    } else {
        sessions
    };
    PreparedModel {
        rows: prepared_rows(rows, m.pairs, available),
        sessions: without_repeats(sorted_by(noted, by_agent_and_terminal())),
        warnings: warnings_for(rows, m, !one_window, m.left.len()) + geometry_warning(rows),
    }
}

/// A row, prepared.
fn prepare_row(row: &CaptureRow, assigned: &Assignments, available: bool) -> (r: CaptureRow)
    ensures
        r@ == prepared_row(row@, assigned@, available),
{
    let mut r = row.clone();
    if let Some(session) = assigned.get(row.terminal_id.as_str()) {
        if row.working_directory.as_str().is_empty() {
            r.working_directory = session.cwd.clone();
        }
        r.agent_session = Some(session);
    }
    if row.scrollback_path.is_some() && available {
        r.scrollback_file = Some(scrollback_file_for(row));
    }
    r
}

/// The sessions in order, without repeats.
fn ordered_sessions(sessions: Vec<AgentSession>) -> (r: Vec<AgentSession>)
    ensures
        session_views(r@) == without_repeats(
            sorted_by(session_views(sessions@), by_agent_and_terminal()),
        ),
{
    let ghost fine = |a: AgentSession, b: AgentSession| by_agent_and_terminal()(a@, b@);
    let ghost f = |s: AgentSession| s@;
    let is_before = |a: &AgentSession, b: &AgentSession| -> (r: bool)
        ensures
            r == by_agent_and_terminal()(a@, b@),
    { session_before(a, b) };
    let ordered = sort_by(sessions, is_before, Ghost(fine));
    proof {
        lemma_sorted_by_map(sessions@, f, fine, by_agent_and_terminal());
    }
    let ghost model = session_views(ordered@);
    let mut r: Vec<AgentSession> = Vec::new();
    let mut i: usize = 0;
    assert(session_views(r@) =~= without_repeats(model.take(0)));
    while i < ordered.len()
        invariant
            model == session_views(ordered@),
            i <= ordered@.len(),
            session_views(r@) == without_repeats(model.take(i as int)),
        decreases ordered@.len() - i,
    {
        proof {
            assert(model.take(i + 1).drop_last() == model.take(i as int));
            assert(model.take(i + 1).last() == ordered@[i as int]@);
        }
        let n: usize = r.len();
        assert(session_views(r@).len() == n);
        let repeats = if n > 0 {
            assert(session_views(r@).last() == r@[n - 1]@);
            r[n - 1].agent == ordered[i].agent && same(
                r[n - 1].session_id.as_str(),
                ordered[i].session_id.as_str(),
            )
        } else {
            false
        };
        if !repeats {
            let ghost before = r@;
            r.push(ordered[i].clone());
            assert(session_views(r@) =~= session_views(before).push(ordered@[i as int]@));
        }
        i = i + 1;
    }
    assert(model.take(ordered@.len() as int) == model);
    r
}

/// Whether session `a` comes before session `b`.
fn session_before(a: &AgentSession, b: &AgentSession) -> (r: bool)
    ensures
        r == by_agent_and_terminal()(a@, b@),
{
    if a.agent == b.agent {
        comes_before(a.tty.as_str(), b.tty.as_str())
    } else {
        match a.agent {
            Agent::Amp => true,
            Agent::Codex => false,
        }
    }
}

/// What a snapshot is made of: the captured rows with the conversations that run,
/// matched with the help of the snapshots in `history`, newest first. `available`
/// says for each row whether the file with its scrollback is there.
pub fn prepare_capture(
    rows: &Vec<CaptureRow>,
    sessions: &Vec<AgentSession>,
    history: &Vec<Snapshot>,
    one_window: bool,
    available: &Vec<bool>,
) -> (r: Prepared)
    requires
        available@.len() == rows@.len(),
    ensures
        r@ == prepared_of(
            row_views(rows@),
            session_views(sessions@),
            snapshot_views(history@),
            one_window,
            available@,
        ),
{
    let ghost model = row_views(rows@);
    let (assigned, warnings) = assign_sessions(rows, sessions, history, !one_window);
    let mut warnings = warnings;
    let ghost told = texts(warnings@);
    if geometry_is_missing(rows) {
        push_text(
            &mut warnings,
            "window geometry unavailable; grant your shell Accessibility permission".to_owned(),
        );
    }
    assert(texts(warnings@) =~= told + geometry_warning(model));
    let ghost all = prepared_rows(model, assigned@, available@);
    let mut ready: Vec<CaptureRow> = Vec::new();
    let mut i: usize = 0;
    while i < rows.len()
        invariant
            available@.len() == rows@.len(),
            model == row_views(rows@),
            all == prepared_rows(model, assigned@, available@),
            i <= rows@.len(),
            row_views(ready@) == all.take(i as int),
        decreases rows@.len() - i,
    {
        let ghost before = ready@;
        ready.push(prepare_row(&rows[i], &assigned, available[i]));
        assert(model[i as int] == rows@[i as int]@);
        assert(row_views(ready@) =~= row_views(before).push(all[i as int]));
        assert(all.take(i + 1) =~= all.take(i as int).push(all[i as int]));
        i = i + 1;
    }
    assert(all.take(rows@.len() as int) == all);
    let noted = if one_window {
        assigned.sessions()
    } else {
        copy_sessions(sessions)
    };
    Prepared { rows: ready, sessions: ordered_sessions(noted), warnings }
}

} // verus!
