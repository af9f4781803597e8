//! What of a capture a snapshot keeps.
use vstd::prelude::*;
use vstd::string::*;

use crate::assign::{matching, shown, warnings_for};
use crate::cli::SaveModel;
use crate::list::{
    alike, by_key, grouped, in_order, keyed, lemma_select, lemma_select_at, lemma_sorted_by_items,
    ordered_set, ordered_set_covers, orders, select, sorted_by, sorting_orders,
};
use crate::model::{
    Agent, KeyModel, Position, RowModel, ScopeModel, SessionModel, Size, SnapshotModel,
};
use crate::number::{decimal, lemma_decimal_digits, two_digits};
use crate::save::{
    TargetModel, begins_window, by_agent_and_terminal, geometry_warning, id_of, lacks_geometry,
    prepared_of, prepared_row, scrollback_name, staging_of, target_of, without_repeats,
};
use crate::snapshot::{
    InputModel, of_agent, snapshot_of, tab_groups, tab_key, tab_of, terminal_key, terminal_of,
    window_groups, window_key, window_of, windows_of,
};
use crate::store::{text_order_is_total, text_order_is_transitive};
use crate::text::{contains, ends_with, starts_with, text_before};
use crate::text_laws::parts_are_found;

verus! {

// ---------------------------------------------------------------------------
// Terminals
// ---------------------------------------------------------------------------
/// A terminal is saved with its number, identifier, title, focus, directory and
/// scrollback file.
pub proof fn terminals_keep_what_was_captured(row: RowModel)
    ensures
        terminal_of(row).index == row.terminal_index,
        terminal_of(row).id == Some(row.terminal_id),
        terminal_of(row).name == row.terminal_name,
        terminal_of(row).focused == row.terminal_focused,
        terminal_of(row).working_directory == row.working_directory,
        terminal_of(row).scrollback_file == row.scrollback_file,
{
}

/// A terminal is saved with the conversation that it shows, as one of its agent; and
/// with none where it shows none.
pub proof fn terminals_keep_their_conversation(row: RowModel, session: SessionModel)
    ensures
        row.agent_session == Some(session) && session.agent == Agent::Codex ==> terminal_of(
            row,
        ).codex_session_id == Some(session.session_id) && terminal_of(row).amp_thread_id is None,
        row.agent_session == Some(session) && session.agent == Agent::Amp ==> terminal_of(
            row,
        ).amp_thread_id == Some(session.session_id) && terminal_of(row).codex_session_id is None,
        row.agent_session is None ==> terminal_of(row).codex_session_id is None && terminal_of(
            row,
        ).amp_thread_id is None,
{
}

// ---------------------------------------------------------------------------
// Windows and tabs
// ---------------------------------------------------------------------------
/// The group of a row by a number.
proof fn lemma_group_of(rows: Seq<RowModel>, key: spec_fn(RowModel) -> int, i: int) -> (k: int)
    requires
        0 <= i < rows.len(),
    ensures
        ({
            let groups = grouped(rows, key, ordered_set(rows, by_key(key)));
            &&& 0 <= k < groups.len()
            &&& groups[k] == select(rows, keyed(key, ordered_set(rows, by_key(key))[k]))
            &&& key(ordered_set(rows, by_key(key))[k]) == key(rows[i])
            &&& groups[k].contains(rows[i])
            &&& forall|n: int|
                0 <= n < groups[k].len() ==> key(#[trigger] groups[k][n]) == key(rows[i])
                    && rows.contains(groups[k][n])
        }),
{
    let kinds = ordered_set(rows, by_key(key));
    let groups = grouped(rows, key, kinds);
    ordered_set_covers(rows, by_key(key), i);
    let k = choose|k: int| 0 <= k < kinds.len() && alike(by_key(key), rows[i])(#[trigger] kinds[k]);
    lemma_select(rows, keyed(key, kinds[k]));
    assert(keyed(key, kinds[k])(rows[i]));
    assert forall|n: int| 0 <= n < groups[k].len() implies key(#[trigger] groups[k][n]) == key(
        rows[i],
    ) && rows.contains(groups[k][n]) by {
        assert(keyed(key, kinds[k])(groups[k][n]));
    }
    k
}

/// Every captured terminal stands in the window and the tab with its numbers.
pub proof fn terminals_stand_in_their_window_and_tab(rows: Seq<RowModel>, i: int)
    requires
        0 <= i < rows.len(),
    ensures
        exists|a: int, b: int, c: int|
            {
                &&& 0 <= a < windows_of(rows).len()
                &&& windows_of(rows)[a].index == rows[i].window_index
                &&& 0 <= b < windows_of(rows)[a].tabs.len()
                &&& windows_of(rows)[a].tabs[b].index == rows[i].tab_index
                &&& 0 <= c < windows_of(rows)[a].tabs[b].terminals.len()
                &&& #[trigger] windows_of(rows)[a].tabs[b].terminals[c] == terminal_of(rows[i])
            },
{
    let a = lemma_group_of(rows, window_key(), i);
    let group = window_groups(rows)[a];
    let p = choose|p: int| 0 <= p < group.len() && group[p] == rows[i];
    assert(window_key()(group[0]) == window_key()(rows[i]));
    let b = lemma_group_of(group, tab_key(), p);
    let tab = tab_groups(group)[b];
    let ordered = sorted_by(tab, by_key(terminal_key()));
    lemma_sorted_by_items(tab, by_key(terminal_key()));
    assert(ordered.contains(rows[i]));
    let c = choose|c: int| 0 <= c < ordered.len() && ordered[c] == rows[i];
    assert(ordered.contains(ordered[0]));
    assert(tab.contains(ordered[0]));
    let q = choose|q: int| 0 <= q < tab.len() && tab[q] == ordered[0];
    assert(tab_key()(tab[q]) == tab_key()(group[p]));
    assert(windows_of(rows)[a] == window_of(group));
    assert(windows_of(rows)[a].tabs[b] == tab_of(tab));
    assert(windows_of(rows)[a].tabs[b].terminals[c] == terminal_of(rows[i]));
}

/// A window has the identifier and the name that its first captured row tells, and its
/// place and size where that row tells both numbers of each.
pub proof fn windows_keep_what_was_captured(rows: Seq<RowModel>, i: int)
    requires
        0 <= i < rows.len(),
        forall|j: int|
            0 <= j < i ==> (#[trigger] rows[j]).window_index != rows[i].window_index,
    ensures
        exists|a: int|
            {
                &&& 0 <= a < windows_of(rows).len()
                &&& (#[trigger] windows_of(rows)[a]).index == rows[i].window_index
                &&& windows_of(rows)[a].id == Some(rows[i].window_id)
                &&& windows_of(rows)[a].name == rows[i].window_name
                &&& rows[i].window_x matches Some(x) ==> rows[i].window_y matches Some(y)
                    ==> windows_of(rows)[a].position == Some(Position { x, y })
                &&& rows[i].window_x is None || rows[i].window_y is None
                    ==> windows_of(rows)[a].position is None
                &&& rows[i].window_width matches Some(width) ==> rows[i].window_height matches Some(
                    height,
                ) ==> windows_of(rows)[a].size == Some(Size { width, height })
                &&& rows[i].window_width is None || rows[i].window_height is None
                    ==> windows_of(rows)[a].size is None
            },
{
    let a = lemma_group_of(rows, window_key(), i);
    let kinds = ordered_set(rows, by_key(window_key()));
    let keep = keyed(window_key(), kinds[a]);
    let group = window_groups(rows)[a];
    assert(keep(rows[i]));
    lemma_select_at(rows, keep, i);
    lemma_none_before(rows, keep, i);
    assert(group[0] == rows[i]);
    assert(windows_of(rows)[a] == window_of(group));
}

proof fn lemma_none_before(rows: Seq<RowModel>, keep: spec_fn(RowModel) -> bool, i: int)
    requires
        0 <= i <= rows.len(),
        forall|j: int| 0 <= j < i ==> !keep(#[trigger] rows[j]),
    ensures
        select(rows.take(i), keep).len() == 0,
    decreases i,
{
    if i > 0 {
        lemma_none_before(rows, keep, i - 1);
        assert(rows.take(i).drop_last() =~= rows.take(i - 1));
        assert(rows.take(i).last() == rows[i - 1]);
    }
}

/// A tab has the identifier and the name of its terminal with the lowest number, and is
/// selected where that terminal tells so.
pub proof fn tabs_keep_what_was_captured(rows: Seq<RowModel>, i: int)
    requires
        0 <= i < rows.len(),
        forall|j: int|
            0 <= j < rows.len() && j != i ==> (#[trigger] rows[j]).terminal_index
                > rows[i].terminal_index,
    ensures
        tab_of(rows).index == rows[i].tab_index,
        tab_of(rows).id == Some(rows[i].tab_id),
        tab_of(rows).name == rows[i].tab_name,
        tab_of(rows).selected == rows[i].tab_selected,
        tab_of(rows).terminals.len() == rows.len(),
{
    let before = by_key(terminal_key());
    let ordered = sorted_by(rows, before);
    lemma_sorted_by_items(rows, before);
    sorting_orders(rows, before);
    assert(rows.contains(rows[i]));
    assert(ordered.contains(rows[i]));
    let c = choose|c: int| 0 <= c < ordered.len() && ordered[c] == rows[i];
    if c > 0 {
        assert(!before(ordered[c], ordered[0]));
        assert(ordered.contains(ordered[0]));
        assert(rows.contains(ordered[0]));
        let q = choose|q: int| 0 <= q < rows.len() && rows[q] == ordered[0];
        if q != i {
            assert(rows[q].terminal_index > rows[i].terminal_index);
        }
    }
}

// ---------------------------------------------------------------------------
// The snapshot
// ---------------------------------------------------------------------------
/// A snapshot keeps its name, identifier, times, warnings and scope.
pub proof fn snapshots_keep_what_they_are_given(input: InputModel, saved_at: Seq<char>)
    requires
        input.rows.len() <= usize::MAX,
    ensures
        snapshot_of(input, saved_at).version == 1,
        snapshot_of(input, saved_at).name == input.name,
        snapshot_of(input, saved_at).id == input.id,
        snapshot_of(input, saved_at).saved_at == saved_at,
        snapshot_of(input, saved_at).timestamp == input.timestamp,
        snapshot_of(input, saved_at).ghostty_version == input.ghostty_version,
        snapshot_of(input, saved_at).warnings == input.warnings,
        snapshot_of(input, saved_at).scrollback_captured == input.capture_scrollback,
        snapshot_of(input, saved_at).terminals_count == input.rows.len(),
        input.target_window_id matches Some(window_id) ==> snapshot_of(input, saved_at).scope == (
        ScopeModel::Window { window_id }),
        input.target_window_id is None ==> snapshot_of(input, saved_at).scope
            == ScopeModel::AllWindows,
{
}

/// A snapshot notes every conversation that was found, under its agent, and no other.
pub proof fn conversations_are_noted_under_their_agent(
    input: InputModel,
    saved_at: Seq<char>,
    session: SessionModel,
)
    ensures
        snapshot_of(input, saved_at).detected_codex_sessions.contains(session)
            <==> input.process_sessions.contains(session) && session.agent == Agent::Codex,
        snapshot_of(input, saved_at).detected_amp_threads.contains(session)
            <==> input.process_sessions.contains(session) && session.agent == Agent::Amp,
{
    lemma_of_agent(input.process_sessions, Agent::Codex, session);
    lemma_of_agent(input.process_sessions, Agent::Amp, session);
}

proof fn lemma_of_agent(all: Seq<SessionModel>, agent: Agent, session: SessionModel)
    ensures
        select(all, of_agent(agent)).contains(session) <==> all.contains(session) && session.agent
            == agent,
{
    let some = select(all, of_agent(agent));
    lemma_select(all, of_agent(agent));
    if some.contains(session) {
        let k = choose|k: int| 0 <= k < some.len() && some[k] == session;
        assert(of_agent(agent)(some[k]));
    }
    if all.contains(session) && session.agent == agent {
        let k = choose|k: int| 0 <= k < all.len() && all[k] == session;
        assert(of_agent(agent)(all[k]));
    }
}

/// A snapshot says that its scrollback was skipped exactly where it was, and always that
/// split geometry and other programs are not restored.
pub proof fn limitations_are_told(input: InputModel, saved_at: Seq<char>)
    ensures
        ({
            let notes = snapshot_of(input, saved_at).limitations;
            &&& notes.len() == 3
            &&& notes[0]
                == "Ghostty does not expose split geometry; terminal counts restore as right-hand splits."@
            &&& input.capture_scrollback ==> notes[1]
                == "Scrollback restores as plain text output, without original styling or interactive state."@
            &&& !input.capture_scrollback ==> notes[1]
                == "Scrollback was intentionally skipped for this fast snapshot."@
            &&& notes[2]
                == "Only Codex conversations and Amp threads are resumed; arbitrary child processes are not reconstructible."@
        }),
{
}

// ---------------------------------------------------------------------------
// Preparing
// ---------------------------------------------------------------------------
/// A row gets the conversation that its terminal shows; the conversation's directory
/// where it has none of its own; and a file for its scrollback where there is any. All
/// else stays.
pub proof fn rows_get_what_was_found(
    row: RowModel,
    pairs: Seq<(Seq<char>, SessionModel)>,
    available: bool,
)
    ensures
        ({
            let ready = prepared_row(row, pairs, available);
            &&& shown(pairs, row.terminal_id) matches Some(session) ==> ready.agent_session
                == Some(session) && ready.working_directory == if row.working_directory.len() == 0 {
                session.cwd
            } else {
                row.working_directory
            }
            &&& shown(pairs, row.terminal_id) is None ==> ready.agent_session == row.agent_session
                && ready.working_directory == row.working_directory
            &&& row.scrollback_path is Some && available ==> ready.scrollback_file == Some(
                scrollback_name(row),
            )
            &&& row.scrollback_path is None || !available ==> ready.scrollback_file
                == row.scrollback_file
            &&& ready.window_index == row.window_index && ready.window_id == row.window_id
                && ready.window_name == row.window_name && ready.window_x == row.window_x
                && ready.window_y == row.window_y && ready.window_width == row.window_width
                && ready.window_height == row.window_height && ready.tab_index == row.tab_index
                && ready.tab_id == row.tab_id && ready.tab_name == row.tab_name
                && ready.tab_selected == row.tab_selected && ready.terminal_index
                == row.terminal_index && ready.terminal_id == row.terminal_id
                && ready.terminal_name == row.terminal_name && ready.terminal_focused
                == row.terminal_focused
        }),
{
}

/// Every row is prepared, in its place, by what matching its conversation gave.
pub proof fn every_row_is_prepared(
    rows: Seq<RowModel>,
    sessions: Seq<SessionModel>,
    history: Seq<SnapshotModel>,
    one_window: bool,
    available: Seq<bool>,
    i: int,
)
    requires
        0 <= i < rows.len(),
    ensures
        prepared_of(rows, sessions, history, one_window, available).rows.len() == rows.len(),
        prepared_of(rows, sessions, history, one_window, available).rows[i] == prepared_row(
            rows[i],
            matching(rows, sessions, history).pairs,
            available[i],
        ),
{
}

/// A number with two digits or more is the number, with a zero in front of a single
/// digit.
pub proof fn two_digits_are_the_number(n: nat)
    ensures
        two_digits(n).len() >= 2,
        n >= 10 ==> two_digits(n) == decimal(n),
        n < 10 ==> two_digits(n) == seq!['0'] + decimal(n) && two_digits(n).len() == 2,
{
    lemma_decimal_digits(n);
    if n >= 10 {
        lemma_decimal_digits(n / 10);
        assert(decimal(n).len() == decimal(n / 10).len() + 1);
    } else {
        assert(decimal(n).len() == 1);
    }
}

/// The file for a terminal's scrollback stands in a directory of its own, under the
/// numbers of window, tab and terminal.
pub proof fn scrollback_files_are_named(row: RowModel)
    ensures
        scrollback_name(row) == "scrollback/"@ + ("window-"@ + two_digits(row.window_index as nat)
            + "-tab-"@ + two_digits(row.tab_index as nat) + "-terminal-"@ + two_digits(
            row.terminal_index as nat,
        ) + ".txt"@),
{
    reveal_strlit("scrollback/window-");
    reveal_strlit("scrollback/");
    reveal_strlit("window-");
    assert("scrollback/window-"@ =~= "scrollback/"@ + "window-"@);
    let w = two_digits(row.window_index as nat);
    let t = two_digits(row.tab_index as nat);
    let k = two_digits(row.terminal_index as nat);
    lemma_regroup("scrollback/"@, "window-"@, w, "-tab-"@, t, "-terminal-"@, k, ".txt"@);
}

proof fn lemma_regroup(
    s: Seq<char>,
    a: Seq<char>,
    b: Seq<char>,
    c: Seq<char>,
    d: Seq<char>,
    e: Seq<char>,
    f: Seq<char>,
    g: Seq<char>,
)
    ensures
        (s + a) + b + c + d + e + f + g == s + (a + b + c + d + e + f + g),
{
    assert((s + a) + b + c + d + e + f + g =~= s + (a + b + c + d + e + f + g));
}

/// A window that is named is saved; without one, the window in front where that is
/// asked for, else every window.
pub proof fn windows_are_chosen(options: SaveModel)
    ensures
        options.window_id matches Some(id) ==> target_of(options) == TargetModel::Given(id),
        options.window_id is None && options.current_window ==> target_of(options)
            == TargetModel::Front,
        options.window_id is None && !options.current_window ==> target_of(options)
            == TargetModel::Every,
{
}

/// The identifier of a snapshot is its name, an underscore and its time; what is being
/// prepared is named after it and the process.
pub proof fn snapshots_are_named_by_name_and_time(
    name: Seq<char>,
    timestamp: Seq<char>,
    pid: u32,
)
    ensures
        starts_with(id_of(name, timestamp), name + "_"@),
        ends_with(id_of(name, timestamp), "_"@ + timestamp),
        id_of(name, timestamp).len() == name.len() + 1 + timestamp.len(),
        contains(staging_of(id_of(name, timestamp), pid), id_of(name, timestamp)),
        ends_with(staging_of(id_of(name, timestamp), pid), "."@ + decimal(pid as nat) + ".tmp"@),
{
    reveal_strlit("_");
    let id = id_of(name, timestamp);
    parts_are_found(Seq::empty(), name + "_"@, timestamp);
    assert(id =~= name + ("_"@ + timestamp));
    parts_are_found(name, "_"@ + timestamp, Seq::empty());
    let tail = "."@ + decimal(pid as nat) + ".tmp"@;
    assert(staging_of(id, pid) =~= "."@ + id + tail);
    parts_are_found("."@, id, tail);
    parts_are_found("."@ + id, tail, Seq::empty());
}

/// The sessions that are noted: of one window those that its terminals show, else all
/// that were found.
pub proof fn noted_sessions_are_those_of_the_scope(
    rows: Seq<RowModel>,
    sessions: Seq<SessionModel>,
    history: Seq<SnapshotModel>,
    available: Seq<bool>,
    session: SessionModel,
)
    requires
        prepared_of(rows, sessions, history, true, available).sessions.contains(session)
            || prepared_of(rows, sessions, history, false, available).sessions.contains(session),
    ensures
        prepared_of(rows, sessions, history, true, available).sessions.contains(session) ==> exists|
            i: int,
        |
            0 <= i < matching(rows, sessions, history).pairs.len() && (#[trigger] matching(
                rows,
                sessions,
                history,
            ).pairs[i]).1 == session,
        prepared_of(rows, sessions, history, false, available).sessions.contains(session)
            ==> sessions.contains(session),
{
    let m = matching(rows, sessions, history);
    let shown_ones = m.pairs.map_values(|pair: (Seq<char>, SessionModel)| pair.1);
    let x = sorted_by(shown_ones, by_agent_and_terminal());
    let y = sorted_by(sessions, by_agent_and_terminal());
    lemma_sorted_by_items(shown_ones, by_agent_and_terminal());
    lemma_sorted_by_items(sessions, by_agent_and_terminal());
    lemma_without_repeats(x);
    lemma_without_repeats(y);
    if without_repeats(x).contains(session) {
        assert(x.contains(session));
        assert(shown_ones.contains(session));
        let i = choose|i: int| 0 <= i < shown_ones.len() && shown_ones[i] == session;
        assert(m.pairs[i].1 == session);
    }
    if without_repeats(y).contains(session) {
        assert(y.contains(session));
    }
}

/// Whether a session of `s` is of the conversation `key`.
pub open spec fn holds_conversation(s: Seq<SessionModel>, key: KeyModel) -> bool {
    exists|k: int| 0 <= k < s.len() && (#[trigger] s[k]).key() == key
}

/// What stays without repeats are sessions of before, no two neighbours of one
/// conversation, and every conversation of before.
pub proof fn lemma_without_repeats(s: Seq<SessionModel>)
    ensures
        forall|x: SessionModel| #[trigger] without_repeats(s).contains(x) ==> s.contains(x),
        forall|i: int, j: int|
            0 <= i && j == i + 1 && j < without_repeats(s).len() ==> (
            #[trigger] without_repeats(s)[i]).key() != (#[trigger] without_repeats(s)[j]).key(),
        forall|i: int|
            0 <= i < s.len() ==> holds_conversation(without_repeats(s), (#[trigger] s[i]).key()),
        s.len() > 0 ==> without_repeats(s).len() > 0 && without_repeats(s).last().key()
            == s.last().key(),
    decreases s.len(),
{
    let r = without_repeats(s);
    if s.len() > 0 {
        let front = s.drop_last();
        lemma_without_repeats(front);
        let before = without_repeats(front);
        assert forall|x: SessionModel| #[trigger] r.contains(x) implies s.contains(x) by {
            let k = choose|k: int| 0 <= k < r.len() && r[k] == x;
            if k < before.len() {
                assert(before[k] == x);
                assert(before.contains(x));
                let q = choose|q: int| 0 <= q < front.len() && front[q] == x;
                assert(s[q] == x);
            } else {
                assert(s[s.len() - 1] == x);
            }
        }
        assert forall|i: int, j: int| 0 <= i && j == i + 1 && j < r.len() implies (
        #[trigger] r[i]).key() != (#[trigger] r[j]).key() by {
            if j < before.len() {
                assert(before[i].key() != before[j].key());
            }
        }
        assert forall|i: int| 0 <= i < s.len() implies holds_conversation(
            r,
            (#[trigger] s[i]).key(),
        ) by {
            if i < front.len() {
                assert(holds_conversation(before, front[i].key()));
                let k = choose|k: int|
                    0 <= k < before.len() && (#[trigger] before[k]).key() == front[i].key();
                assert(r[k].key() == s[i].key());
            } else {
                assert(r[r.len() - 1].key() == s[i].key());
            }
        }
    }
}

/// The sessions that are noted are those of Amp before those of Codex, and those of
/// one agent by the names of their terminals.
pub proof fn noted_sessions_are_in_order(
    rows: Seq<RowModel>,
    sessions: Seq<SessionModel>,
    history: Seq<SnapshotModel>,
    one_window: bool,
    available: Seq<bool>,
    i: int,
    j: int,
)
    requires
        0 <= i < j < prepared_of(rows, sessions, history, one_window, available).sessions.len(),
    ensures
        ({
            let noted = prepared_of(rows, sessions, history, one_window, available).sessions;
            &&& !(noted[j].agent == Agent::Amp && noted[i].agent == Agent::Codex)
            &&& noted[i].agent == noted[j].agent ==> !text_before(noted[j].tty, noted[i].tty)
        }),
{
    let m = matching(rows, sessions, history);
    let all = if one_window {
        m.pairs.map_values(|pair: (Seq<char>, SessionModel)| pair.1)
    } else {
        sessions
    };
    let before = by_agent_and_terminal();
    assert(orders(before)) by {
        assert forall|a: SessionModel, b: SessionModel, c: SessionModel|
            #![trigger before(a, b), before(b, c)]
            !before(a, b) && !before(b, c) implies !before(a, c) by {
            text_order_is_total(a.tty, b.tty);
            text_order_is_total(b.tty, c.tty);
            text_order_is_total(a.tty, c.tty);
            if text_before(c.tty, b.tty) && text_before(b.tty, a.tty) {
                text_order_is_transitive(c.tty, b.tty, a.tty);
            }
        }
        assert forall|a: SessionModel, b: SessionModel| #[trigger]
            before(a, b) implies !before(b, a) by {
            text_order_is_total(a.tty, b.tty);
        }
    }
    sorting_orders(all, before);
    let sorted = sorted_by(all, before);
    lemma_repeats_order(sorted);
    let noted = without_repeats(sorted);
    assert(!before(noted[j], noted[i]));
}

/// What is left without repeats stands in the same order.
proof fn lemma_repeats_order(s: Seq<SessionModel>)
    requires
        in_order(s, by_agent_and_terminal()),
    ensures
        in_order(without_repeats(s), by_agent_and_terminal()),
    decreases s.len(),
{
    let before = by_agent_and_terminal();
    if s.len() > 0 {
        let front = s.drop_last();
        assert(in_order(front, before)) by {
            assert forall|i: int, j: int| 0 <= i < j < front.len() implies !before(
                #[trigger] front[j],
                #[trigger] front[i],
            ) by {
                assert(front[j] == s[j] && front[i] == s[i]);
            }
        }
        lemma_repeats_order(front);
        lemma_without_repeats(front);
        let kept = without_repeats(front);
        let all = without_repeats(s);
        assert forall|i: int, j: int| 0 <= i < j < all.len() implies !before(
            #[trigger] all[j],
            #[trigger] all[i],
        ) by {
            if j < kept.len() {
                assert(all[j] == kept[j] && all[i] == kept[i]);
            } else {
                assert(all[i] == kept[i]);
                assert(kept.contains(kept[i]));
                assert(front.contains(kept[i]));
                let k = choose|k: int| 0 <= k < front.len() && front[k] == kept[i];
                assert(s[k] == kept[i]);
                assert(all[j] == s[s.len() - 1]);
            }
        }
    }
}

/// It is warned that the place of windows is not known exactly where the first row of
/// some window does not tell it; and that warning comes last.
pub proof fn missing_geometry_is_warned_of(
    rows: Seq<RowModel>,
    sessions: Seq<SessionModel>,
    history: Seq<SnapshotModel>,
    one_window: bool,
    available: Seq<bool>,
    i: int,
)
    requires
        0 <= i < rows.len(),
    ensures
        (rows[i].window_x is None || rows[i].window_y is None || rows[i].window_width is None
            || rows[i].window_height is None) && (forall|j: int|
            0 <= j < i ==> (#[trigger] rows[j]).window_index != rows[i].window_index)
            ==> prepared_of(rows, sessions, history, one_window, available).warnings.len() > 0
            && prepared_of(rows, sessions, history, one_window, available).warnings.last()
            == "window geometry unavailable; grant your shell Accessibility permission"@,
        (forall|k: int|
            0 <= k < rows.len() ==> (#[trigger] rows[k]).window_x is Some && rows[k].window_y is Some
                && rows[k].window_width is Some && rows[k].window_height is Some)
            ==> prepared_of(rows, sessions, history, one_window, available).warnings
            == warnings_for(
            rows,
            matching(rows, sessions, history),
            !one_window,
            matching(rows, sessions, history).left.len(),
        ),
{
    if (rows[i].window_x is None || rows[i].window_y is None || rows[i].window_width is None
        || rows[i].window_height is None) && (forall|j: int|
        0 <= j < i ==> (#[trigger] rows[j]).window_index != rows[i].window_index) {
        assert(begins_window(rows, i));
        assert(lacks_geometry(rows));
    }
    if forall|k: int|
        0 <= k < rows.len() ==> (#[trigger] rows[k]).window_x is Some && rows[k].window_y is Some
            && rows[k].window_width is Some && rows[k].window_height is Some {
        assert(!lacks_geometry(rows));
        assert(geometry_warning(rows) =~= Seq::empty());
        let told = warnings_for(
            rows,
            matching(rows, sessions, history),
            !one_window,
            matching(rows, sessions, history).left.len(),
        );
        assert(told + Seq::<Seq<char>>::empty() =~= told);
    }
}

} // verus!
