//! A snapshot made of captured rows: windows, tabs and terminals in the order of
//! their indices.
use vstd::prelude::*;
use vstd::string::*;

use crate::clock::now_text;
use crate::list::{
    at_places, by_key, flat, grouped, grouping_ignores_the_order, grouping_keeps_items, keyed,
    lemma_flat_items, lemma_flat_map, lemma_same_items, lemma_select, lemma_sorted_by_items,
    lemma_sorted_by_map, ordered_places, ordered_set, ordered_set_covers, ordered_set_is_ordered,
    select, select_places, sort_by, sorted_by, sorting_ignores_the_order, sorting_orders,
};
use crate::model::{
    Agent, AgentSession, CaptureRow, Position, RowModel, SNAPSHOT_VERSION, Scope, ScopeModel,
    SessionModel, Size, Snapshot, SnapshotModel, Tab, TabModel, Terminal, TerminalModel, Window,
    WindowModel, row_views, session_views, tab_views, terminal_views, window_terminals,
    window_views,
};
use crate::text::{copy_optional, texts};

verus! {

// ---------------------------------------------------------------------------
// What a snapshot is
// ---------------------------------------------------------------------------
/// The number of a row's window.
pub open spec fn window_key() -> spec_fn(RowModel) -> int {
    |r: RowModel| r.window_index as int
}

/// The number of a row's tab.
pub open spec fn tab_key() -> spec_fn(RowModel) -> int {
    |r: RowModel| r.tab_index as int
}

/// The number of a row's terminal.
pub open spec fn terminal_key() -> spec_fn(RowModel) -> int {
    |r: RowModel| r.terminal_index as int
}

/// The terminal that a row describes, with the conversation that it shows.
pub open spec fn terminal_of(row: RowModel) -> TerminalModel {
    TerminalModel {
        index: row.terminal_index,
        id: Some(row.terminal_id),
        name: row.terminal_name,
        focused: row.terminal_focused,
        working_directory: row.working_directory,
        scrollback_file: row.scrollback_file,
        codex_session_id: match row.agent_session {
            Some(session) if session.agent == Agent::Codex => Some(session.session_id),
            _ => None,
        },
        amp_thread_id: match row.agent_session {
            Some(session) if session.agent == Agent::Amp => Some(session.session_id),
            _ => None,
        },
    }
}

/// The tab that `rows` describe: its terminals by their numbers, and its own
/// properties from the first of them.
pub open spec fn tab_of(rows: Seq<RowModel>) -> TabModel {
    let ordered = sorted_by(rows, by_key(terminal_key()));
    TabModel {
        index: ordered[0].tab_index,
        id: Some(ordered[0].tab_id),
        name: ordered[0].tab_name,
        selected: ordered[0].tab_selected,
        terminals: ordered.map_values(|r: RowModel| terminal_of(r)),
    }
}

/// The rows of a window by their tabs.
pub open spec fn tab_groups(rows: Seq<RowModel>) -> Seq<Seq<RowModel>> {
    grouped(rows, tab_key(), ordered_set(rows, by_key(tab_key())))
}

/// The tabs that the rows of one window describe.
pub open spec fn tabs_of(rows: Seq<RowModel>) -> Seq<TabModel> {
    tab_groups(rows).map_values(|group: Seq<RowModel>| tab_of(group))
}

/// Where the window of a row stands, if both coordinates are known.
pub open spec fn position_of(row: RowModel) -> Option<Position> {
    match (row.window_x, row.window_y) {
        (Some(x), Some(y)) => Some(Position { x, y }),
        _ => None,
    }
}

/// How large the window of a row is, if both measures are known.
pub open spec fn size_of(row: RowModel) -> Option<Size> {
    match (row.window_width, row.window_height) {
        (Some(width), Some(height)) => Some(Size { width, height }),
        _ => None,
    }
}

/// The window that `rows` describe: its own properties are those of the row that
/// was captured first.
pub open spec fn window_of(rows: Seq<RowModel>) -> WindowModel {
    WindowModel {
        index: rows[0].window_index,
        id: Some(rows[0].window_id),
        name: rows[0].window_name,
        position: position_of(rows[0]),
        size: size_of(rows[0]),
        tabs: tabs_of(rows),
    }
}

/// The rows by their windows.
pub open spec fn window_groups(rows: Seq<RowModel>) -> Seq<Seq<RowModel>> {
    grouped(rows, window_key(), ordered_set(rows, by_key(window_key())))
}

/// The windows that `rows` describe.
pub open spec fn windows_of(rows: Seq<RowModel>) -> Seq<WindowModel> {
    window_groups(rows).map_values(|group: Seq<RowModel>| window_of(group))
}

/// How many tabs the windows have together.
pub open spec fn count_tabs(windows: Seq<WindowModel>) -> nat
    decreases windows.len(),
{
    if windows.len() == 0 {
        0
    } else {
        count_tabs(windows.drop_last()) + windows.last().tabs.len()
    }
}

/// Accepts the sessions of `agent`.
pub open spec fn of_agent(agent: Agent) -> spec_fn(SessionModel) -> bool {
    |s: SessionModel| s.agent == agent
}

/// What a restored workspace lacks.
pub open spec fn limitations_of(capture_scrollback: bool) -> Seq<Seq<char>> {
    seq![
        "Ghostty does not expose split geometry; terminal counts restore as right-hand splits."@,
        if capture_scrollback {
            "Scrollback restores as plain text output, without original styling or interactive state."@
        } else {
            "Scrollback was intentionally skipped for this fast snapshot."@
        },
        "Only Codex conversations and Amp threads are resumed; arbitrary child processes are not reconstructible."@,
    ]
}

/// What a snapshot is made of.
pub struct SnapshotInput<'a> {
    pub name: &'a str,
    pub id: &'a str,
    pub timestamp: &'a str,
    pub rows: &'a [CaptureRow],
    pub process_sessions: &'a [AgentSession],
    pub warnings: Vec<String>,
    pub capture_scrollback: bool,
    pub target_window_id: Option<&'a str>,
    pub ghostty_version: String,
}

/// The view of a `SnapshotInput`.
pub struct InputModel {
    pub name: Seq<char>,
    pub id: Seq<char>,
    pub timestamp: Seq<char>,
    pub rows: Seq<RowModel>,
    pub process_sessions: Seq<SessionModel>,
    pub warnings: Seq<Seq<char>>,
    pub capture_scrollback: bool,
    pub target_window_id: Option<Seq<char>>,
    pub ghostty_version: Seq<char>,
}

impl<'a> View for SnapshotInput<'a> {
    type V = InputModel;

    open spec fn view(&self) -> InputModel {
        InputModel {
            name: self.name@,
            id: self.id@,
            timestamp: self.timestamp@,
            rows: row_views(self.rows@),
            process_sessions: session_views(self.process_sessions@),
            warnings: texts(self.warnings@),
            capture_scrollback: self.capture_scrollback,
            target_window_id: match self.target_window_id {
                Some(id) => Some(id@),
                None => None,
            },
            ghostty_version: self.ghostty_version@,
        }
    }
}

/// The snapshot of `input`, saved at `saved_at`.
pub open spec fn snapshot_of(input: InputModel, saved_at: Seq<char>) -> SnapshotModel {
    SnapshotModel {
        version: SNAPSHOT_VERSION,
        name: input.name,
        id: input.id,
        saved_at,
        timestamp: input.timestamp,
        ghostty_version: input.ghostty_version,
        tabs_count: count_tabs(windows_of(input.rows)) as usize,
        terminals_count: input.rows.len() as usize,
        scrollback_captured: input.capture_scrollback,
        scope: match input.target_window_id {
            Some(window_id) => ScopeModel::Window { window_id },
            None => ScopeModel::AllWindows,
        },
        windows: windows_of(input.rows),
        detected_codex_sessions: select(input.process_sessions, of_agent(Agent::Codex)),
        detected_amp_threads: select(input.process_sessions, of_agent(Agent::Amp)),
        warnings: input.warnings,
        limitations: limitations_of(input.capture_scrollback),
    }
}

// ---------------------------------------------------------------------------
// What holds of every snapshot
// ---------------------------------------------------------------------------
/// The rows in the order in which a snapshot holds their terminals.
pub open spec fn snapshot_order(rows: Seq<RowModel>) -> Seq<RowModel> {
    flat(window_groups(rows).map_values(|group: Seq<RowModel>| window_order(group)))
}

/// The rows of one window in the order in which a snapshot holds their terminals.
pub open spec fn window_order(rows: Seq<RowModel>) -> Seq<RowModel> {
    flat(
        tab_groups(rows).map_values(
            |group: Seq<RowModel>| sorted_by(group, by_key(terminal_key())),
        ),
    )
}

proof fn lemma_window_order(rows: Seq<RowModel>)
    ensures
        window_order(rows).to_multiset() == rows.to_multiset(),
        window_terminals(tabs_of(rows)) == window_order(rows).map_values(
            |r: RowModel| terminal_of(r),
        ),
{
    let f = |r: RowModel| terminal_of(r);
    let groups = tab_groups(rows);
    let sorted = groups.map_values(
        |group: Seq<RowModel>| sorted_by(group, by_key(terminal_key())),
    );
    grouping_keeps_items(rows, tab_key());
    assert forall|i: int| 0 <= i < sorted.len() implies (#[trigger] sorted[i]).to_multiset()
        == groups[i].to_multiset() by {
        lemma_sorted_by_items(groups[i], by_key(terminal_key()));
    }
    lemma_flat_items(sorted, groups);
    lemma_flat_map(sorted, f);
    assert(tabs_of(rows).map_values(|t: TabModel| t.terminals) =~= sorted.map_values(
        |p: Seq<RowModel>| p.map_values(f),
    ));
}

/// The terminals of a snapshot are the captured ones, each exactly once: none is
/// lost and none is made up.
pub proof fn snapshot_holds_every_terminal(input: InputModel, saved_at: Seq<char>)
    ensures
        snapshot_order(input.rows).to_multiset() == input.rows.to_multiset(),
        snapshot_of(input, saved_at).terminals() == snapshot_order(input.rows).map_values(
            |r: RowModel| terminal_of(r),
        ),
        snapshot_of(input, saved_at).terminals().len() == input.rows.len(),
{
    let rows = input.rows;
    let f = |r: RowModel| terminal_of(r);
    let groups = window_groups(rows);
    let ordered = groups.map_values(|group: Seq<RowModel>| window_order(group));
    grouping_keeps_items(rows, window_key());
    assert forall|i: int| 0 <= i < ordered.len() implies (#[trigger] ordered[i]).to_multiset()
        == groups[i].to_multiset() by {
        lemma_window_order(groups[i]);
    }
    lemma_flat_items(ordered, groups);
    lemma_flat_map(ordered, f);
    let windows = windows_of(rows);
    assert forall|i: int| 0 <= i < groups.len() implies window_terminals(
        (#[trigger] windows[i]).tabs,
    ) == ordered[i].map_values(f) by {
        lemma_window_order(groups[i]);
    }
    assert(windows.map_values(|w: WindowModel| window_terminals(w.tabs)) =~= ordered.map_values(
        |p: Seq<RowModel>| p.map_values(f),
    ));
    assert(snapshot_order(rows).len() == rows.len()) by {
        broadcast use vstd::seq_lib::group_to_multiset_ensures;

        assert(snapshot_order(rows).to_multiset().len() == rows.to_multiset().len());
    }
}

/// The groups of `rows` by `key` hold something, are told apart by it and stand in
/// its order.
proof fn lemma_groups(rows: Seq<RowModel>, key: spec_fn(RowModel) -> int)
    ensures
        ({
            let groups = grouped(rows, key, ordered_set(rows, by_key(key)));
            &&& forall|i: int| 0 <= i < groups.len() ==> (#[trigger] groups[i]).len() > 0
            &&& forall|i: int, k: int|
                0 <= i < groups.len() && 0 <= k < groups[i].len() ==> key(
                    #[trigger] groups[i][k],
                ) == key(groups[i][0]) && rows.contains(groups[i][k])
            &&& forall|i: int, j: int|
                0 <= i < j < groups.len() ==> key((#[trigger] groups[i])[0]) < key(
                    (#[trigger] groups[j])[0],
                )
        }),
{
    let kinds = ordered_set(rows, by_key(key));
    let groups = grouped(rows, key, kinds);
    ordered_set_is_ordered(rows, by_key(key));
    assert forall|i: int| 0 <= i < groups.len() implies (#[trigger] groups[i]).len() > 0 && key(
        groups[i][0],
    ) == key(kinds[i]) by {
        lemma_select(rows, keyed(key, kinds[i]));
        assert(rows.contains(kinds[i]));
        let q = choose|q: int| 0 <= q < rows.len() && rows[q] == kinds[i];
        assert(keyed(key, kinds[i])(rows[q]));
        assert(groups[i].contains(rows[q]));
        assert(keyed(key, kinds[i])(groups[i][0]));
    }
    assert forall|i: int, k: int| 0 <= i < groups.len() && 0 <= k < groups[i].len() implies key(
        #[trigger] groups[i][k],
    ) == key(groups[i][0]) && rows.contains(groups[i][k]) by {
        lemma_select(rows, keyed(key, kinds[i]));
        assert(keyed(key, kinds[i])(groups[i][k]));
        assert(keyed(key, kinds[i])(groups[i][0]));
    }
    assert forall|i: int, j: int| 0 <= i < j < groups.len() implies key(
        (#[trigger] groups[i])[0],
    ) < key((#[trigger] groups[j])[0]) by {
        assert(by_key(key)(kinds[i], kinds[j]));
    }
}

/// A snapshot holds each window once, in the order of their numbers, each window
/// with at least one tab; and each tab of a window once, in the order of their
/// numbers, each tab with at least one terminal.
pub proof fn snapshot_is_in_order(rows: Seq<RowModel>)
    ensures
        forall|i: int, j: int|
            0 <= i < j < windows_of(rows).len() ==> (#[trigger] windows_of(rows)[i]).index < (
            #[trigger] windows_of(rows)[j]).index,
        forall|i: int|
            0 <= i < windows_of(rows).len() ==> (#[trigger] windows_of(rows)[i]).tabs.len() > 0,
        forall|i: int, a: int, b: int|
            0 <= i < windows_of(rows).len() && 0 <= a < b < windows_of(rows)[i].tabs.len() ==> (
            #[trigger] windows_of(rows)[i].tabs[a]).index < (
            #[trigger] windows_of(rows)[i].tabs[b]).index,
        forall|i: int, a: int|
            0 <= i < windows_of(rows).len() && 0 <= a < windows_of(rows)[i].tabs.len() ==> (
            #[trigger] windows_of(rows)[i].tabs[a]).terminals.len() > 0,
{
    let windows = windows_of(rows);
    let groups = window_groups(rows);
    lemma_groups(rows, window_key());
    assert forall|i: int, j: int| 0 <= i < j < windows.len() implies (#[trigger] windows[i]).index
        < (#[trigger] windows[j]).index by {
        assert(window_key()(groups[i][0]) < window_key()(groups[j][0]));
    }
    assert forall|i: int| 0 <= i < windows.len() implies (#[trigger] windows[i]).tabs.len() > 0 by {
        lemma_tabs_of(groups[i]);
    }
    assert forall|i: int, a: int, b: int|
        0 <= i < windows.len() && 0 <= a < b < windows[i].tabs.len() implies (
    #[trigger] windows[i].tabs[a]).index < (#[trigger] windows[i].tabs[b]).index by {
        lemma_tabs_of(groups[i]);
        assert(windows[i].tabs == tabs_of(groups[i]));
    }
    assert forall|i: int, a: int| 0 <= i < windows.len() && 0 <= a < windows[i].tabs.len() implies (
    #[trigger] windows[i].tabs[a]).terminals.len() > 0 by {
        lemma_tabs_of(groups[i]);
        assert(windows[i].tabs == tabs_of(groups[i]));
    }
}

proof fn lemma_tabs_of(rows: Seq<RowModel>)
    requires
        rows.len() > 0,
    ensures
        tabs_of(rows).len() > 0,
        forall|a: int, b: int|
            0 <= a < b < tabs_of(rows).len() ==> (#[trigger] tabs_of(rows)[a]).index < (
            #[trigger] tabs_of(rows)[b]).index,
        forall|a: int|
            0 <= a < tabs_of(rows).len() ==> (#[trigger] tabs_of(rows)[a]).terminals.len() > 0,
{
    let tabs = tabs_of(rows);
    let groups = tab_groups(rows);
    lemma_groups(rows, tab_key());
    ordered_set_covers(rows, by_key(tab_key()), 0);
    assert forall|a: int| 0 <= a < groups.len() implies ({
        let ordered = sorted_by(#[trigger] groups[a], by_key(terminal_key()));
        ordered.len() == groups[a].len() && ordered[0].tab_index == groups[a][0].tab_index
    }) by {
        let ordered = sorted_by(groups[a], by_key(terminal_key()));
        lemma_sorted_by_items(groups[a], by_key(terminal_key()));
        assert(ordered.contains(ordered[0]));
        assert(groups[a].contains(ordered[0]));
        let q = choose|q: int| 0 <= q < groups[a].len() && groups[a][q] == ordered[0];
        assert(tab_key()(groups[a][q]) == tab_key()(groups[a][0]));
    }
    assert forall|a: int, b: int| 0 <= a < b < tabs.len() implies (#[trigger] tabs[a]).index < (
    #[trigger] tabs[b]).index by {
        assert(tab_key()(groups[a][0]) < tab_key()(groups[b][0]));
    }
}

/// The terminals of a tab stand in the order of their numbers.
pub proof fn terminals_are_in_order(rows: Seq<RowModel>)
    ensures
        forall|a: int, b: int|
            0 <= a < b < tab_of(rows).terminals.len() ==> (
            #[trigger] tab_of(rows).terminals[a]).index <= (
            #[trigger] tab_of(rows).terminals[b]).index,
{
    let ordered = sorted_by(rows, by_key(terminal_key()));
    sorting_orders(rows, by_key(terminal_key()));
    assert forall|a: int, b: int| 0 <= a < b < tab_of(rows).terminals.len() implies (
    #[trigger] tab_of(rows).terminals[a]).index <= (#[trigger] tab_of(rows).terminals[b]).index by {
        assert(!by_key(terminal_key())(ordered[b], ordered[a]));
    }
}

/// A snapshot has no more tabs than terminals.
pub proof fn tabs_are_few(rows: Seq<RowModel>)
    ensures
        count_tabs(windows_of(rows)) <= rows.len(),
{
    let groups = window_groups(rows);
    lemma_count_tabs(rows, groups.len());
    assert(windows_of(rows).take(groups.len() as int) == windows_of(rows));
    assert(groups.take(groups.len() as int) == groups);
    grouping_keeps_items(rows, window_key());
    broadcast use vstd::seq_lib::group_to_multiset_ensures;

    assert(flat(groups).to_multiset().len() == rows.to_multiset().len());
}

/// The first windows have no more tabs than their rows.
proof fn lemma_count_tabs(rows: Seq<RowModel>, n: nat)
    requires
        n <= window_groups(rows).len(),
    ensures
        count_tabs(windows_of(rows).take(n as int)) <= flat(
            window_groups(rows).take(n as int),
        ).len(),
    decreases n,
{
    let windows = windows_of(rows);
    let groups = window_groups(rows);
    if n > 0 {
        lemma_count_tabs(rows, (n - 1) as nat);
        assert(windows.take(n as int).drop_last() == windows.take(n - 1));
        assert(groups.take(n as int).drop_last() == groups.take(n - 1));
        lemma_tabs_below_rows(groups[n - 1], tab_groups(groups[n - 1]).len());
        let inner = tab_groups(groups[n - 1]);
        assert(inner.take(inner.len() as int) == inner);
        grouping_keeps_items(groups[n - 1], tab_key());
        broadcast use vstd::seq_lib::group_to_multiset_ensures;

        assert(flat(inner).to_multiset().len() == groups[n - 1].to_multiset().len());
    }
}

/// The first groups are no more than their rows.
proof fn lemma_tabs_below_rows(rows: Seq<RowModel>, n: nat)
    requires
        n <= tab_groups(rows).len(),
    ensures
        n <= flat(tab_groups(rows).take(n as int)).len(),
    decreases n,
{
    let groups = tab_groups(rows);
    if n > 0 {
        lemma_tabs_below_rows(rows, (n - 1) as nat);
        lemma_groups(rows, tab_key());
        assert(groups.take(n as int).drop_last() == groups.take(n - 1));
        assert(groups[n - 1].len() > 0);
    }
}

/// The first windows have no more tabs than all of them.
proof fn lemma_count_tabs_prefix(windows: Seq<WindowModel>, n: int)
    requires
        0 <= n <= windows.len(),
    ensures
        count_tabs(windows.take(n)) <= count_tabs(windows),
    decreases windows.len() - n,
{
    if n < windows.len() {
        assert(windows.take(n + 1).drop_last() == windows.take(n));
        lemma_count_tabs_prefix(windows, n + 1);
    } else {
        assert(windows.take(n) == windows);
    }
}

/// Where a row stands: the numbers of its window, its tab and its terminal.
pub open spec fn place_of(row: RowModel) -> (usize, usize, usize) {
    (row.window_index, row.tab_index, row.terminal_index)
}

/// Whether no two rows stand at the same place.
pub open spec fn distinct_places(rows: Seq<RowModel>) -> bool {
    forall|i: int, j: int|
        0 <= i < j < rows.len() ==> place_of(#[trigger] rows[i]) != place_of(#[trigger] rows[j])
}

/// Whether two rows tell the same of their windows.
pub open spec fn same_window(a: RowModel, b: RowModel) -> bool {
    &&& a.window_id == b.window_id
    &&& a.window_name == b.window_name
    &&& a.window_x == b.window_x
    &&& a.window_y == b.window_y
    &&& a.window_width == b.window_width
    &&& a.window_height == b.window_height
}

/// Whether all rows of a window tell the same of it.
pub open spec fn windows_agree(rows: Seq<RowModel>) -> bool {
    forall|i: int, j: int|
        0 <= i < rows.len() && 0 <= j < rows.len() && (#[trigger] rows[i]).window_index == (
        #[trigger] rows[j]).window_index ==> same_window(rows[i], rows[j])
}

/// What is selected from rows at different places stands at different places.
proof fn lemma_select_places_differ(rows: Seq<RowModel>, keep: spec_fn(RowModel) -> bool)
    requires
        distinct_places(rows),
    ensures
        distinct_places(select(rows, keep)),
    decreases rows.len(),
{
    if rows.len() > 0 {
        let front = rows.drop_last();
        assert forall|i: int, j: int| 0 <= i < j < front.len() implies place_of(#[trigger] front[i])
            != place_of(#[trigger] front[j]) by {
            assert(place_of(rows[i]) != place_of(rows[j]));
        }
        lemma_select_places_differ(front, keep);
        lemma_select(front, keep);
        let rest = select(front, keep);
        let r = select(rows, keep);
        assert forall|i: int, j: int| 0 <= i < j < r.len() implies place_of(#[trigger] r[i])
            != place_of(#[trigger] r[j]) by {
            if j < rest.len() {
                assert(place_of(rest[i]) != place_of(rest[j]));
            } else {
                assert(front.contains(rest[i]));
                let q = choose|q: int| 0 <= q < front.len() && front[q] == rest[i];
                assert(place_of(rows[q]) != place_of(rows[rows.len() - 1]));
            }
        }
    }
}

/// The order of the rows of one tab does not change the tab.
proof fn lemma_tab_ignores_order(a: Seq<RowModel>, b: Seq<RowModel>)
    requires
        a.to_multiset() == b.to_multiset(),
        distinct_places(a),
        forall|i: int, j: int|
            0 <= i < a.len() && 0 <= j < a.len() ==> (#[trigger] a[i]).window_index == (
            #[trigger] a[j]).window_index && a[i].tab_index == a[j].tab_index,
    ensures
        tab_of(a) == tab_of(b),
{
    assert forall|i: int, j: int| 0 <= i < j < a.len() implies terminal_key()(#[trigger] a[i])
        != terminal_key()(#[trigger] a[j]) by {
        assert(place_of(a[i]) != place_of(a[j]));
        assert(a[i].window_index == a[j].window_index);
    }
    sorting_ignores_the_order(a, b, terminal_key());
}

/// The order of the rows of one window does not change its tabs.
proof fn lemma_tabs_ignore_order(a: Seq<RowModel>, b: Seq<RowModel>)
    requires
        a.to_multiset() == b.to_multiset(),
        distinct_places(a),
        forall|i: int, j: int|
            0 <= i < a.len() && 0 <= j < a.len() ==> (#[trigger] a[i]).window_index == (
            #[trigger] a[j]).window_index,
    ensures
        tabs_of(a) == tabs_of(b),
{
    let x = tab_groups(a);
    let y = tab_groups(b);
    let kinds = ordered_set(a, by_key(tab_key()));
    grouping_ignores_the_order(a, b, tab_key());
    lemma_groups(a, tab_key());
    assert forall|k: int| 0 <= k < x.len() implies tab_of(#[trigger] x[k]) == tab_of(y[k]) by {
        lemma_select_places_differ(a, keyed(tab_key(), kinds[k]));
        assert forall|i: int, j: int| 0 <= i < x[k].len() && 0 <= j < x[k].len() implies (
        #[trigger] x[k][i]).window_index == (#[trigger] x[k][j]).window_index && x[k][i].tab_index
            == x[k][j].tab_index by {
            assert(tab_key()(x[k][i]) == tab_key()(x[k][0]));
            assert(tab_key()(x[k][j]) == tab_key()(x[k][0]));
            assert(a.contains(x[k][i]) && a.contains(x[k][j]));
            let p = choose|p: int| 0 <= p < a.len() && a[p] == x[k][i];
            let q = choose|q: int| 0 <= q < a.len() && a[q] == x[k][j];
            assert(a[p].window_index == a[q].window_index);
        }
        assert(x[k].to_multiset() == y[k].to_multiset());
        lemma_tab_ignores_order(x[k], y[k]);
    }
    assert(tabs_of(a) =~= tabs_of(b));
}

/// The order in which terminals were captured does not change the windows of a
/// snapshot, where no two stand at the same place and the rows of each window tell
/// the same of it.
pub proof fn windows_ignore_the_order(a: Seq<RowModel>, b: Seq<RowModel>)
    requires
        a.to_multiset() == b.to_multiset(),
        distinct_places(a),
        windows_agree(a),
    ensures
        windows_of(a) == windows_of(b),
{
    let x = window_groups(a);
    let y = window_groups(b);
    let kinds = ordered_set(a, by_key(window_key()));
    grouping_ignores_the_order(a, b, window_key());
    lemma_groups(a, window_key());
    lemma_groups(b, window_key());
    assert forall|k: int| 0 <= k < x.len() implies window_of(#[trigger] x[k]) == window_of(
        y[k],
    ) by {
        lemma_select_places_differ(a, keyed(window_key(), kinds[k]));
        assert forall|i: int, j: int| 0 <= i < x[k].len() && 0 <= j < x[k].len() implies (
        #[trigger] x[k][i]).window_index == (#[trigger] x[k][j]).window_index by {
            assert(window_key()(x[k][i]) == window_key()(x[k][0]));
            assert(window_key()(x[k][j]) == window_key()(x[k][0]));
        }
        assert(x[k].to_multiset() == y[k].to_multiset());
        lemma_tabs_ignore_order(x[k], y[k]);
        lemma_same_items(x[k], y[k]);
        assert(x[k].len() > 0 && y[k].len() > 0);
        assert(y[k].contains(y[k][0]));
        assert(x[k].contains(y[k][0]));
        let n = choose|n: int| 0 <= n < x[k].len() && x[k][n] == y[k][0];
        assert(x[k][n].window_index == x[k][0].window_index);
        assert(a.contains(x[k][n]) && a.contains(x[k][0]));
        let p = choose|p: int| 0 <= p < a.len() && a[p] == x[k][n];
        let q = choose|q: int| 0 <= q < a.len() && a[q] == x[k][0];
        assert(same_window(a[p], a[q]));
    }
    assert(windows_of(a) =~= windows_of(b));
}

/// The order in which terminals were captured does not change the snapshot, where no
/// two stand at the same place and the rows of each window tell the same of it.
pub proof fn snapshot_ignores_the_order(a: InputModel, b: InputModel, saved_at: Seq<char>)
    requires
        b == (InputModel { rows: b.rows, ..a }),
        a.rows.to_multiset() == b.rows.to_multiset(),
        distinct_places(a.rows),
        windows_agree(a.rows),
    ensures
        snapshot_of(a, saved_at) == snapshot_of(b, saved_at),
{
    windows_ignore_the_order(a.rows, b.rows);
    lemma_same_items(a.rows, b.rows);
}

// ---------------------------------------------------------------------------
// Building one
// ---------------------------------------------------------------------------
/// The terminal that a row describes.
fn build_terminal(row: &CaptureRow) -> (r: Terminal)
    ensures
        r@ == terminal_of(row@),
{
    let mut codex_session_id: Option<String> = None;
    let mut amp_thread_id: Option<String> = None;
    if let Some(session) = &row.agent_session {
        match session.agent {
            Agent::Amp => {
                amp_thread_id = Some(session.session_id.clone());
            },
            Agent::Codex => {
                codex_session_id = Some(session.session_id.clone());
            },
        }
    }
    Terminal {
        index: row.terminal_index,
        id: Some(row.terminal_id.clone()),
        name: row.terminal_name.clone(),
        focused: row.terminal_focused,
        working_directory: row.working_directory.clone(),
        scrollback_file: copy_optional(&row.scrollback_file),
        codex_session_id,
        amp_thread_id,
    }
}

/// Copies of the rows at `places`.
fn pick_rows(rows: &[CaptureRow], places: &Vec<usize>, Ghost(wanted): Ghost<Seq<RowModel>>) -> (r:
    Vec<CaptureRow>)
    requires
        places@.len() == wanted.len(),
        forall|k: int|
            0 <= k < places@.len() ==> #[trigger] places@[k] < rows@.len()
                && rows@[places@[k] as int]@ == wanted[k],
    ensures
        row_views(r@) == wanted,
{
    let mut r: Vec<CaptureRow> = Vec::new();
    let mut i: usize = 0;
    while i < places.len()
        invariant
            places@.len() == wanted.len(),
            forall|k: int|
                0 <= k < places@.len() ==> #[trigger] places@[k] < rows@.len()
                    && rows@[places@[k] as int]@ == wanted[k],
            i <= places@.len(),
            row_views(r@) == wanted.take(i as int),
        decreases places@.len() - i,
    {
        let place: usize = places[i];
        let ghost before = r@;
        r.push(rows[place].clone());
        assert(row_views(r@) =~= row_views(before).push(wanted[i as int]));
        assert(wanted.take(i + 1) =~= wanted.take(i as int).push(wanted[i as int]));
        i = i + 1;
    }
    assert(wanted.take(wanted.len() as int) == wanted);
    r
}

/// The tab that `rows` describe.
fn build_tab(rows: Vec<CaptureRow>) -> (r: Tab)
    requires
        rows@.len() > 0,
    ensures
        r@ == tab_of(row_views(rows@)),
{
    let ghost model = row_views(rows@);
    let ghost fine = |a: CaptureRow, b: CaptureRow| a.terminal_index < b.terminal_index;
    let ghost f = |r: CaptureRow| r@;
    let is_before = |a: &CaptureRow, b: &CaptureRow| -> (r: bool)
        ensures
            r == (a.terminal_index < b.terminal_index),
    { a.terminal_index < b.terminal_index };
    let ordered = sort_by(rows, is_before, Ghost(fine));
    proof {
        lemma_sorted_by_map(rows@, f, fine, by_key(terminal_key()));
        lemma_sorted_by_items(rows@, fine);
    }
    let ghost sorted = row_views(ordered@);
    assert(sorted == sorted_by(model, by_key(terminal_key())));
    let mut terminals: Vec<Terminal> = Vec::new();
    let mut i: usize = 0;
    while i < ordered.len()
        invariant
            sorted == row_views(ordered@),
            i <= ordered@.len(),
            terminal_views(terminals@) == sorted.take(i as int).map_values(
                |r: RowModel| terminal_of(r),
            ),
        decreases ordered@.len() - i,
    {
        let ghost before = terminals@;
        terminals.push(build_terminal(&ordered[i]));
        assert(terminal_views(terminals@) =~= terminal_views(before).push(
            terminal_of(sorted[i as int]),
        ));
        assert(sorted.take(i + 1).map_values(|r: RowModel| terminal_of(r)) =~= sorted.take(
            i as int,
        ).map_values(|r: RowModel| terminal_of(r)).push(terminal_of(sorted[i as int])));
        i = i + 1;
    }
    assert(sorted.take(ordered@.len() as int) == sorted);
    assert(sorted[0] == ordered@[0]@);
    let first = &ordered[0];
    Tab {
        index: first.tab_index,
        id: Some(first.tab_id.clone()),
        name: first.tab_name.clone(),
        selected: first.tab_selected,
        terminals,
    }
}

/// The tabs that the rows of one window describe.
fn build_tabs(rows: &Vec<CaptureRow>) -> (r: Vec<Tab>)
    ensures
        tab_views(r@) == tabs_of(row_views(rows@)),
{
    let ghost model = row_views(rows@);
    let ghost before = by_key(tab_key());
    let is_before = |a: usize, b: usize| -> (r: bool)
        requires
            a < rows@.len() && b < rows@.len(),
        ensures
            r == (rows@[a as int].tab_index < rows@[b as int].tab_index),
    { rows[a].tab_index < rows[b].tab_index };
    let kinds = ordered_places::<RowModel, _>(rows.len(), is_before, Ghost(model), Ghost(before));
    let ghost first = ordered_set(model, before);
    let mut r: Vec<Tab> = Vec::new();
    let mut i: usize = 0;
    while i < kinds.len()
        invariant
            model == row_views(rows@),
            first == ordered_set(model, by_key(tab_key())),
            forall|k: int| 0 <= k < kinds@.len() ==> #[trigger] kinds@[k] < rows@.len(),
            at_places(model, kinds@) == first,
            i <= kinds@.len(),
            tab_views(r@) == tabs_of(model).take(i as int),
        decreases kinds@.len() - i,
    {
        let place: usize = kinds[i];
        let index: usize = rows[place].tab_index;
        assert(first[i as int] == model[place as int]);
        let accepts = |k: usize| -> (b: bool)
            requires
                k < rows@.len(),
            ensures
                b == (rows@[k as int].tab_index == index),
        { rows[k].tab_index == index };
        let ghost keep = keyed(tab_key(), model[place as int]);
        let places = select_places::<RowModel, _>(rows.len(), accepts, Ghost(model), Ghost(keep));
        let members = pick_rows(rows.as_slice(), &places, Ghost(select(model, keep)));
        proof {
            lemma_groups(model, tab_key());
            assert(tab_groups(model)[i as int] == select(model, keep));
        }
        let ghost earlier = r@;
        r.push(build_tab(members));
        assert(tab_views(r@) =~= tab_views(earlier).push(tabs_of(model)[i as int]));
        assert(tabs_of(model).take(i + 1) =~= tabs_of(model).take(i as int).push(
            tabs_of(model)[i as int],
        ));
        i = i + 1;
    }
    assert(tabs_of(model).take(kinds@.len() as int) == tabs_of(model));
    r
}

/// The window that `rows` describe.
fn build_window(rows: Vec<CaptureRow>) -> (r: Window)
    requires
        rows@.len() > 0,
    ensures
        r@ == window_of(row_views(rows@)),
{
    let tabs = build_tabs(&rows);
    let first = &rows[0];
    assert(row_views(rows@)[0] == first@);
    let position = match (first.window_x, first.window_y) {
        (Some(x), Some(y)) => Some(Position { x, y }),
        _ => None,
    };
    let size = match (first.window_width, first.window_height) {
        (Some(width), Some(height)) => Some(Size { width, height }),
        _ => None,
    };
    Window {
        index: first.window_index,
        id: Some(first.window_id.clone()),
        name: first.window_name.clone(),
        position,
        size,
        tabs,
    }
}

/// The windows that `rows` describe.
pub fn build_windows(rows: &[CaptureRow]) -> (r: Vec<Window>)
    ensures
        window_views(r@) == windows_of(row_views(rows@)),
{
    let ghost model = row_views(rows@);
    let ghost before = by_key(window_key());
    let is_before = |a: usize, b: usize| -> (r: bool)
        requires
            a < rows@.len() && b < rows@.len(),
        ensures
            r == (rows@[a as int].window_index < rows@[b as int].window_index),
    { rows[a].window_index < rows[b].window_index };
    let kinds = ordered_places::<RowModel, _>(rows.len(), is_before, Ghost(model), Ghost(before));
    let ghost first = ordered_set(model, before);
    let mut r: Vec<Window> = Vec::new();
    let mut i: usize = 0;
    while i < kinds.len()
        invariant
            model == row_views(rows@),
            first == ordered_set(model, by_key(window_key())),
            forall|k: int| 0 <= k < kinds@.len() ==> #[trigger] kinds@[k] < rows@.len(),
            at_places(model, kinds@) == first,
            i <= kinds@.len(),
            window_views(r@) == windows_of(model).take(i as int),
        decreases kinds@.len() - i,
    {
        let place: usize = kinds[i];
        let index: usize = rows[place].window_index;
        assert(first[i as int] == model[place as int]);
        let accepts = |k: usize| -> (b: bool)
            requires
                k < rows@.len(),
            ensures
                b == (rows@[k as int].window_index == index),
        { rows[k].window_index == index };
        let ghost keep = keyed(window_key(), model[place as int]);
        let places = select_places::<RowModel, _>(rows.len(), accepts, Ghost(model), Ghost(keep));
        let members = pick_rows(rows, &places, Ghost(select(model, keep)));
        proof {
            lemma_groups(model, window_key());
            assert(window_groups(model)[i as int] == select(model, keep));
        }
        let ghost earlier = r@;
        r.push(build_window(members));
        assert(window_views(r@) =~= window_views(earlier).push(windows_of(model)[i as int]));
        assert(windows_of(model).take(i + 1) =~= windows_of(model).take(i as int).push(
            windows_of(model)[i as int],
        ));
        i = i + 1;
    }
    assert(windows_of(model).take(kinds@.len() as int) == windows_of(model));
    r
}

/// How many tabs the windows have together.
fn total_tabs(windows: &Vec<Window>) -> (r: usize)
    requires
        count_tabs(window_views(windows@)) <= usize::MAX,
    ensures
        r == count_tabs(window_views(windows@)),
{
    let ghost model = window_views(windows@);
    let mut r: usize = 0;
    let mut i: usize = 0;
    while i < windows.len()
        invariant
            model == window_views(windows@),
            count_tabs(model) <= usize::MAX,
            i <= windows@.len(),
            r == count_tabs(model.take(i as int)),
        decreases windows@.len() - i,
    {
        proof {
            assert(model.take(i + 1).drop_last() == model.take(i as int));
            assert(model.take(i + 1).last() == windows@[i as int]@);
            lemma_count_tabs_prefix(model, i + 1);
        }
        r = r + windows[i].tabs.len();
        i = i + 1;
    }
    assert(model.take(windows@.len() as int) == model);
    r
}

/// The sessions of `agent`, in order.
fn sessions_of_agent(sessions: &[AgentSession], agent: Agent) -> (r: Vec<AgentSession>)
    ensures
        session_views(r@) == select(session_views(sessions@), of_agent(agent)),
{
    let ghost model = session_views(sessions@);
    let mut r: Vec<AgentSession> = Vec::new();
    let mut i: usize = 0;
    assert(session_views(r@) =~= select(model.take(0), of_agent(agent)));
    while i < sessions.len()
        invariant
            model == session_views(sessions@),
            i <= sessions@.len(),
            session_views(r@) == select(model.take(i as int), of_agent(agent)),
        decreases sessions@.len() - i,
    {
        proof {
            assert(model.take(i + 1).drop_last() == model.take(i as int));
            assert(model.take(i + 1).last() == sessions@[i as int]@);
        }
        if sessions[i].agent == agent {
            let ghost before = r@;
            r.push(sessions[i].clone());
            assert(session_views(r@) =~= session_views(before).push(sessions@[i as int]@));
        }
        i = i + 1;
    }
    assert(model.take(sessions@.len() as int) == model);
    r
}

/// What a restored workspace lacks.
fn limitations(capture_scrollback: bool) -> (r: Vec<String>)
    ensures
        texts(r@) == limitations_of(capture_scrollback),
{
    let r = vec![
        "Ghostty does not expose split geometry; terminal counts restore as right-hand splits.".to_owned(),
        if capture_scrollback {
            "Scrollback restores as plain text output, without original styling or interactive state.".to_owned()
        } else {
            "Scrollback was intentionally skipped for this fast snapshot.".to_owned()
        },
        "Only Codex conversations and Amp threads are resumed; arbitrary child processes are not reconstructible.".to_owned(),
    ];
    assert(texts(r@) =~= limitations_of(capture_scrollback));
    r
}

/// The snapshot of `input`, saved at `saved_at`.
pub fn build_snapshot_at(input: SnapshotInput<'_>, saved_at: String) -> (r: Snapshot)
    ensures
        r@ == snapshot_of(input@, saved_at@),
{
    let terminals_count: usize = input.rows.len();
    let windows = build_windows(input.rows);
    proof {
        tabs_are_few(row_views(input.rows@));
    }
    let tabs_count: usize = total_tabs(&windows);
    Snapshot {
        version: SNAPSHOT_VERSION,
        name: input.name.to_owned(),
        id: input.id.to_owned(),
        saved_at,
        timestamp: input.timestamp.to_owned(),
        ghostty_version: input.ghostty_version,
        tabs_count,
        terminals_count,
        scrollback_captured: input.capture_scrollback,
        scope: match input.target_window_id {
            Some(window_id) => Scope::Window { window_id: window_id.to_owned() },
            None => Scope::AllWindows,
        },
        windows,
        detected_codex_sessions: sessions_of_agent(input.process_sessions, Agent::Codex),
        detected_amp_threads: sessions_of_agent(input.process_sessions, Agent::Amp),
        warnings: input.warnings,
        limitations: limitations(input.capture_scrollback),
    }
}

/// The snapshot of `input`, saved now.
pub fn build_snapshot(input: SnapshotInput<'_>) -> (r: Snapshot)
    ensures
        r@ == snapshot_of(input@, r@.saved_at),
{
    build_snapshot_at(input, now_text())
}

} // verus!
