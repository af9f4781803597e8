//! What the reports tell.
use vstd::prelude::*;
use vstd::string::*;

use crate::clock::shown_time;
use crate::list::select;
use crate::model::{
    Agent, KeyModel, ScopeModel, SnapshotModel, TabModel, TerminalModel, WindowModel, agent_label,
    agent_name, agent_unit, window_terminals, windows_terminals,
};
use crate::number::{decimal, signed_decimal, two_digits};
use crate::report::{
    attributes, details_of, duplicate_line, duration_text, held_ids, held_sessions, layout_of,
    preview_of, restored_of, saved_of, saved_tab_line, saved_tabs, scope_text, scope_window,
    snapshot_content, snapshot_fault, tab_lines, tab_text, tabs_lines, terminal_lines,
    terminals_lines, titled, window_lines, window_tab_lines, window_text, windows_lines, with_amp,
    with_codex, with_scrollback,
};
use crate::text::join;
use crate::text_laws::{is_blank, is_trim, trimming_takes_whitespace};
use crate::ui::label_line;

verus! {

// ---------------------------------------------------------------------------
// What is accepted
// ---------------------------------------------------------------------------
/// A snapshot is accepted exactly where it has version 1 and a window.
pub proof fn snapshots_need_a_version_and_a_window(snapshot: SnapshotModel)
    ensures
        snapshot_fault(snapshot) is None <==> snapshot.version == 1 && snapshot.windows.len() > 0,
        snapshot.version != 1 ==> snapshot_fault(snapshot) == Some(
            "unsupported snapshot version "@ + decimal(snapshot.version as nat),
        ),
        snapshot.version == 1 && snapshot.windows.len() == 0 ==> snapshot_fault(snapshot) == Some(
            "snapshot has no windows"@,
        ),
{
}

// ---------------------------------------------------------------------------
// Words and numbers
// ---------------------------------------------------------------------------
/// A title is told without the whitespace around it, and that there is none where
/// there is nothing else.
pub proof fn titles_are_told(before: Seq<char>, title: Seq<char>, after: Seq<char>)
    requires
        is_blank(before),
        is_blank(after),
        is_trim(title),
    ensures
        title.len() > 0 ==> titled(before + title + after) == title,
        title.len() == 0 ==> titled(before + title + after) == "(untitled)"@,
{
    trimming_takes_whitespace(before, title, after);
}

/// A time is told in days where it is so many whole ones, else in hours, else in
/// minutes, else in seconds; one of them has no plural.
pub proof fn durations_are_told_in_their_unit(n: nat)
    requires
        n >= 1,
    ensures
        n > 1 ==> duration_text(n * 86_400) == decimal(n) + " "@ + "day"@ + "s"@,
        n % 24 != 0 && n > 1 ==> duration_text(n * 3_600) == decimal(n) + " "@ + "hour"@ + "s"@,
        n % 60 != 0 && n > 1 ==> duration_text(n * 60) == decimal(n) + " "@ + "minute"@ + "s"@,
        n % 60 != 0 && n > 1 ==> duration_text(n) == decimal(n) + " "@ + "second"@ + "s"@,
        n == 1 ==> duration_text(86_400) == decimal(1) + " "@ + "day"@,
        n == 1 ==> duration_text(3_600) == decimal(1) + " "@ + "hour"@,
        n == 1 ==> duration_text(60) == decimal(1) + " "@ + "minute"@,
        n == 1 ==> duration_text(1) == decimal(1) + " "@ + "second"@,
{
    reveal_strlit("");
    assert((n * 86_400) % 86_400 == 0 && (n * 86_400) / 86_400 == n) by (nonlinear_arith);
    assert((n * 3_600) % 3_600 == 0 && (n * 3_600) / 3_600 == n) by (nonlinear_arith);
    assert((n * 60) % 60 == 0 && (n * 60) / 60 == n) by (nonlinear_arith);
    if n % 24 != 0 && (n * 3_600) % 86_400 == 0 {
        let k = (n * 3_600) / 86_400;
        assert(n * 3_600 == k * 86_400);
        assert(n == k * 24);
    }
    if n % 60 != 0 {
        if (n * 60) % 3_600 == 0 {
            let k = (n * 60) / 3_600;
            assert(n * 60 == k * 3_600);
            assert(n == k * 60);
        }
        if (n * 60) % 86_400 == 0 {
            let k = (n * 60) / 86_400;
            assert(n * 60 == k * 86_400);
            assert(n == k * 1_440);
        }
        if n % 3_600 == 0 || n % 86_400 == 0 {
            assert(n % 60 == 0);
        }
    }
    if n == 1 {
        assert(decimal(1) + " "@ + "day"@ + ""@ =~= decimal(1) + " "@ + "day"@);
        assert(decimal(1) + " "@ + "hour"@ + ""@ =~= decimal(1) + " "@ + "hour"@);
        assert(decimal(1) + " "@ + "minute"@ + ""@ =~= decimal(1) + " "@ + "minute"@);
        assert(decimal(1) + " "@ + "second"@ + ""@ =~= decimal(1) + " "@ + "second"@);
    }
}

/// The words for the agents and their conversations.
pub proof fn agents_have_their_words(agent: Agent)
    ensures
        agent == Agent::Codex ==> agent_label(agent) == "Codex"@ && agent_unit(agent) == "session"@
            && agent_name(agent) == "codex"@,
        agent == Agent::Amp ==> agent_label(agent) == "Amp"@ && agent_unit(agent) == "thread"@
            && agent_name(agent) == "amp"@,
{
}

// ---------------------------------------------------------------------------
// Summaries
// ---------------------------------------------------------------------------
/// The terminals of a snapshot are those of its windows, one window after the other,
/// and those of a window are those of its tabs.
pub proof fn terminals_are_taken_in_order(
    windows: Seq<WindowModel>,
    window: WindowModel,
    tabs: Seq<TabModel>,
    tab: TabModel,
)
    ensures
        windows_terminals(Seq::empty()).len() == 0,
        window_terminals(Seq::empty()).len() == 0,
        windows_terminals(windows.push(window)) == windows_terminals(windows) + window_terminals(
            window.tabs,
        ),
        window_terminals(tabs.push(tab)) == window_terminals(tabs) + tab.terminals,
{
    let f = |w: WindowModel| window_terminals(w.tabs);
    let g = |t: TabModel| t.terminals;
    assert(windows.push(window).map_values(f).drop_last() =~= windows.map_values(f));
    assert(tabs.push(tab).map_values(g).drop_last() =~= tabs.map_values(g));
    assert(Seq::<WindowModel>::empty().map_values(f).len() == 0);
    assert(Seq::<TabModel>::empty().map_values(g).len() == 0);
}

/// The layout tells how many windows, tabs and terminals there are.
pub proof fn layouts_are_told(snapshot: SnapshotModel)
    ensures
        layout_of(snapshot) == decimal(snapshot.windows.len()) + " window(s)  |  "@ + decimal(
            snapshot.tabs_count as nat,
        ) + " tab(s)  |  "@ + decimal(snapshot.terminals().len()) + " terminal(s)"@,
{
}

/// How many terminals hold a conversation or a file is counted one by one.
pub proof fn contents_are_counted(terminals: Seq<TerminalModel>, terminal: TerminalModel)
    ensures
        select(terminals.push(terminal), with_codex()).len() == select(terminals, with_codex()).len()
            + if terminal.codex_session_id is Some {
            1int
        } else {
            0
        },
        select(terminals.push(terminal), with_amp()).len() == select(terminals, with_amp()).len()
            + if terminal.amp_thread_id is Some {
            1int
        } else {
            0
        },
        select(terminals.push(terminal), with_scrollback()).len() == select(
            terminals,
            with_scrollback(),
        ).len() + if terminal.scrollback_file is Some {
            1int
        } else {
            0
        },
        select(Seq::<TerminalModel>::empty(), with_codex()).len() == 0,
        select(Seq::<TerminalModel>::empty(), with_amp()).len() == 0,
        select(Seq::<TerminalModel>::empty(), with_scrollback()).len() == 0,
{
    assert(terminals.push(terminal).drop_last() =~= terminals);
}

/// The content tells how many terminals hold a Codex session, an Amp thread and
/// scrollback; or that scrollback was not asked for.
pub proof fn contents_are_told(snapshot: SnapshotModel)
    ensures
        ({
            let terminals = snapshot.terminals();
            let agents = decimal(select(terminals, with_codex()).len()) + " Codex session(s)  |  "@
                + decimal(select(terminals, with_amp()).len()) + " Amp thread(s)  |  "@;
            &&& snapshot.scrollback_captured ==> snapshot_content(snapshot) == agents + (decimal(
                select(terminals, with_scrollback()).len(),
            ) + " scrollback file(s)"@)
            &&& !snapshot.scrollback_captured ==> snapshot_content(snapshot) == agents
                + "scrollback skipped"@
        }),
{
}

/// A snapshot of one window tells which, one of all windows that it is.
pub proof fn scopes_are_told(id: Seq<char>)
    ensures
        scope_text(scope_window(ScopeModel::Window { window_id: id })) == "Ghostty window "@ + id,
        scope_text(scope_window(ScopeModel::AllWindows)) == "all Ghostty windows"@,
        scope_text(Some(id)) == "Ghostty window "@ + id,
        scope_text(None) == "all Ghostty windows"@,
{
}

// ---------------------------------------------------------------------------
// Lines among lines
// ---------------------------------------------------------------------------
/// Whether the lines `part` stand one after the other in `all`.
pub open spec fn stand_among(part: Seq<Seq<char>>, all: Seq<Seq<char>>) -> bool {
    exists|a: Seq<Seq<char>>, b: Seq<Seq<char>>| all == #[trigger] (a + part + b)
}

/// Lines that stand among others stand where those do.
proof fn lemma_among(
    part: Seq<Seq<char>>,
    middle: Seq<Seq<char>>,
    front: Seq<Seq<char>>,
    end: Seq<Seq<char>>,
)
    requires
        stand_among(part, middle),
    ensures
        stand_among(part, front + middle + end),
{
    let (a, b) = choose|a: Seq<Seq<char>>, b: Seq<Seq<char>>| middle == #[trigger] (a + part + b);
    assert(front + middle + end =~= (front + a) + part + (b + end));
}

/// Lines stand among themselves.
proof fn lemma_among_itself(part: Seq<Seq<char>>)
    ensures
        stand_among(part, part),
{
    let none = Seq::<Seq<char>>::empty();
    assert(part =~= none + part + none);
}

// ---------------------------------------------------------------------------
// One snapshot in detail
// ---------------------------------------------------------------------------
/// A terminal is told by its numbers and its title, and by what is special about it;
/// below it stand its directory and its conversation, where there are any.
pub proof fn terminals_are_told(window_index: usize, tab_index: usize, terminal: TerminalModel)
    ensures
        ({
            let lines = terminal_lines(window_index, tab_index, terminal);
            let name = decimal(window_index as nat) + "."@ + decimal(tab_index as nat) + "."@
                + decimal(terminal.index as nat) + "  "@ + titled(terminal.name);
            &&& !terminal.focused && terminal.scrollback_file is None ==> lines[0] == label_line(
                "TERM"@,
                name,
            )
            &&& terminal.focused && terminal.scrollback_file is None ==> lines[0] == label_line(
                "TERM"@,
                name + ("  |  "@ + "focused"@),
            )
            &&& !terminal.focused && terminal.scrollback_file is Some ==> lines[0] == label_line(
                "TERM"@,
                name + ("  |  "@ + "scrollback"@),
            )
            &&& terminal.focused && terminal.scrollback_file is Some ==> lines[0] == label_line(
                "TERM"@,
                name + ("  |  "@ + ("focused"@ + ", "@ + "scrollback"@)),
            )
            &&& terminal.working_directory.len() > 0 ==> lines[1] == label_line(
                "CWD"@,
                terminal.working_directory,
            )
            &&& terminal.codex_session_id matches Some(id) ==> lines.contains(
                label_line("CODEX"@, id),
            )
            &&& terminal.amp_thread_id matches Some(id) ==> lines.contains(label_line("AMP"@, id))
            &&& lines.len() == 1 + (if terminal.working_directory.len() > 0 {
                1int
            } else {
                0
            }) + (if terminal.codex_session_id is Some {
                1int
            } else {
                0
            }) + (if terminal.amp_thread_id is Some {
                1int
            } else {
                0
            })
        }),
{
    let lines = terminal_lines(window_index, tab_index, terminal);
    let special = attributes(terminal);
    let name = decimal(window_index as nat) + "."@ + decimal(tab_index as nat) + "."@ + decimal(
        terminal.index as nat,
    ) + "  "@ + titled(terminal.name);
    if terminal.focused && terminal.scrollback_file is Some {
        assert(special =~= seq!["focused"@, "scrollback"@]);
        assert(special.drop_last() =~= seq!["focused"@]);
        assert(join(special.drop_last(), ", "@) == "focused"@);
        assert(join(special, ", "@) == "focused"@ + ", "@ + "scrollback"@);
    } else if terminal.focused {
        assert(special =~= seq!["focused"@]);
    } else if terminal.scrollback_file is Some {
        assert(special =~= seq!["scrollback"@]);
    } else {
        assert(name + Seq::<char>::empty() =~= name);
    }
    if terminal.codex_session_id is Some {
        let at = if terminal.working_directory.len() > 0 {
            2int
        } else {
            1
        };
        assert(lines[at] == label_line("CODEX"@, terminal.codex_session_id->0));
    }
    if terminal.amp_thread_id is Some {
        assert(lines[lines.len() - 1] == label_line("AMP"@, terminal.amp_thread_id->0));
    }
}

/// A tab is told by its numbers, its title and how many terminals it has, and
/// whether it is the selected one.
pub proof fn tabs_are_told(window_index: usize, tab: TabModel)
    ensures
        ({
            let lines = tab_lines(window_index, tab);
            let text = decimal(window_index as nat) + "."@ + decimal(tab.index as nat) + "  "@
                + titled(tab.name) + "  |  "@ + decimal(tab.terminals.len()) + " terminal(s)"@;
            &&& tab.selected ==> lines[0] == label_line("TAB"@, text + "  |  selected"@)
            &&& !tab.selected ==> lines[0] == label_line("TAB"@, text)
        }),
{
    let text = decimal(window_index as nat) + "."@ + decimal(tab.index as nat) + "  "@ + titled(
        tab.name,
    ) + "  |  "@ + decimal(tab.terminals.len()) + " terminal(s)"@;
    assert(text + Seq::<char>::empty() =~= text);
}

/// A window is told by its number and its title, and by its size and its place where
/// these are known.
pub proof fn windows_are_told(window: WindowModel)
    ensures
        ({
            let lines = window_lines(window);
            let text = decimal(window.index as nat) + "  "@ + titled(window.name);
            &&& window.size is None && window.position is None ==> lines[0] == label_line(
                "WINDOW"@,
                text,
            )
            &&& window.size matches Some(size) ==> window.position matches Some(place)
                ==> lines[0] == label_line(
                "WINDOW"@,
                text + ("  |  "@ + signed_decimal(size.width as int) + "x"@ + signed_decimal(
                    size.height as int,
                )) + (" at "@ + signed_decimal(place.x as int) + ","@ + signed_decimal(
                    place.y as int,
                )),
            )
        }),
{
    let text = decimal(window.index as nat) + "  "@ + titled(window.name);
    assert(text + Seq::<char>::empty() + Seq::<char>::empty() =~= text);
}

proof fn lemma_terminal_among(
    window_index: usize,
    tab_index: usize,
    terminals: Seq<TerminalModel>,
    n: nat,
    k: int,
)
    requires
        0 <= k < n <= terminals.len(),
    ensures
        stand_among(
            terminal_lines(window_index, tab_index, terminals[k]),
            terminals_lines(window_index, tab_index, terminals, n),
        ),
    decreases n,
{
    let none = Seq::<Seq<char>>::empty();
    let before = terminals_lines(window_index, tab_index, terminals, (n - 1) as nat);
    let last = terminal_lines(window_index, tab_index, terminals[n - 1]);
    if k == n - 1 {
        lemma_among_itself(last);
        lemma_among(last, last, before, none);
        assert(before + last + none =~= before + last);
    } else {
        lemma_terminal_among(window_index, tab_index, terminals, (n - 1) as nat, k);
        lemma_among(
            terminal_lines(window_index, tab_index, terminals[k]),
            before,
            none,
            last,
        );
        assert(none + before + last =~= before + last);
    }
}

proof fn lemma_tab_among(window_index: usize, tabs: Seq<TabModel>, n: nat, t: int)
    requires
        0 <= t < n <= tabs.len(),
    ensures
        stand_among(tab_lines(window_index, tabs[t]), tabs_lines(window_index, tabs, n)),
    decreases n,
{
    let none = Seq::<Seq<char>>::empty();
    let before = tabs_lines(window_index, tabs, (n - 1) as nat);
    let last = tab_lines(window_index, tabs[n - 1]);
    if t == n - 1 {
        lemma_among_itself(last);
        lemma_among(last, last, before, none);
        assert(before + last + none =~= before + last);
    } else {
        lemma_tab_among(window_index, tabs, (n - 1) as nat, t);
        lemma_among(tab_lines(window_index, tabs[t]), before, none, last);
        assert(none + before + last =~= before + last);
    }
}

proof fn lemma_window_among(windows: Seq<WindowModel>, n: nat, w: int)
    requires
        0 <= w < n <= windows.len(),
    ensures
        stand_among(window_lines(windows[w]), windows_lines(windows, n)),
    decreases n,
{
    let none = Seq::<Seq<char>>::empty();
    let before = windows_lines(windows, (n - 1) as nat);
    let gap = if n > 1 {
        seq![Seq::<char>::empty()]
    } else {
        none
    };
    let last = window_lines(windows[n - 1]);
    let all = windows_lines(windows, n);
    assert(all == before + gap + last);
    if w == n - 1 {
        lemma_among_itself(last);
        lemma_among(last, last, before + gap, none);
        assert(before + gap + last + none =~= all);
    } else {
        lemma_window_among(windows, (n - 1) as nat, w);
        lemma_among(window_lines(windows[w]), before, none, gap + last);
        assert(none + before + (gap + last) =~= all);
    }
}

/// The details of a snapshot begin with what it is, and end with its warnings and
/// where it stands.
pub proof fn details_tell_the_snapshot(
    number: usize,
    snapshot: SnapshotModel,
    directory: Seq<char>,
    i: int,
)
    ensures
        ({
            let all = details_of(number, snapshot, directory);
            &&& all.len() >= 9
            &&& all[0] == label_line("NUMBER"@, two_digits(number as nat))
            &&& all[1] == label_line("SNAPSHOT"@, snapshot.id)
            &&& all[2] == label_line(
                "SAVED"@,
                shown_time(snapshot.saved_at) + "  |  Ghostty "@ + snapshot.ghostty_version,
            )
            &&& all[3] == label_line("SCOPE"@, scope_text(scope_window(snapshot.scope)))
            &&& all[4] == label_line("LAYOUT"@, layout_of(snapshot))
            &&& all[5] == label_line("CONTENT"@, snapshot_content(snapshot))
            &&& all[6].len() == 0
            &&& all.last() == label_line("LOCATION"@, directory)
            &&& all[all.len() - 2].len() == 0
            &&& 0 <= i < snapshot.warnings.len() ==> all[all.len() - 2 - snapshot.warnings.len()
                + i] == label_line("WARNING"@, snapshot.warnings[i])
        }),
{
}

/// The details of a snapshot tell every window, every tab and every terminal of it.
pub proof fn details_tell_everything(
    number: usize,
    snapshot: SnapshotModel,
    directory: Seq<char>,
    w: int,
    t: int,
    k: int,
)
    requires
        0 <= w < snapshot.windows.len(),
        0 <= t < snapshot.windows[w].tabs.len(),
        0 <= k < snapshot.windows[w].tabs[t].terminals.len(),
    ensures
        ({
            let all = details_of(number, snapshot, directory);
            let window = snapshot.windows[w];
            let tab = window.tabs[t];
            &&& stand_among(window_lines(window), all)
            &&& stand_among(tab_lines(window.index, tab), all)
            &&& stand_among(terminal_lines(window.index, tab.index, tab.terminals[k]), all)
        }),
{
    let none = Seq::<Seq<char>>::empty();
    let window = snapshot.windows[w];
    let tab = window.tabs[t];
    let all = details_of(number, snapshot, directory);
    let middle = windows_lines(snapshot.windows, snapshot.windows.len());
    let head = all.take(7);
    let end = all.skip(7int + middle.len());
    assert(all =~= head + middle + end);
    let in_window = tabs_lines(window.index, window.tabs, window.tabs.len());
    let in_tab = terminals_lines(window.index, tab.index, tab.terminals, tab.terminals.len());
    let first_of_window = seq![label_line("WINDOW"@, window_text(window))];
    let first_of_tab = seq![label_line("TAB"@, tab_text(window.index, tab))];
    lemma_window_among(snapshot.windows, snapshot.windows.len(), w);
    lemma_among(window_lines(window), middle, head, end);
    let part = tab_lines(window.index, tab);
    lemma_tab_among(window.index, window.tabs, window.tabs.len(), t);
    lemma_among(part, in_window, first_of_window, none);
    assert(first_of_window + in_window + none =~= window_lines(window));
    lemma_among_through(part, window_lines(window), all);
    let lines = terminal_lines(window.index, tab.index, tab.terminals[k]);
    lemma_terminal_among(window.index, tab.index, tab.terminals, tab.terminals.len(), k);
    lemma_among(lines, in_tab, first_of_tab, none);
    assert(first_of_tab + in_tab + none =~= part);
    lemma_among_through(lines, part, all);
}

proof fn lemma_among_through(
    part: Seq<Seq<char>>,
    middle: Seq<Seq<char>>,
    all: Seq<Seq<char>>,
)
    requires
        stand_among(part, middle),
        stand_among(middle, all),
    ensures
        stand_among(part, all),
{
    let (a, b) = choose|a: Seq<Seq<char>>, b: Seq<Seq<char>>| all == #[trigger] (a + middle + b);
    lemma_among(part, middle, a, b);
}

// ---------------------------------------------------------------------------
// What would be restored
// ---------------------------------------------------------------------------
/// The conversation of every terminal is among those that are told for its agent, and
/// nothing else is.
pub proof fn held_conversations_are_told(
    terminals: Seq<TerminalModel>,
    terminal: TerminalModel,
    agent: Agent,
)
    ensures
        held_ids(Seq::empty(), agent).len() == 0,
        terminal.session() is None ==> held_ids(terminals.push(terminal), agent) == held_ids(
            terminals,
            agent,
        ),
        terminal.session() matches Some(key) ==> key.agent == agent ==> held_ids(
            terminals.push(terminal),
            agent,
        ) == held_ids(terminals, agent).push(key.id),
        terminal.session() matches Some(key) ==> key.agent != agent ==> held_ids(
            terminals.push(terminal),
            agent,
        ) == held_ids(terminals, agent),
{
    assert(terminals.push(terminal).drop_last() =~= terminals);
    let before = held_sessions(terminals);
    match terminal.session() {
        Some(key) => {
            assert(before.push(key).drop_last() =~= before);
            assert(held_sessions(terminals.push(terminal)) == before.push(key));
            if key.agent == agent {
                assert(held_ids(terminals.push(terminal), agent) =~= held_ids(
                    terminals,
                    agent,
                ).push(key.id));
            }
        },
        None => {},
    }
}

/// What would be restored is told before anything is done: the snapshot, what becomes
/// of the windows that are there, and every conversation by its identifier.
pub proof fn previews_tell_the_snapshot(
    snapshot: SnapshotModel,
    directory: Seq<char>,
    close_existing: bool,
    i: int,
)
    ensures
        ({
            let all = preview_of(snapshot, directory, close_existing);
            let codex = held_ids(snapshot.terminals(), Agent::Codex);
            let amp = held_ids(snapshot.terminals(), Agent::Amp);
            &&& all.len() == 8 + codex.len() + amp.len() + snapshot.limitations.len()
            &&& all[0] == label_line("STATUS"@, "Dry run - Ghostty will not be changed"@)
            &&& all[1] == label_line("SNAPSHOT"@, snapshot.id)
            &&& all[2] == label_line(
                "SAVED"@,
                shown_time(snapshot.saved_at) + "  |  Ghostty "@ + snapshot.ghostty_version,
            )
            &&& all[3] == label_line("LAYOUT"@, layout_of(snapshot))
            &&& close_existing ==> all[4] == label_line(
                "WINDOWS"@,
                "Existing Ghostty windows will close after restore"@,
            )
            &&& !close_existing ==> all[4] == label_line(
                "WINDOWS"@,
                "Existing Ghostty windows will remain open"@,
            )
            &&& codex.len() == 0 ==> all[5] == label_line("CODEX"@, "none"@)
            &&& codex.len() > 0 ==> all[5] == label_line(
                "CODEX"@,
                decimal(codex.len()) + " session(s)"@,
            )
            &&& 0 <= i < codex.len() ==> all[6 + i] == "              "@ + codex[i]
            &&& amp.len() == 0 ==> all[6int + codex.len()] == label_line("AMP"@, "none"@)
            &&& amp.len() > 0 ==> all[6int + codex.len()] == label_line(
                "AMP"@,
                decimal(amp.len()) + " thread(s)"@,
            )
            &&& 0 <= i < amp.len() ==> all[7 + codex.len() + i] == "              "@ + amp[i]
            &&& all[7int + codex.len() + amp.len()] == label_line("LOCATION"@, directory)
            &&& 0 <= i < snapshot.limitations.len() ==> all[8 + codex.len() + amp.len() + i]
                == label_line("NOTE"@, snapshot.limitations[i])
        }),
{
}

// ---------------------------------------------------------------------------
// What was saved, what was restored
// ---------------------------------------------------------------------------
/// The tabs of every window are told one after the other, each by its numbers and its
/// title.
pub proof fn saved_tabs_are_told(windows: Seq<WindowModel>, n: nat, t: int)
    requires
        n < windows.len(),
    ensures
        saved_tabs(windows, 0).len() == 0,
        saved_tabs(windows, n + 1).len() == saved_tabs(windows, n).len() + windows[n as int].tabs.len(),
        saved_tabs(windows, n + 1).take(saved_tabs(windows, n).len() as int) == saved_tabs(
            windows,
            n,
        ),
        0 <= t < windows[n as int].tabs.len() ==> saved_tabs(windows, n + 1)[saved_tabs(
            windows,
            n,
        ).len() + t] == label_line(
            "TAB "@ + decimal(windows[n as int].index as nat) + "."@ + decimal(
                windows[n as int].tabs[t].index as nat,
            ),
            titled(windows[n as int].tabs[t].name),
        ),
{
    let before = saved_tabs(windows, n);
    let more = window_tab_lines(windows[n as int]);
    let all = saved_tabs(windows, n + 1);
    assert(all == before + more);
    assert(all.take(before.len() as int) =~= before);
    if 0 <= t < windows[n as int].tabs.len() {
        assert(more[t] == saved_tab_line(windows[n as int].index, windows[n as int].tabs[t]));
    }
}

/// What was saved is told: the snapshot with its tabs, where it stands, and every
/// warning.
pub proof fn savings_are_told(
    snapshot: SnapshotModel,
    window_id: Option<Seq<char>>,
    directory: Seq<char>,
    warnings: Seq<Seq<char>>,
    i: int,
)
    ensures
        ({
            let all = saved_of(snapshot, window_id, directory, warnings);
            let tabs = saved_tabs(snapshot.windows, snapshot.windows.len());
            &&& all.len() == 5 + tabs.len() + warnings.len()
            &&& all[0] == label_line("SNAPSHOT"@, snapshot.id)
            &&& all[1] == label_line("SCOPE"@, scope_text(window_id))
            &&& all[2] == label_line("LAYOUT"@, layout_of(snapshot))
            &&& 0 <= i < tabs.len() ==> all[3 + i] == tabs[i]
            &&& all[3int + tabs.len()] == label_line("CONTENT"@, snapshot_content(snapshot))
            &&& all[4int + tabs.len()] == label_line("LOCATION"@, directory)
            &&& 0 <= i < warnings.len() ==> all[5 + tabs.len() + i] == label_line(
                "WARNING"@,
                warnings[i],
            )
        }),
{
}

/// What was restored is told: the snapshot, what becomes of the windows that were
/// there, every conversation that was left out because it runs already, and what
/// Ghostty has answered.
pub proof fn restorations_are_told(
    snapshot: SnapshotModel,
    close_existing: bool,
    duplicates: Seq<KeyModel>,
    output: Seq<char>,
    i: int,
)
    ensures
        ({
            let all = restored_of(snapshot, close_existing, duplicates, output);
            &&& all[0] == label_line("SNAPSHOT"@, snapshot.id)
            &&& all[1] == label_line("LAYOUT"@, layout_of(snapshot))
            &&& close_existing ==> all[2] == label_line(
                "STATUS"@,
                "Restored; previous Ghostty window(s) scheduled to close"@,
            )
            &&& !close_existing ==> all[2] == label_line(
                "STATUS"@,
                "Restored into new Ghostty window(s); existing windows kept"@,
            )
            &&& 0 <= i < duplicates.len() && duplicates[i].agent == Agent::Codex ==> all[3 + i]
                == label_line(
                "WARNING"@,
                "Codex"@ + " "@ + "session"@ + " already running; opened a shell: "@
                    + duplicates[i].id,
            )
            &&& 0 <= i < duplicates.len() && duplicates[i].agent == Agent::Amp ==> all[3 + i]
                == label_line(
                "WARNING"@,
                "Amp"@ + " "@ + "thread"@ + " already running; opened a shell: "@ + duplicates[i].id,
            )
            &&& output.len() == 0 ==> all.len() == 3 + duplicates.len()
            &&& output.len() > 0 ==> all.len() == 4 + duplicates.len() && all.last() == label_line(
                "GHOSTTY"@,
                output,
            )
        }),
{
    let all = restored_of(snapshot, close_existing, duplicates, output);
    if 0 <= i < duplicates.len() {
        assert(all[3 + i] == duplicate_line(duplicates[i]));
    }
}

} // verus!
