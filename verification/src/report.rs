//! What is told about snapshots.
use vstd::prelude::*;
use vstd::string::*;

use crate::clock::{display_time, shown_time};
use crate::error::{Error, debug_text, quoted};
use crate::list::select;
use crate::model::{
    Agent, KeyModel, SNAPSHOT_VERSION, Scope, ScopeModel, SessionKey, Snapshot, SnapshotModel, Tab,
    TabModel, Terminal, TerminalModel, Window, WindowModel, agent_label, agent_unit, all_terminals,
    key_views, terminal_ref_views,
};
use crate::number::{decimal, decimal_text, signed_decimal, signed_text, two_digit_text, two_digits};
use crate::pattern::{NAME_PATTERN, is_name, pattern_matches};
use crate::text::{join, joined, optional_text, push_text, texts, trim, trimmed};
use crate::ui::{label_line, labeled};

verus! {

// ---------------------------------------------------------------------------
// What is accepted
// ---------------------------------------------------------------------------
/// What is wrong with a snapshot: its version, or that it has no windows.
pub open spec fn snapshot_fault(snapshot: SnapshotModel) -> Option<Seq<char>> {
    if snapshot.version != SNAPSHOT_VERSION {
        Some("unsupported snapshot version "@ + decimal(snapshot.version as nat))
    } else if snapshot.windows.len() == 0 {
        Some("snapshot has no windows"@)
    } else {
        None
    }
}

/// Fails for a snapshot that cannot be used.
pub fn validate_snapshot(snapshot: &Snapshot) -> (r: Result<(), Error>)
    ensures
        match r {
            Ok(_) => snapshot_fault(snapshot@) is None,
            Err(e) => snapshot_fault(snapshot@) == Some(e@),
        },
{
    if snapshot.version != SNAPSHOT_VERSION {
        let mut message = "unsupported snapshot version ".to_owned();
        message.append(decimal_text(snapshot.version as u64).as_str());
        return Err(Error::new(message));
    }
    if snapshot.windows.len() == 0 {
        return Err(Error::from_text("snapshot has no windows"));
    }
    Ok(())
}

/// What is said of a name that is not accepted.
pub open spec fn name_fault(name: Seq<char>) -> Seq<char> {
    "invalid snapshot name "@ + debug_text(name)
        + "; use letters, numbers, dot, underscore, or dash"@
}

/// Fails for a name that is not accepted.
pub fn validate_name(name: &str) -> (r: Result<(), Error>)
    ensures
        match r {
            Ok(_) => is_name(name@),
            Err(e) => !is_name(name@) && e@ == name_fault(name@),
        },
{
    if !pattern_matches(NAME_PATTERN, name) {
        let mut message = "invalid snapshot name ".to_owned();
        message.append(quoted(name).as_str());
        message.append("; use letters, numbers, dot, underscore, or dash");
        return Err(Error::new(message));
    }
    Ok(())
}

// ---------------------------------------------------------------------------
// Words and numbers
// ---------------------------------------------------------------------------
/// A title without whitespace at either end; a stand-in where nothing is left.
pub open spec fn titled(value: Seq<char>) -> Seq<char> {
    if trim(value).len() == 0 {
        "(untitled)"@
    } else {
        trim(value)
    }
}

/// A title without whitespace at either end; a stand-in where nothing is left.
pub fn untitled(value: &str) -> (r: String)
    ensures
        r@ == titled(value@),
{
    let title = trimmed(value);
    if title.as_str().is_empty() {
        "(untitled)".to_owned()
    } else {
        title
    }
}

/// A number with the name of what it counts.
pub open spec fn counted(n: nat, name: Seq<char>) -> Seq<char> {
    decimal(n) + " "@ + name + (if n == 1 {
        ""@
    } else {
        "s"@
    })
}

/// How long `seconds` are, in the largest unit of which they are a whole number.
pub open spec fn duration_text(seconds: nat) -> Seq<char> {
    if seconds >= 86_400 && seconds % 86_400 == 0 {
        counted(seconds / 86_400, "day"@)
    } else if seconds >= 3_600 && seconds % 3_600 == 0 {
        counted(seconds / 3_600, "hour"@)
    } else if seconds >= 60 && seconds % 60 == 0 {
        counted(seconds / 60, "minute"@)
    } else {
        counted(seconds, "second"@)
    }
}

/// A number with the name of what it counts.
fn counted_text(n: u64, name: &str) -> (r: String)
    ensures
        r@ == counted(n as nat, name@),
{
    let mut r = decimal_text(n);
    r.append(" ");
    r.append(name);
    r.append(if n == 1 {
        ""
    } else {
        "s"
    });
    r
}

/// How long `seconds` are, in the largest unit of which they are a whole number.
pub fn human_duration(seconds: u64) -> (r: String)
    ensures
        r@ == duration_text(seconds as nat),
{
    if seconds >= 86_400 && seconds % 86_400 == 0 {
        counted_text(seconds / 86_400, "day")
    } else if seconds >= 3_600 && seconds % 3_600 == 0 {
        counted_text(seconds / 3_600, "hour")
    } else if seconds >= 60 && seconds % 60 == 0 {
        counted_text(seconds / 60, "minute")
    } else {
        counted_text(seconds, "second")
    }
}

// ---------------------------------------------------------------------------
// Summaries
// ---------------------------------------------------------------------------
/// How many windows, tabs and terminals a snapshot has.
pub open spec fn layout_of(snapshot: SnapshotModel) -> Seq<char> {
    decimal(snapshot.windows.len()) + " window(s)  |  "@ + decimal(snapshot.tabs_count as nat)
        + " tab(s)  |  "@ + decimal(snapshot.terminals().len()) + " terminal(s)"@
}

/// How many windows, tabs and terminals a snapshot has.
pub fn layout_summary(snapshot: &Snapshot) -> (r: String)
    ensures
        r@ == layout_of(snapshot@),
{
    let terminals = all_terminals(snapshot);
    assert(terminal_ref_views(terminals@).len() == terminals@.len());
    let mut r = decimal_text(snapshot.windows.len() as u64);
    r.append(" window(s)  |  ");
    r.append(decimal_text(snapshot.tabs_count as u64).as_str());
    r.append(" tab(s)  |  ");
    r.append(decimal_text(terminals.len() as u64).as_str());
    r.append(" terminal(s)");
    r
}

/// How many conversations and files a snapshot has.
pub open spec fn content_of(codex: nat, amp: nat, scrollback: nat, captured: bool) -> Seq<char> {
    decimal(codex) + " Codex session(s)  |  "@ + decimal(amp) + " Amp thread(s)  |  "@ + (
    if captured {
        decimal(scrollback) + " scrollback file(s)"@
    } else {
        "scrollback skipped"@
    })
}

/// How many conversations and files a snapshot has.
pub fn content_summary(codex: usize, amp: usize, scrollback: usize, captured: bool) -> (r: String)
    ensures
        r@ == content_of(codex as nat, amp as nat, scrollback as nat, captured),
{
    let files = if captured {
        let mut files = decimal_text(scrollback as u64);
        files.append(" scrollback file(s)");
        files
    } else {
        "scrollback skipped".to_owned()
    };
    let mut r = decimal_text(codex as u64);
    r.append(" Codex session(s)  |  ");
    r.append(decimal_text(amp as u64).as_str());
    r.append(" Amp thread(s)  |  ");
    r.append(files.as_str());
    r
}

/// Accepts terminals with a Codex conversation.
pub open spec fn with_codex() -> spec_fn(TerminalModel) -> bool {
    |t: TerminalModel| t.codex_session_id is Some
}

/// Accepts terminals with an Amp thread.
pub open spec fn with_amp() -> spec_fn(TerminalModel) -> bool {
    |t: TerminalModel| t.amp_thread_id is Some
}

/// Accepts terminals with saved scrollback.
pub open spec fn with_scrollback() -> spec_fn(TerminalModel) -> bool {
    |t: TerminalModel| t.scrollback_file is Some
}

/// What the terminals of a snapshot hold.
pub open spec fn snapshot_content(snapshot: SnapshotModel) -> Seq<char> {
    content_of(
        select(snapshot.terminals(), with_codex()).len(),
        select(snapshot.terminals(), with_amp()).len(),
        select(snapshot.terminals(), with_scrollback()).len(),
        snapshot.scrollback_captured,
    )
}

/// What the terminals of a snapshot hold.
pub fn snapshot_content_text(snapshot: &Snapshot) -> (r: String)
    ensures
        r@ == snapshot_content(snapshot@),
{
    let terminals = all_terminals(snapshot);
    let ghost model = snapshot@.terminals();
    let mut codex: usize = 0;
    let mut amp: usize = 0;
    let mut scrollback: usize = 0;
    let mut i: usize = 0;
    while i < terminals.len()
        invariant
            terminal_ref_views(terminals@) == model,
            i <= terminals@.len(),
            codex <= i,
            amp <= i,
            scrollback <= i,
            codex == select(model.take(i as int), with_codex()).len(),
            amp == select(model.take(i as int), with_amp()).len(),
            scrollback == select(model.take(i as int), with_scrollback()).len(),
        decreases terminals@.len() - i,
    {
        proof {
            assert(model.take(i + 1).drop_last() == model.take(i as int));
            assert(model.take(i + 1).last() == terminals@[i as int]@);
        }
        if terminals[i].codex_session_id.is_some() {
            codex = codex + 1;
        }
        if terminals[i].amp_thread_id.is_some() {
            amp = amp + 1;
        }
        if terminals[i].scrollback_file.is_some() {
            scrollback = scrollback + 1;
        }
        i = i + 1;
    }
    assert(model.take(terminals@.len() as int) == model);
    content_summary(codex, amp, scrollback, snapshot.scrollback_captured)
}

/// Which windows a snapshot covers.
pub open spec fn scope_text(window_id: Option<Seq<char>>) -> Seq<char> {
    match window_id {
        Some(id) => "Ghostty window "@ + id,
        None => "all Ghostty windows"@,
    }
}

/// Which windows a snapshot covers.
pub fn scope_summary(window_id: Option<&str>) -> (r: String)
    ensures
        r@ == scope_text(
            match window_id {
                Some(id) => Some(id@),
                None => None,
            },
        ),
{
    match window_id {
        Some(id) => {
            let mut r = "Ghostty window ".to_owned();
            r.append(id);
            r
        },
        None => "all Ghostty windows".to_owned(),
    }
}

/// The window of a scope.
pub open spec fn scope_window(scope: ScopeModel) -> Option<Seq<char>> {
    match scope {
        ScopeModel::Window { window_id } => Some(window_id),
        ScopeModel::AllWindows => None,
    }
}

/// When a snapshot was saved, and by which Ghostty.
pub open spec fn saved_text(snapshot: SnapshotModel) -> Seq<char> {
    shown_time(snapshot.saved_at) + "  |  Ghostty "@ + snapshot.ghostty_version
}

/// When a snapshot was saved, and by which Ghostty.
fn saved_summary(snapshot: &Snapshot) -> (r: String)
    ensures
        r@ == saved_text(snapshot@),
{
    let mut r = display_time(snapshot.saved_at.as_str());
    r.append("  |  Ghostty ");
    r.append(snapshot.ghostty_version.as_str());
    r
}

/// Lines that all have the same label.
pub open spec fn labeled_all(label: Seq<char>, values: Seq<Seq<char>>) -> Seq<Seq<char>> {
    values.map_values(|value: Seq<char>| label_line(label, value))
}

/// Adds lines that all have the same label.
fn push_labeled(lines: &mut Vec<String>, label: &str, values: &Vec<String>)
    ensures
        texts(final(lines)@) == texts(old(lines)@) + labeled_all(label@, texts(values@)),
{
    let ghost before = texts(lines@);
    let ghost all = labeled_all(label@, texts(values@));
    let mut i: usize = 0;
    assert(before + all.take(0) =~= before);
    while i < values.len()
        invariant
            all == labeled_all(label@, texts(values@)),
            i <= values@.len(),
            texts(lines@) == before + all.take(i as int),
        decreases values@.len() - i,
    {
        push_text(lines, labeled(label, values[i].as_str()));
        assert(all[i as int] == label_line(label@, values@[i as int]@));
        assert(before + all.take(i + 1) =~= (before + all.take(i as int)).push(all[i as int]));
        i = i + 1;
    }
    assert(all.take(values@.len() as int) == all);
}

// ---------------------------------------------------------------------------
// The tabs that were saved
// ---------------------------------------------------------------------------
/// The line for a saved tab.
pub open spec fn saved_tab_line(window_index: usize, tab: TabModel) -> Seq<char> {
    label_line(
        "TAB "@ + decimal(window_index as nat) + "."@ + decimal(tab.index as nat),
        titled(tab.name),
    )
}

/// The lines for the tabs of a window.
pub open spec fn window_tab_lines(window: WindowModel) -> Seq<Seq<char>> {
    window.tabs.map_values(|tab: TabModel| saved_tab_line(window.index, tab))
}

/// The lines for the tabs of the first `n` windows.
pub open spec fn saved_tabs(windows: Seq<WindowModel>, n: nat) -> Seq<Seq<char>>
    decreases n,
{
    if n == 0 {
        Seq::empty()
    } else {
        saved_tabs(windows, (n - 1) as nat) + window_tab_lines(windows[n - 1])
    }
}

/// The lines for the tabs of a snapshot.
pub fn saved_tab_lines(snapshot: &Snapshot) -> (r: Vec<String>)
    ensures
        texts(r@) == saved_tabs(snapshot@.windows, snapshot@.windows.len()),
{
    let ghost windows = snapshot@.windows;
    let mut r: Vec<String> = Vec::new();
    let mut i: usize = 0;
    assert(texts(r@) =~= saved_tabs(windows, 0));
    while i < snapshot.windows.len()
        invariant
            windows == snapshot@.windows,
            i <= snapshot.windows@.len(),
            texts(r@) == saved_tabs(windows, i as nat),
        decreases snapshot.windows@.len() - i,
    {
        let window = &snapshot.windows[i];
        assert(windows[i as int] == window@);
        let ghost all = window_tab_lines(window@);
        let ghost before = texts(r@);
        let mut j: usize = 0;
        assert(before + all.take(0) =~= before);
        while j < window.tabs.len()
            invariant
                all == window_tab_lines(window@),
                j <= window.tabs@.len(),
                texts(r@) == before + all.take(j as int),
            decreases window.tabs@.len() - j,
        {
            let tab = &window.tabs[j];
            let mut label = "TAB ".to_owned();
            label.append(decimal_text(window.index as u64).as_str());
            label.append(".");
            label.append(decimal_text(tab.index as u64).as_str());
            push_text(&mut r, labeled(label.as_str(), untitled(tab.name.as_str()).as_str()));
            proof {
                assert(window@.tabs[j as int] == tab@);
                assert(all[j as int] == saved_tab_line(window.index, tab@));
                assert(before + all.take(j + 1) =~= (before + all.take(j as int)).push(
                    all[j as int],
                ));
            }
            j = j + 1;
        }
        assert(all.take(j as int) == all);
        i = i + 1;
    }
    r
}

// ---------------------------------------------------------------------------
// One snapshot in detail
// ---------------------------------------------------------------------------
/// What is told about a window: its number and name, its size and its place.
pub open spec fn window_text(window: WindowModel) -> Seq<char> {
    decimal(window.index as nat) + "  "@ + titled(window.name) + (match window.size {
        Some(size) => "  |  "@ + signed_decimal(size.width as int) + "x"@ + signed_decimal(
            size.height as int,
        ),
        None => Seq::empty(),
    }) + (match window.position {
        Some(position) => " at "@ + signed_decimal(position.x as int) + ","@ + signed_decimal(
            position.y as int,
        ),
        None => Seq::empty(),
    })
}

/// What is told about a tab.
pub open spec fn tab_text(window_index: usize, tab: TabModel) -> Seq<char> {
    decimal(window_index as nat) + "."@ + decimal(tab.index as nat) + "  "@ + titled(tab.name)
        + "  |  "@ + decimal(tab.terminals.len()) + " terminal(s)"@ + (if tab.selected {
        "  |  selected"@
    } else {
        Seq::empty()
    })
}

/// What is special about a terminal.
pub open spec fn attributes(terminal: TerminalModel) -> Seq<Seq<char>> {
    (if terminal.focused {
        seq!["focused"@]
    } else {
        Seq::empty()
    }) + (if terminal.scrollback_file is Some {
        seq!["scrollback"@]
    } else {
        Seq::empty()
    })
}

/// What is told about a terminal.
pub open spec fn terminal_text(
    window_index: usize,
    tab_index: usize,
    terminal: TerminalModel,
) -> Seq<char> {
    decimal(window_index as nat) + "."@ + decimal(tab_index as nat) + "."@ + decimal(
        terminal.index as nat,
    ) + "  "@ + titled(terminal.name) + (if attributes(terminal).len() == 0 {
        Seq::empty()
    } else {
        "  |  "@ + join(attributes(terminal), ", "@)
    })
}

/// A line, where there is a value for it.
pub open spec fn optional_line(label: Seq<char>, value: Option<Seq<char>>) -> Seq<Seq<char>> {
    match value {
        Some(text) => seq![label_line(label, text)],
        None => Seq::empty(),
    }
}

/// The lines about a terminal.
pub open spec fn terminal_lines(
    window_index: usize,
    tab_index: usize,
    terminal: TerminalModel,
) -> Seq<Seq<char>> {
    seq![label_line("TERM"@, terminal_text(window_index, tab_index, terminal))] + (
    if terminal.working_directory.len() == 0 {
        Seq::empty()
    } else {
        seq![label_line("CWD"@, terminal.working_directory)]
    }) + optional_line("CODEX"@, terminal.codex_session_id) + optional_line(
        "AMP"@,
        terminal.amp_thread_id,
    )
}

/// The lines about the first `n` terminals of a tab.
pub open spec fn terminals_lines(
    window_index: usize,
    tab_index: usize,
    terminals: Seq<TerminalModel>,
    n: nat,
) -> Seq<Seq<char>>
    decreases n,
{
    if n == 0 {
        Seq::empty()
    } else {
        terminals_lines(window_index, tab_index, terminals, (n - 1) as nat) + terminal_lines(
            window_index,
            tab_index,
            terminals[n - 1],
        )
    }
}

/// The lines about a tab.
pub open spec fn tab_lines(window_index: usize, tab: TabModel) -> Seq<Seq<char>> {
    seq![label_line("TAB"@, tab_text(window_index, tab))] + terminals_lines(
        window_index,
        tab.index,
        tab.terminals,
        tab.terminals.len(),
    )
}

/// The lines about the first `n` tabs of a window.
pub open spec fn tabs_lines(window_index: usize, tabs: Seq<TabModel>, n: nat) -> Seq<Seq<char>>
    decreases n,
{
    if n == 0 {
        Seq::empty()
    } else {
        tabs_lines(window_index, tabs, (n - 1) as nat) + tab_lines(window_index, tabs[n - 1])
    }
}

/// The lines about a window.
pub open spec fn window_lines(window: WindowModel) -> Seq<Seq<char>> {
    seq![label_line("WINDOW"@, window_text(window))] + tabs_lines(
        window.index,
        window.tabs,
        window.tabs.len(),
    )
}

/// The lines about the first `n` windows, with an empty line between each two.
pub open spec fn windows_lines(windows: Seq<WindowModel>, n: nat) -> Seq<Seq<char>>
    decreases n,
{
    if n == 0 {
        Seq::empty()
    } else {
        windows_lines(windows, (n - 1) as nat) + (if n > 1 {
            seq![Seq::empty()]
        } else {
            Seq::empty()
        }) + window_lines(windows[n - 1])
    }
}

/// Everything about a snapshot.
pub open spec fn details_of(number: usize, snapshot: SnapshotModel, directory: Seq<char>) -> Seq<
    Seq<char>,
> {
    seq![
        label_line("NUMBER"@, two_digits(number as nat)),
        label_line("SNAPSHOT"@, snapshot.id),
        label_line("SAVED"@, saved_text(snapshot)),
        label_line("SCOPE"@, scope_text(scope_window(snapshot.scope))),
        label_line("LAYOUT"@, layout_of(snapshot)),
        label_line("CONTENT"@, snapshot_content(snapshot)),
        Seq::empty(),
    ] + windows_lines(snapshot.windows, snapshot.windows.len()) + labeled_all(
        "WARNING"@,
        snapshot.warnings,
    ) + seq![Seq::empty(), label_line("LOCATION"@, directory)]
}

/// What is told about a window.
fn window_summary(window: &Window) -> (r: String)
    ensures
        r@ == window_text(window@),
{
    let mut r = decimal_text(window.index as u64);
    r.append("  ");
    r.append(untitled(window.name.as_str()).as_str());
    let mut size_part = String::new();
    if let Some(size) = window.size {
        size_part.append("  |  ");
        size_part.append(signed_text(size.width).as_str());
        size_part.append("x");
        size_part.append(signed_text(size.height).as_str());
        assert(size_part@ =~= "  |  "@ + signed_decimal(size.width as int) + "x"@ + signed_decimal(
            size.height as int,
        ));
    }
    let mut place_part = String::new();
    if let Some(position) = window.position {
        place_part.append(" at ");
        place_part.append(signed_text(position.x).as_str());
        place_part.append(",");
        place_part.append(signed_text(position.y).as_str());
        assert(place_part@ =~= " at "@ + signed_decimal(position.x as int) + ","@ + signed_decimal(
            position.y as int,
        ));
    }
    r.append(size_part.as_str());
    r.append(place_part.as_str());
    assert(r@ =~= window_text(window@));
    r
}

/// What is told about a tab.
fn tab_summary(window_index: usize, tab: &Tab) -> (r: String)
    ensures
        r@ == tab_text(window_index, tab@),
{
    let mut r = decimal_text(window_index as u64);
    r.append(".");
    r.append(decimal_text(tab.index as u64).as_str());
    r.append("  ");
    r.append(untitled(tab.name.as_str()).as_str());
    r.append("  |  ");
    r.append(decimal_text(tab.terminals.len() as u64).as_str());
    r.append(" terminal(s)");
    if tab.selected {
        r.append("  |  selected");
    }
    assert(r@ =~= tab_text(window_index, tab@));
    r
}

/// What is told about a terminal.
fn terminal_summary(window_index: usize, tab_index: usize, terminal: &Terminal) -> (r: String)
    ensures
        r@ == terminal_text(window_index, tab_index, terminal@),
{
    let mut special: Vec<String> = Vec::new();
    if terminal.focused {
        push_text(&mut special, "focused".to_owned());
    }
    if terminal.scrollback_file.is_some() {
        push_text(&mut special, "scrollback".to_owned());
    }
    assert(texts(special@) =~= attributes(terminal@));
    let mut r = decimal_text(window_index as u64);
    r.append(".");
    r.append(decimal_text(tab_index as u64).as_str());
    r.append(".");
    r.append(decimal_text(terminal.index as u64).as_str());
    r.append("  ");
    r.append(untitled(terminal.name.as_str()).as_str());
    if special.len() > 0 {
        let mut part = "  |  ".to_owned();
        part.append(joined(&special, ", ").as_str());
        r.append(part.as_str());
    }
    assert(r@ =~= terminal_text(window_index, tab_index, terminal@));
    r
}

/// Adds a line, where there is a value for it.
fn push_optional(lines: &mut Vec<String>, label: &str, value: &Option<String>)
    ensures
        texts(final(lines)@) == texts(old(lines)@) + optional_line(
            label@,
            optional_text(*value),
        ),
{
    let ghost before = texts(lines@);
    if let Some(text) = value {
        push_text(lines, labeled(label, text.as_str()));
    }
    assert(texts(lines@) =~= before + optional_line(label@, optional_text(*value)));
}

/// Adds the lines about a terminal.
fn push_terminal(lines: &mut Vec<String>, window_index: usize, tab_index: usize, terminal: &Terminal)
    ensures
        texts(final(lines)@) == texts(old(lines)@) + terminal_lines(
            window_index,
            tab_index,
            terminal@,
        ),
{
    let ghost before = texts(lines@);
    push_text(
        lines,
        labeled("TERM", terminal_summary(window_index, tab_index, terminal).as_str()),
    );
    if !terminal.working_directory.as_str().is_empty() {
        push_text(lines, labeled("CWD", terminal.working_directory.as_str()));
    }
    push_optional(lines, "CODEX", &terminal.codex_session_id);
    push_optional(lines, "AMP", &terminal.amp_thread_id);
    assert(texts(lines@) =~= before + terminal_lines(window_index, tab_index, terminal@));
}

/// Adds the lines about a tab.
fn push_tab(lines: &mut Vec<String>, window_index: usize, tab: &Tab)
    ensures
        texts(final(lines)@) == texts(old(lines)@) + tab_lines(window_index, tab@),
{
    let ghost before = texts(lines@);
    let ghost terminals = tab@.terminals;
    push_text(lines, labeled("TAB", tab_summary(window_index, tab).as_str()));
    let ghost head = before.push(label_line("TAB"@, tab_text(window_index, tab@)));
    let mut i: usize = 0;
    assert(head + terminals_lines(window_index, tab.index, terminals, 0) =~= head);
    while i < tab.terminals.len()
        invariant
            terminals == tab@.terminals,
            i <= tab.terminals@.len(),
            texts(lines@) == head + terminals_lines(window_index, tab.index, terminals, i as nat),
        decreases tab.terminals@.len() - i,
    {
        assert(terminals[i as int] == tab.terminals@[i as int]@);
        push_terminal(lines, window_index, tab.index, &tab.terminals[i]);
        assert(texts(lines@) =~= head + terminals_lines(
            window_index,
            tab.index,
            terminals,
            (i + 1) as nat,
        ));
        i = i + 1;
    }
    assert(texts(lines@) =~= before + tab_lines(window_index, tab@));
}

/// Adds the lines about a window.
fn push_window(lines: &mut Vec<String>, window: &Window)
    ensures
        texts(final(lines)@) == texts(old(lines)@) + window_lines(window@),
{
    let ghost before = texts(lines@);
    let ghost tabs = window@.tabs;
    push_text(lines, labeled("WINDOW", window_summary(window).as_str()));
    let ghost head = before.push(label_line("WINDOW"@, window_text(window@)));
    let mut i: usize = 0;
    assert(head + tabs_lines(window.index, tabs, 0) =~= head);
    while i < window.tabs.len()
        invariant
            tabs == window@.tabs,
            i <= window.tabs@.len(),
            texts(lines@) == head + tabs_lines(window.index, tabs, i as nat),
        decreases window.tabs@.len() - i,
    {
        assert(tabs[i as int] == window.tabs@[i as int]@);
        push_tab(lines, window.index, &window.tabs[i]);
        assert(texts(lines@) =~= head + tabs_lines(window.index, tabs, (i + 1) as nat));
        i = i + 1;
    }
    assert(texts(lines@) =~= before + window_lines(window@));
}

/// The window of a scope.
fn window_of_scope(scope: &Scope) -> (r: Option<&str>)
    ensures
        match r {
            Some(id) => scope_window(scope@) == Some(id@),
            None => scope_window(scope@) is None,
        },
{
    match scope {
        Scope::Window { window_id } => Some(window_id.as_str()),
        Scope::AllWindows => None,
    }
}

/// Everything about a snapshot, if it can be used.
pub fn snapshot_details(number: usize, snapshot: &Snapshot, directory: &str) -> (r: Result<
    Vec<String>,
    Error,
>)
    ensures
        match r {
            Ok(lines) => snapshot_fault(snapshot@) is None && texts(lines@) == details_of(
                number,
                snapshot@,
                directory@,
            ),
            Err(e) => snapshot_fault(snapshot@) == Some(e@),
        },
{
    match validate_snapshot(snapshot) {
        Ok(_) => {},
        Err(e) => return Err(e),
    }
    let ghost windows = snapshot@.windows;
    let mut lines: Vec<String> = Vec::new();
    push_text(&mut lines, labeled("NUMBER", two_digit_text(number as u64).as_str()));
    push_text(&mut lines, labeled("SNAPSHOT", snapshot.id.as_str()));
    push_text(&mut lines, labeled("SAVED", saved_summary(snapshot).as_str()));
    let scope = scope_summary(window_of_scope(&snapshot.scope));
    push_text(&mut lines, labeled("SCOPE", scope.as_str()));
    push_text(&mut lines, labeled("LAYOUT", layout_summary(snapshot).as_str()));
    push_text(&mut lines, labeled("CONTENT", snapshot_content_text(snapshot).as_str()));
    push_text(&mut lines, String::new());
    let ghost head = texts(lines@);
    let mut i: usize = 0;
    assert(head + windows_lines(windows, 0) =~= head);
    while i < snapshot.windows.len()
        invariant
            windows == snapshot@.windows,
            i <= snapshot.windows@.len(),
            texts(lines@) == head + windows_lines(windows, i as nat),
        decreases snapshot.windows@.len() - i,
    {
        assert(windows[i as int] == snapshot.windows@[i as int]@);
        if i > 0 {
            push_text(&mut lines, String::new());
        }
        push_window(&mut lines, &snapshot.windows[i]);
        assert(texts(lines@) =~= head + windows_lines(windows, (i + 1) as nat));
        i = i + 1;
    }
    push_labeled(&mut lines, "WARNING", &snapshot.warnings);
    push_text(&mut lines, String::new());
    push_text(&mut lines, labeled("LOCATION", directory));
    assert(texts(lines@) =~= details_of(number, snapshot@, directory@));
    Ok(lines)
}

// ---------------------------------------------------------------------------
// What would be restored
// ---------------------------------------------------------------------------
/// The conversations that the terminals held.
pub open spec fn held_sessions(terminals: Seq<TerminalModel>) -> Seq<KeyModel>
    decreases terminals.len(),
{
    if terminals.len() == 0 {
        Seq::empty()
    } else {
        let before = held_sessions(terminals.drop_last());
        match terminals.last().session() {
            Some(key) => before.push(key),
            None => before,
        }
    }
}

/// Accepts the conversations of `agent`.
pub open spec fn key_of(agent: Agent) -> spec_fn(KeyModel) -> bool {
    |key: KeyModel| key.agent == agent
}

/// The identifiers of the conversations of `agent` that the terminals held.
pub open spec fn held_ids(terminals: Seq<TerminalModel>, agent: Agent) -> Seq<Seq<char>> {
    select(held_sessions(terminals), key_of(agent)).map_values(|key: KeyModel| key.id)
}

/// How many there are, or that there are none.
pub open spec fn count_text(n: nat, what: Seq<char>) -> Seq<char> {
    if n == 0 {
        "none"@
    } else {
        decimal(n) + what
    }
}

/// Lines that are indented like values.
pub open spec fn indented(values: Seq<Seq<char>>) -> Seq<Seq<char>> {
    values.map_values(|value: Seq<char>| "              "@ + value)
}

/// What would be restored.
pub open spec fn preview_of(snapshot: SnapshotModel, directory: Seq<char>, close_existing: bool) -> Seq<
    Seq<char>,
> {
    let codex = held_ids(snapshot.terminals(), Agent::Codex);
    let amp = held_ids(snapshot.terminals(), Agent::Amp);
    seq![
        label_line("STATUS"@, "Dry run - Ghostty will not be changed"@),
        label_line("SNAPSHOT"@, snapshot.id),
        label_line("SAVED"@, saved_text(snapshot)),
        label_line("LAYOUT"@, layout_of(snapshot)),
        label_line(
            "WINDOWS"@,
            if close_existing {
                "Existing Ghostty windows will close after restore"@
            } else {
                "Existing Ghostty windows will remain open"@
            },
        ),
        label_line("CODEX"@, count_text(codex.len(), " session(s)"@)),
    ] + indented(codex) + seq![label_line("AMP"@, count_text(amp.len(), " thread(s)"@))] + indented(
        amp,
    ) + seq![label_line("LOCATION"@, directory)] + labeled_all("NOTE"@, snapshot.limitations)
}

/// The identifiers of the conversations of `agent` that a snapshot holds.
pub fn held_session_ids(snapshot: &Snapshot, agent: Agent) -> (r: Vec<String>)
    ensures
        texts(r@) == held_ids(snapshot@.terminals(), agent),
{
    let terminals = all_terminals(snapshot);
    let ghost model = snapshot@.terminals();
    let mut r: Vec<String> = Vec::new();
    let mut i: usize = 0;
    assert(texts(r@) =~= held_ids(model.take(0), agent));
    while i < terminals.len()
        invariant
            terminal_ref_views(terminals@) == model,
            i <= terminals@.len(),
            texts(r@) == held_ids(model.take(i as int), agent),
        decreases terminals@.len() - i,
    {
        let ghost held = held_sessions(model.take(i as int));
        proof {
            assert(model.take(i + 1).drop_last() == model.take(i as int));
            assert(model.take(i + 1).last() == terminals@[i as int]@);
        }
        match terminals[i].session() {
            Some(session) => {
                proof {
                    assert(held.push(session@).drop_last() =~= held);
                }
                if session.agent == agent {
                    push_text(&mut r, session.id.to_owned());
                }
                assert(texts(r@) =~= held_ids(model.take(i + 1), agent));
            },
            None => {},
        }
        i = i + 1;
    }
    assert(model.take(terminals@.len() as int) == model);
    r
}

/// How many there are, or that there are none.
fn count_summary(n: usize, what: &str) -> (r: String)
    ensures
        r@ == count_text(n as nat, what@),
{
    if n == 0 {
        "none".to_owned()
    } else {
        let mut r = decimal_text(n as u64);
        r.append(what);
        r
    }
}

/// Adds lines that are indented like values.
fn push_indented(lines: &mut Vec<String>, values: &Vec<String>)
    ensures
        texts(final(lines)@) == texts(old(lines)@) + indented(texts(values@)),
{
    let ghost before = texts(lines@);
    let ghost all = indented(texts(values@));
    let mut i: usize = 0;
    assert(before + all.take(0) =~= before);
    while i < values.len()
        invariant
            all == indented(texts(values@)),
            i <= values@.len(),
            texts(lines@) == before + all.take(i as int),
        decreases values@.len() - i,
    {
        let mut line = "              ".to_owned();
        line.append(values[i].as_str());
        push_text(lines, line);
        assert(all[i as int] == "              "@ + values@[i as int]@);
        assert(before + all.take(i + 1) =~= (before + all.take(i as int)).push(all[i as int]));
        i = i + 1;
    }
    assert(all.take(values@.len() as int) == all);
}

/// What would be restored.
pub fn restore_preview(snapshot: &Snapshot, directory: &str, close_existing: bool) -> (r: Vec<
    String,
>)
    ensures
        texts(r@) == preview_of(snapshot@, directory@, close_existing),
{
    let codex = held_session_ids(snapshot, Agent::Codex);
    let amp = held_session_ids(snapshot, Agent::Amp);
    assert(codex@.len() == texts(codex@).len());
    assert(amp@.len() == texts(amp@).len());
    let mut lines: Vec<String> = Vec::new();
    push_text(&mut lines, labeled("STATUS", "Dry run - Ghostty will not be changed"));
    push_text(&mut lines, labeled("SNAPSHOT", snapshot.id.as_str()));
    push_text(&mut lines, labeled("SAVED", saved_summary(snapshot).as_str()));
    push_text(&mut lines, labeled("LAYOUT", layout_summary(snapshot).as_str()));
    push_text(
        &mut lines,
        labeled(
            "WINDOWS",
            if close_existing {
                "Existing Ghostty windows will close after restore"
            } else {
                "Existing Ghostty windows will remain open"
            },
        ),
    );
    push_text(&mut lines, labeled("CODEX", count_summary(codex.len(), " session(s)").as_str()));
    push_indented(&mut lines, &codex);
    push_text(&mut lines, labeled("AMP", count_summary(amp.len(), " thread(s)").as_str()));
    push_indented(&mut lines, &amp);
    push_text(&mut lines, labeled("LOCATION", directory));
    push_labeled(&mut lines, "NOTE", &snapshot.limitations);
    assert(texts(lines@) =~= preview_of(snapshot@, directory@, close_existing));
    lines
}

// ---------------------------------------------------------------------------
// What was saved, what was restored
// ---------------------------------------------------------------------------
/// What was saved.
pub open spec fn saved_of(
    snapshot: SnapshotModel,
    window_id: Option<Seq<char>>,
    directory: Seq<char>,
    warnings: Seq<Seq<char>>,
) -> Seq<Seq<char>> {
    seq![
        label_line("SNAPSHOT"@, snapshot.id),
        label_line("SCOPE"@, scope_text(window_id)),
        label_line("LAYOUT"@, layout_of(snapshot)),
    ] + saved_tabs(snapshot.windows, snapshot.windows.len()) + seq![
        label_line("CONTENT"@, snapshot_content(snapshot)),
        label_line("LOCATION"@, directory),
    ] + labeled_all("WARNING"@, warnings)
}

/// Adds all of `more`.
fn push_all(lines: &mut Vec<String>, more: Vec<String>)
    ensures
        texts(final(lines)@) == texts(old(lines)@) + texts(more@),
{
    let ghost before = lines@;
    let ghost added = more@;
    let mut more = more;
    lines.append(&mut more);
    assert(texts(lines@) =~= texts(before) + texts(added));
}

/// What was saved.
pub fn saved_report(
    snapshot: &Snapshot,
    window_id: Option<&str>,
    directory: &str,
    warnings: &Vec<String>,
) -> (r: Vec<String>)
    ensures
        texts(r@) == saved_of(
            snapshot@,
            match window_id {
                Some(id) => Some(id@),
                None => None,
            },
            directory@,
            texts(warnings@),
        ),
{
    let mut lines: Vec<String> = Vec::new();
    push_text(&mut lines, labeled("SNAPSHOT", snapshot.id.as_str()));
    push_text(&mut lines, labeled("SCOPE", scope_summary(window_id).as_str()));
    push_text(&mut lines, labeled("LAYOUT", layout_summary(snapshot).as_str()));
    push_all(&mut lines, saved_tab_lines(snapshot));
    push_text(&mut lines, labeled("CONTENT", snapshot_content_text(snapshot).as_str()));
    push_text(&mut lines, labeled("LOCATION", directory));
    push_labeled(&mut lines, "WARNING", warnings);
    assert(texts(lines@) =~= saved_of(
        snapshot@,
        match window_id {
            Some(id) => Some(id@),
            None => None,
        },
        directory@,
        texts(warnings@),
    ));
    lines
}

/// The line about a conversation that runs already.
pub open spec fn duplicate_line(key: KeyModel) -> Seq<char> {
    label_line(
        "WARNING"@,
        agent_label(key.agent) + " "@ + agent_unit(key.agent)
            + " already running; opened a shell: "@ + key.id,
    )
}

/// What was restored; `output` is what Ghostty has answered.
pub open spec fn restored_of(
    snapshot: SnapshotModel,
    close_existing: bool,
    duplicates: Seq<KeyModel>,
    output: Seq<char>,
) -> Seq<Seq<char>> {
    seq![
        label_line("SNAPSHOT"@, snapshot.id),
        label_line("LAYOUT"@, layout_of(snapshot)),
        label_line(
            "STATUS"@,
            if close_existing {
                "Restored; previous Ghostty window(s) scheduled to close"@
            } else {
                "Restored into new Ghostty window(s); existing windows kept"@
            },
        ),
    ] + duplicates.map_values(|key: KeyModel| duplicate_line(key)) + (if output.len() == 0 {
        Seq::empty()
    } else {
        seq![label_line("GHOSTTY"@, output)]
    })
}

/// What was restored.
pub fn restored_report(
    snapshot: &Snapshot,
    close_existing: bool,
    duplicates: &Vec<SessionKey>,
    output: &str,
) -> (r: Vec<String>)
    ensures
        texts(r@) == restored_of(snapshot@, close_existing, key_views(duplicates@), output@),
{
    let mut lines: Vec<String> = Vec::new();
    push_text(&mut lines, labeled("SNAPSHOT", snapshot.id.as_str()));
    push_text(&mut lines, labeled("LAYOUT", layout_summary(snapshot).as_str()));
    push_text(
        &mut lines,
        labeled(
            "STATUS",
            if close_existing {
                "Restored; previous Ghostty window(s) scheduled to close"
            } else {
                "Restored into new Ghostty window(s); existing windows kept"
            },
        ),
    );
    let ghost head = texts(lines@);
    let ghost all = key_views(duplicates@).map_values(|key: KeyModel| duplicate_line(key));
    let mut i: usize = 0;
    assert(head + all.take(0) =~= head);
    while i < duplicates.len()
        invariant
            all == key_views(duplicates@).map_values(|key: KeyModel| duplicate_line(key)),
            i <= duplicates@.len(),
            texts(lines@) == head + all.take(i as int),
        decreases duplicates@.len() - i,
    {
        let key = &duplicates[i];
        let mut text = key.agent.label().to_owned();
        text.append(" ");
        text.append(key.agent.unit());
        text.append(" already running; opened a shell: ");
        text.append(key.id.as_str());
        push_text(&mut lines, labeled("WARNING", text.as_str()));
        assert(all[i as int] == duplicate_line(key@));
        assert(head + all.take(i + 1) =~= (head + all.take(i as int)).push(all[i as int]));
        i = i + 1;
    }
    assert(all.take(duplicates@.len() as int) == all);
    if !output.is_empty() {
        push_text(&mut lines, labeled("GHOSTTY", output));
    }
    assert(texts(lines@) =~= restored_of(
        snapshot@,
        close_existing,
        key_views(duplicates@),
        output@,
    ));
    lines
}

} // verus!
