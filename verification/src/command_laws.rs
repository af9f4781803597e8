//! What a restored terminal runs, and where everything of a snapshot stands in the
//! script.
use vstd::prelude::*;
use vstd::string::*;

use crate::list::{first_index, last_index, lemma_first_index, lemma_last_index};
use crate::model::{Agent, KeyModel, RowModel, SessionModel, TabModel, TerminalModel, WindowModel};
use crate::number::signed_decimal;
use crate::path::below;
use crate::quote::{
    one_line, script_quoted, script_reads_back, script_text, shell_quoted, shell_reads_back,
    shell_word,
};
use crate::restore::{
    RestoreAction, SettingModel, action_for, closing_lines, config_variable, configuration_lines,
    final_focus, first_lines, focus_lines, focused_number, geometry_lines, had_focus,
    keys_to_avoid_of, named_files, opening_lines, report_command, resume_command, running_command,
    script_lines, select_lines, show_command, showing, split_line, split_lines, start_directory,
    surface_variable, tab_lines, tab_variable, tabs_lines, terminal_command, terminal_commands,
    title_lines, wait_command, waiting, was_selected, window_focus, window_lines, window_variable,
    windows_lines,
};
use crate::restore_laws::{lemma_behind, lemma_in_front, opening_part};
use crate::save::{prepared_row, scrollback_name};
use crate::snapshot::terminal_of;
use crate::text::{contains, ends_with, join, starts_with};
use crate::text_laws::parts_are_found;

verus! {

// ---------------------------------------------------------------------------
// One command
// ---------------------------------------------------------------------------
/// A command that ends in a quoted text: the last word that a shell reads in it is
/// the text.
pub open spec fn ends_in_word(command: Seq<char>, word: Seq<char>) -> bool {
    let quoted = shell_quoted(word);
    &&& ends_with(command, " "@ + quoted)
    &&& shell_word(command.skip(command.len() - quoted.len())) == Some(word)
}

proof fn lemma_ends_in_word(front: Seq<char>, word: Seq<char>)
    requires
        front.len() > 0,
        front.last() == ' ',
    ensures
        ends_in_word(front + shell_quoted(word), word),
{
    reveal_strlit(" ");
    let quoted = shell_quoted(word);
    let command = front + quoted;
    shell_reads_back(word);
    assert(command.skip(command.len() - quoted.len()) =~= quoted);
    assert(front =~= front.drop_last() + " "@);
    assert(command =~= front.drop_last() + (" "@ + quoted));
    parts_are_found(front.drop_last(), " "@ + quoted, Seq::empty());
}

/// The command that resumes a conversation of either agent ends in exactly its
/// identifier.
pub proof fn resuming_names_the_conversation(key: KeyModel)
    ensures
        ends_in_word(resume_command(key), key.id),
        key.agent == Agent::Amp ==> starts_with(resume_command(key), "exec amp threads continue "@)
            && resume_command(key).len() == 26 + shell_quoted(key.id).len(),
        key.agent == Agent::Codex ==> starts_with(resume_command(key), "exec codex resume "@)
            && resume_command(key).len() == 18 + shell_quoted(key.id).len(),
{
    reveal_strlit("exec amp threads continue ");
    reveal_strlit("exec codex resume ");
    match key.agent {
        Agent::Amp => {
            lemma_ends_in_word("exec amp threads continue "@, key.id);
            parts_are_found(
                Seq::empty(),
                "exec amp threads continue "@,
                shell_quoted(key.id),
            );
        },
        Agent::Codex => {
            lemma_ends_in_word("exec codex resume "@, key.id);
            parts_are_found(Seq::empty(), "exec codex resume "@, shell_quoted(key.id));
        },
    }
}

/// Quoted texts are told apart.
pub proof fn quoted_words_differ(a: Seq<char>, b: Seq<char>)
    requires
        shell_quoted(a) == shell_quoted(b),
    ensures
        a == b,
{
    shell_reads_back(a);
    shell_reads_back(b);
}

/// Different conversations are resumed by different commands.
pub proof fn resuming_commands_differ(a: KeyModel, b: KeyModel)
    requires
        resume_command(a) == resume_command(b),
    ensures
        a == b,
{
    reveal_strlit("exec amp threads continue ");
    reveal_strlit("exec codex resume ");
    let x = resume_command(a);
    let y = resume_command(b);
    if a.agent == b.agent {
        let n: int = if a.agent == Agent::Amp {
            26
        } else {
            18
        };
        assert(x.skip(n) =~= shell_quoted(a.id));
        assert(y.skip(n) =~= shell_quoted(b.id));
        quoted_words_differ(a.id, b.id);
    } else {
        if a.agent == Agent::Amp {
            assert(x[5] == 'a' && y[5] == 'c');
        } else {
            assert(x[5] == 'c' && y[5] == 'a');
        }
    }
}

/// The command that shows a file ends in exactly the file.
pub proof fn showing_names_the_file(file: Seq<char>)
    ensures
        ends_in_word(show_command(file), file),
        starts_with(show_command(file), "/bin/cat "@),
{
    reveal_strlit("/bin/cat -- ");
    reveal_strlit("/bin/cat ");
    reveal_strlit("-- ");
    lemma_ends_in_word("/bin/cat -- "@, file);
    assert(show_command(file) =~= "/bin/cat "@ + ("-- "@ + shell_quoted(file)));
    parts_are_found(Seq::empty(), "/bin/cat "@, "-- "@ + shell_quoted(file));
}

/// The command that tells the working directory ends in exactly the directory, with
/// the host before it.
pub proof fn reporting_names_the_directory(host: Seq<char>, cwd: Seq<char>)
    ensures
        ends_in_word(report_command(host, cwd), cwd),
        starts_with(
            report_command(host, cwd),
            "/usr/bin/printf '\\033]7;kitty-shell-cwd://%s%s\\007' "@ + shell_quoted(host) + " "@,
        ),
{
    reveal_strlit(" ");
    let front = "/usr/bin/printf '\\033]7;kitty-shell-cwd://%s%s\\007' "@ + shell_quoted(host)
        + " "@;
    assert(front.last() == ' ');
    lemma_ends_in_word(front, cwd);
    parts_are_found(Seq::empty(), front, shell_quoted(cwd));
}

/// The command that waits goes on until the file is there.
pub proof fn waiting_names_the_file(file: Seq<char>)
    ensures
        starts_with(wait_command(file), "until [ -e "@ + shell_quoted(file) + " ];"@),
        ends_with(wait_command(file), "done"@),
{
    reveal_strlit(" ]; do /bin/sleep 0.1; done");
    reveal_strlit(" ];");
    reveal_strlit(" do /bin/sleep 0.1; ");
    reveal_strlit("done");
    let front = "until [ -e "@ + shell_quoted(file) + " ];"@;
    let middle = " do /bin/sleep 0.1; "@;
    assert(" ]; do /bin/sleep 0.1; done"@ =~= " ];"@ + middle + "done"@);
    assert(wait_command(file) =~= front + (middle + "done"@));
    parts_are_found(Seq::empty(), front, middle + "done"@);
    assert(wait_command(file) =~= (front + middle) + "done"@);
    parts_are_found(front + middle, "done"@, Seq::empty());
}

/// What is said of a conversation that runs already ends in exactly its identifier,
/// and tells the agent.
pub proof fn running_conversations_are_told(key: KeyModel)
    ensures
        ends_in_word(running_command(key), key.id),
        key.agent == Agent::Amp ==> contains(running_command(key), "Amp thread already running"@),
        key.agent == Agent::Codex ==> contains(
            running_command(key),
            "Codex session already running"@,
        ),
{
    reveal_strlit(" already running: %s\\n' ");
    reveal_strlit("Amp");
    reveal_strlit("thread");
    reveal_strlit("Codex");
    reveal_strlit("session");
    reveal_strlit(" ");
    reveal_strlit("Amp thread already running");
    reveal_strlit("Codex session already running");
    reveal_strlit(": %s\\n' ");
    let front = "/usr/bin/printf '\\n[rz] "@;
    let back = ": %s\\n' "@;
    let told = if key.agent == Agent::Amp {
        "Amp thread already running"@
    } else {
        "Codex session already running"@
    };
    let head = front + told + back;
    assert(running_command(key) =~= head + shell_quoted(key.id));
    assert(head.last() == ' ');
    lemma_ends_in_word(head, key.id);
    assert(running_command(key) =~= front + told + (back + shell_quoted(key.id)));
    parts_are_found(front, told, back + shell_quoted(key.id));
}

// ---------------------------------------------------------------------------
// The commands of a terminal
// ---------------------------------------------------------------------------
/// A terminal first tells its directory, and last resumes its conversation, or opens
/// a shell where it had none or where the conversation runs.
pub proof fn terminals_begin_and_end_so(
    setting: SettingModel,
    terminal: TerminalModel,
    cwd: Seq<char>,
)
    ensures
        terminal_commands(setting, terminal, cwd)[0] == report_command(setting.host, cwd),
        terminal.session() matches Some(key) ==> terminal_commands(setting, terminal, cwd).last()
            == if setting.running_sessions.contains(key) {
            "exec /bin/zsh -l"@
        } else {
            resume_command(key)
        },
        terminal.session() is None ==> terminal_commands(setting, terminal, cwd).last()
            == "exec /bin/zsh -l"@,
        terminal.session() matches Some(key) ==> setting.running_sessions.contains(key)
            ==> terminal_commands(setting, terminal, cwd).contains(running_command(key)),
{
    let all = terminal_commands(setting, terminal, cwd);
    match terminal.session() {
        Some(key) => {
            if setting.running_sessions.contains(key) {
                assert(all[all.len() - 2] == running_command(key));
            }
        },
        None => {},
    }
}

/// A Codex conversation of a terminal comes before an Amp thread of it.
pub proof fn codex_comes_before_amp(terminal: TerminalModel, id: Seq<char>)
    ensures
        terminal.codex_session_id == Some(id) ==> terminal.session() == Some(
            KeyModel { agent: Agent::Codex, id },
        ),
        terminal.codex_session_id is None && terminal.amp_thread_id == Some(id)
            ==> terminal.session() == Some(KeyModel { agent: Agent::Amp, id }),
        terminal.codex_session_id is None && terminal.amp_thread_id is None
            ==> terminal.session() is None,
{
}

/// Saved scrollback that is there is shown, before the terminal goes on; what is not
/// there is not shown.
pub proof fn saved_scrollback_is_shown(
    setting: SettingModel,
    terminal: TerminalModel,
    cwd: Seq<char>,
    relative: Seq<char>,
)
    requires
        terminal.scrollback_file == Some(relative),
    ensures
        setting.scrollback_files.contains(below(setting.snapshot_dir, relative))
            ==> terminal_commands(setting, terminal, cwd).drop_last().contains(
            show_command(below(setting.snapshot_dir, relative)),
        ),
        !setting.scrollback_files.contains(below(setting.snapshot_dir, relative)) ==> showing(
            setting,
            terminal,
        ).len() == 0,
        named_files(setting.snapshot_dir, seq![terminal]) == seq![
            below(setting.snapshot_dir, relative),
        ],
{
    let file = below(setting.snapshot_dir, relative);
    let all = terminal_commands(setting, terminal, cwd);
    if setting.scrollback_files.contains(file) {
        let at = 1 + waiting(setting).len();
        assert(all.drop_last()[at as int] == show_command(file));
    }
    assert(seq![terminal].drop_last() =~= Seq::empty());
    assert(named_files(setting.snapshot_dir, Seq::empty()) =~= Seq::<Seq<char>>::empty());
    assert(named_files(setting.snapshot_dir, seq![terminal]) =~= seq![file]);
}

/// The files that are looked for are those of all terminals.
pub proof fn files_of_all_terminals_are_looked_for(
    snapshot_dir: Seq<char>,
    terminals: Seq<TerminalModel>,
    i: int,
)
    requires
        0 <= i < terminals.len(),
        terminals[i].scrollback_file is Some,
    ensures
        named_files(snapshot_dir, terminals).contains(
            below(snapshot_dir, terminals[i].scrollback_file->0),
        ),
    decreases terminals.len(),
{
    let front = terminals.drop_last();
    let before = named_files(snapshot_dir, front);
    let all = named_files(snapshot_dir, terminals);
    let file = below(snapshot_dir, terminals[i].scrollback_file->0);
    if i < front.len() {
        files_of_all_terminals_are_looked_for(snapshot_dir, front, i);
        let k = choose|k: int| 0 <= k < before.len() && before[k] == file;
        assert(all[k] == file);
    } else {
        assert(all[before.len() as int] == file);
    }
}

/// Scrollback that was captured and is there is shown by the terminal that is restored
/// for it, from the file into which saving puts it.
pub proof fn captured_scrollback_is_shown_again(
    setting: SettingModel,
    row: RowModel,
    pairs: Seq<(Seq<char>, SessionModel)>,
    cwd: Seq<char>,
)
    requires
        row.scrollback_path is Some,
        setting.scrollback_files.contains(below(setting.snapshot_dir, scrollback_name(row))),
    ensures
        terminal_of(prepared_row(row, pairs, true)).scrollback_file == Some(scrollback_name(row)),
        terminal_commands(
            setting,
            terminal_of(prepared_row(row, pairs, true)),
            cwd,
        ).drop_last().contains(
            show_command(below(setting.snapshot_dir, scrollback_name(row))),
        ),
{
    saved_scrollback_is_shown(
        setting,
        terminal_of(prepared_row(row, pairs, true)),
        cwd,
        scrollback_name(row),
    );
}

/// The command of a terminal is a shell with one argument, which it reads as the
/// commands one after the other.
pub proof fn terminals_run_their_commands(
    setting: SettingModel,
    terminal: TerminalModel,
    cwd: Seq<char>,
)
    ensures
        ends_in_word(
            terminal_command(setting, terminal, cwd),
            join(terminal_commands(setting, terminal, cwd), "; "@),
        ),
        starts_with(terminal_command(setting, terminal, cwd), "/bin/zsh -lc "@),
        terminal_command(setting, terminal, cwd).len() == 13 + shell_quoted(
            join(terminal_commands(setting, terminal, cwd), "; "@),
        ).len(),
{
    reveal_strlit("/bin/zsh -lc ");
    let word = join(terminal_commands(setting, terminal, cwd), "; "@);
    lemma_ends_in_word("/bin/zsh -lc "@, word);
    parts_are_found(Seq::empty(), "/bin/zsh -lc "@, shell_quoted(word));
}

/// A terminal starts where it stood; one that stood nowhere starts in the home
/// directory.
pub proof fn terminals_start_where_they_stood(setting: SettingModel, terminal: TerminalModel)
    ensures
        terminal.working_directory.len() > 0 ==> start_directory(setting, terminal)
            == terminal.working_directory,
        terminal.working_directory.len() == 0 ==> start_directory(setting, terminal)
            == setting.home,
{
}

/// A line that gives a text to a variable.
pub open spec fn gives(line: Seq<char>, variable: Seq<char>, text: Seq<char>) -> bool {
    &&& contains(line, variable + " to "@)
    &&& ends_with(line, script_quoted(text))
    &&& script_text(line.skip(line.len() - script_quoted(text).len())) == Some(one_line(text))
}

proof fn lemma_gives(front: Seq<char>, variable: Seq<char>, text: Seq<char>)
    ensures
        gives(front + variable + " to "@ + script_quoted(text), variable, text),
        starts_with(front + variable + " to "@ + script_quoted(text), front),
{
    script_reads_back(text);
    lemma_line_parts(front, variable, " to "@, script_quoted(text));
}

/// What a line of four parts holds.
proof fn lemma_line_parts(a: Seq<char>, b: Seq<char>, c: Seq<char>, d: Seq<char>)
    ensures
        contains(a + b + c + d, b + c),
        ends_with(a + b + c + d, d),
        starts_with(a + b + c + d, a),
        (a + b + c + d).skip((a + b + c + d).len() - d.len()) == d,
{
    let line = a + b + c + d;
    assert(line.skip(line.len() - d.len()) =~= d);
    assert(line =~= a + (b + c) + d);
    parts_are_found(a, b + c, d);
    parts_are_found(a + b + c, d, Seq::empty());
    assert(line =~= a + (b + c + d));
    parts_are_found(Seq::empty(), a, b + c + d);
}

/// A terminal is set up with its directory and its command, and stays open when the
/// command has ended.
pub proof fn terminals_are_set_up(
    setting: SettingModel,
    variable: Seq<char>,
    terminal: TerminalModel,
)
    ensures
        ({
            let lines = configuration_lines(setting, variable, terminal);
            let cwd = start_directory(setting, terminal);
            &&& lines.len() == 4
            &&& lines[0] == "set "@ + variable + " to new surface configuration"@
            &&& starts_with(lines[1], "set initial working directory of "@)
            &&& gives(lines[1], variable, cwd)
            &&& starts_with(lines[2], "set command of "@)
            &&& gives(lines[2], variable, terminal_command(setting, terminal, cwd))
            &&& lines[3] == "set wait after command of "@ + variable + " to true"@
        }),
{
    let cwd = start_directory(setting, terminal);
    lemma_gives("set initial working directory of "@, variable, cwd);
    lemma_gives("set command of "@, variable, terminal_command(setting, terminal, cwd));
}

/// The conversations that are avoided are those that run, and none where the windows
/// that are there are closed.
pub proof fn running_conversations_are_avoided(
    close_existing: bool,
    sessions: Seq<SessionModel>,
    key: KeyModel,
)
    ensures
        keys_to_avoid_of(close_existing, sessions).contains(key) <==> !close_existing && exists|
            i: int,
        |
            0 <= i < sessions.len() && (#[trigger] sessions[i]).agent == key.agent
                && sessions[i].session_id == key.id,
{
    let all = keys_to_avoid_of(close_existing, sessions);
    if !close_existing {
        if all.contains(key) {
            let k = choose|k: int| 0 <= k < all.len() && all[k] == key;
            assert(sessions[k].agent == key.agent && sessions[k].session_id == key.id);
        }
        if exists|i: int|
            0 <= i < sessions.len() && (#[trigger] sessions[i]).agent == key.agent
                && sessions[i].session_id == key.id {
            let i = choose|i: int|
                0 <= i < sessions.len() && (#[trigger] sessions[i]).agent == key.agent
                    && sessions[i].session_id == key.id;
            assert(all[i] == key);
        }
    }
}

// ---------------------------------------------------------------------------
// The lines of a tab
// ---------------------------------------------------------------------------
/// The first tab of a window opens the window, every other a tab of that window; both
/// with the first terminal's set-up, which then has a name.
pub proof fn tabs_are_opened(w: nat, t: nat)
    ensures
        opening_lines(w, 1) == seq![
            "set "@ + window_variable(w) + " to new window with configuration "@ + config_variable(
                w,
                1,
                1,
            ),
            "set "@ + tab_variable(w, 1) + " to selected tab of "@ + window_variable(w),
            "set "@ + surface_variable(w, 1, 1) + " to focused terminal of "@ + tab_variable(w, 1),
        ],
        t != 1 ==> opening_lines(w, t) == seq![
            "set "@ + tab_variable(w, t) + " to new tab in "@ + window_variable(w)
                + " with configuration "@ + config_variable(w, t, 1),
            "set "@ + surface_variable(w, t, 1) + " to focused terminal of "@ + tab_variable(w, t),
        ],
{
}

/// Every line of a tab stands in the script before windows are closed.
pub proof fn lines_of_tabs_are_there(
    setting: SettingModel,
    windows: Seq<WindowModel>,
    close_existing: bool,
    w: nat,
    t: nat,
    line: Seq<char>,
)
    requires
        1 <= w <= windows.len(),
        1 <= t <= windows[w - 1].tabs.len(),
        tab_lines(setting, w, t, windows[w - 1].tabs[t - 1]).contains(line),
    ensures
        opening_part(setting, windows, close_existing).contains(line),
{
    let tabs = windows[w - 1].tabs;
    lemma_tab_in_tabs(setting, w, tabs, tabs.len(), t, line);
    let opened = tabs_lines(setting, w, tabs, tabs.len());
    lemma_in_front(opened, select_lines(w, tabs), line);
    lemma_in_front(opened + select_lines(w, tabs), geometry_lines(windows[w - 1]), line);
    lines_of_windows_are_there(setting, windows, close_existing, w, line);
}

proof fn lemma_tab_in_tabs(
    setting: SettingModel,
    w: nat,
    tabs: Seq<TabModel>,
    n: nat,
    t: nat,
    line: Seq<char>,
)
    requires
        1 <= t <= n,
        tab_lines(setting, w, t, tabs[t - 1]).contains(line),
    ensures
        tabs_lines(setting, w, tabs, n).contains(line),
    decreases n,
{
    let before = tabs_lines(setting, w, tabs, (n - 1) as nat);
    let here = tab_lines(setting, w, n, tabs[n - 1]);
    if t == n {
        lemma_behind(before, here, line);
    } else {
        lemma_tab_in_tabs(setting, w, tabs, (n - 1) as nat, t, line);
        lemma_in_front(before, here, line);
    }
}

/// Every line of a window stands in the script before windows are closed.
pub proof fn lines_of_windows_are_there(
    setting: SettingModel,
    windows: Seq<WindowModel>,
    close_existing: bool,
    w: nat,
    line: Seq<char>,
)
    requires
        1 <= w <= windows.len(),
        window_lines(setting, w, windows[w - 1]).contains(line),
    ensures
        opening_part(setting, windows, close_existing).contains(line),
{
    lemma_window_in_windows(setting, windows, windows.len(), w, line);
    let first = first_lines(close_existing);
    let opened = windows_lines(setting, windows, windows.len());
    lemma_behind(first, opened, line);
    lemma_in_front(first + opened, focus_lines(final_focus(windows, windows.len())), line);
}

proof fn lemma_window_in_windows(
    setting: SettingModel,
    windows: Seq<WindowModel>,
    n: nat,
    w: nat,
    line: Seq<char>,
)
    requires
        1 <= w <= n,
        window_lines(setting, w, windows[w - 1]).contains(line),
    ensures
        windows_lines(setting, windows, n).contains(line),
    decreases n,
{
    let before = windows_lines(setting, windows, (n - 1) as nat);
    let here = window_lines(setting, n, windows[n - 1]);
    if w == n {
        lemma_behind(before, here, line);
    } else {
        lemma_window_in_windows(setting, windows, (n - 1) as nat, w, line);
        lemma_in_front(before, here, line);
    }
}

/// Every terminal of a tab behind the first is opened as a split to the right of the
/// first, with its own set-up; and a tab that has a name gets it.
pub proof fn tabs_are_complete(
    setting: SettingModel,
    w: nat,
    t: nat,
    tab: TabModel,
    n: nat,
)
    requires
        1 <= n <= tab.terminals.len(),
    ensures
        n > 1 ==> tab_lines(setting, w, t, tab).contains(
            "set "@ + surface_variable(w, t, n) + " to split "@ + surface_variable(w, t, 1)
                + " direction right with configuration "@ + config_variable(w, t, n),
        ),
        forall|i: int|
            0 <= i < opening_lines(w, t).len() ==> tab_lines(setting, w, t, tab).contains(
                #[trigger] opening_lines(w, t)[i],
            ),
        tab.name.len() > 0 ==> tab_lines(setting, w, t, tab).contains(
            "perform action "@ + script_quoted("set_tab_title:"@ + tab.name) + " on "@
                + surface_variable(w, t, 1),
        ),
{
    let first = configuration_lines(setting, config_variable(w, t, 1), tab.terminals[0]);
    let opening = opening_lines(w, t);
    let splits = split_lines(setting, w, t, tab.terminals, tab.terminals.len());
    let title = title_lines(w, t, tab.name);
    let all = tab_lines(setting, w, t, tab);
    if n > 1 {
        let line = split_line(w, t, n);
        lemma_split_there(setting, w, t, tab.terminals, tab.terminals.len(), n);
        lemma_behind(first + opening, splits, line);
        lemma_in_front(first + opening + splits, title, line);
    }
    assert forall|i: int| 0 <= i < opening.len() implies all.contains(#[trigger] opening[i]) by {
        assert(opening.contains(opening[i]));
        lemma_behind(first, opening, opening[i]);
        lemma_in_front(first + opening, splits, opening[i]);
        lemma_in_front(first + opening + splits, title, opening[i]);
    }
    if tab.name.len() > 0 {
        assert(title.contains(title[0]));
        lemma_behind(first + opening + splits, title, title[0]);
    }
}

proof fn lemma_split_there(
    setting: SettingModel,
    w: nat,
    t: nat,
    terminals: Seq<TerminalModel>,
    n: nat,
    k: nat,
)
    requires
        1 < k <= n,
    ensures
        split_lines(setting, w, t, terminals, n).contains(split_line(w, t, k)),
    decreases n,
{
    let before = split_lines(setting, w, t, terminals, (n - 1) as nat);
    let here = configuration_lines(setting, config_variable(w, t, n), terminals[n - 1]);
    let all = split_lines(setting, w, t, terminals, n);
    if k == n {
        assert(all[all.len() - 1] == split_line(w, t, k));
    } else {
        lemma_split_there(setting, w, t, terminals, (n - 1) as nat, k);
        lemma_in_front(before, here, split_line(w, t, k));
        let last = seq![split_line(w, t, n)];
        lemma_in_front(before + here, last, split_line(w, t, k));
        assert(all =~= before + here + last);
    }
}

// ---------------------------------------------------------------------------
// Selection, focus and geometry
// ---------------------------------------------------------------------------
/// The tab that was selected is selected again.
pub proof fn the_selected_tab_is_selected(
    setting: SettingModel,
    w: nat,
    window: WindowModel,
    t: nat,
)
    requires
        1 <= t <= window.tabs.len(),
        window.tabs[t - 1].selected,
        window.tabs[t - 1].terminals.len() > 0,
        forall|i: int| t <= i < window.tabs.len() ==> !(#[trigger] window.tabs[i]).selected,
    ensures
        window_lines(setting, w, window).contains("select tab "@ + tab_variable(w, t)),
        window_focus(w, window.tabs) == Some(
            surface_variable(w, t, focused_number(window.tabs[t - 1].terminals)),
        ),
{
    lemma_last_index(window.tabs, was_selected());
    assert(was_selected()(window.tabs[t - 1]));
    let k = last_index(window.tabs, was_selected())->0;
    assert(was_selected()(window.tabs[k]));
    assert(k == t - 1);
    let line = "select tab "@ + tab_variable(w, t);
    let lines = select_lines(w, window.tabs);
    assert(lines[0] == line);
    assert(lines.contains(line));
    let tabs = tabs_lines(setting, w, window.tabs, window.tabs.len());
    lemma_behind(tabs, lines, line);
    lemma_in_front(tabs + lines, geometry_lines(window), line);
}

/// The first terminal of a tab that had the focus gets it; without one, the first.
pub proof fn the_focused_terminal_gets_the_focus(terminals: Seq<TerminalModel>, k: int)
    ensures
        0 <= k < terminals.len() && terminals[k].focused && (forall|i: int|
            0 <= i < k ==> !(#[trigger] terminals[i]).focused) ==> focused_number(terminals)
            == k + 1,
        (forall|i: int| 0 <= i < terminals.len() ==> !(#[trigger] terminals[i]).focused)
            ==> focused_number(terminals) == 1,
{
    lemma_first_index(terminals, had_focus());
    match first_index(terminals, had_focus()) {
        Some(i) => {
            assert(had_focus()(terminals[i]));
            if 0 <= k < terminals.len() && terminals[k].focused && (forall|i: int|
                0 <= i < k ==> !(#[trigger] terminals[i]).focused) {
                assert(had_focus()(terminals[k]));
                assert(i == k);
            }
        },
        None => {
            if 0 <= k < terminals.len() {
                assert(!had_focus()(terminals[k]));
            }
        },
    }
}

/// The terminal of the last window in which a tab was selected gets the focus at the
/// end, before windows are closed.
pub proof fn the_last_selection_gets_the_focus(
    setting: SettingModel,
    windows: Seq<WindowModel>,
    close_existing: bool,
    w: nat,
    terminal: Seq<char>,
)
    requires
        1 <= w <= windows.len(),
        window_focus(w, windows[w - 1].tabs) == Some(terminal),
        forall|i: int|
            w <= i < windows.len() ==> window_focus(
                (i + 1) as nat,
                (#[trigger] windows[i]).tabs,
            ) is None,
    ensures
        opening_part(setting, windows, close_existing).last() == "focus "@ + terminal,
{
    lemma_final_focus(windows, windows.len(), w);
}

proof fn lemma_final_focus(windows: Seq<WindowModel>, n: nat, w: nat)
    requires
        1 <= w <= n <= windows.len(),
        window_focus(w, windows[w - 1].tabs) is Some,
        forall|i: int|
            w <= i < windows.len() ==> window_focus(
                (i + 1) as nat,
                (#[trigger] windows[i]).tabs,
            ) is None,
    ensures
        final_focus(windows, n) == window_focus(w, windows[w - 1].tabs),
    decreases n,
{
    if n > w {
        lemma_final_focus(windows, (n - 1) as nat, w);
        assert(window_focus(n, windows[n - 1].tabs) is None);
    }
}

/// A window whose place and size are known gets both back; else neither is touched.
pub proof fn windows_get_their_place_back(setting: SettingModel, w: nat, window: WindowModel)
    ensures
        window.position matches Some(position) ==> window.size matches Some(size) ==> window_lines(
            setting,
            w,
            window,
        ).contains(
            "set size of front window to {"@ + signed_decimal(size.width as int) + ", "@
                + signed_decimal(size.height as int) + "}"@,
        ) && window_lines(setting, w, window).contains(
            "set position of front window to {"@ + signed_decimal(position.x as int) + ", "@
                + signed_decimal(position.y as int) + "}"@,
        ),
        window.position is None || window.size is None ==> geometry_lines(window).len() == 0,
        geometry_lines(window).len() > 0 ==> geometry_lines(window).len() == 6
            && geometry_lines(window)[0] == "tell application \"System Events\""@
            && geometry_lines(window)[1] == "tell process \"Ghostty\""@ && geometry_lines(window)[4]
            == "end tell"@ && geometry_lines(window)[5] == "end tell"@,
{
    let lines = geometry_lines(window);
    let front = tabs_lines(setting, w, window.tabs, window.tabs.len()) + select_lines(
        w,
        window.tabs,
    );
    if lines.len() > 0 {
        assert(lines.contains(lines[2]));
        assert(lines.contains(lines[3]));
        lemma_behind(front, lines, lines[2]);
        lemma_behind(front, lines, lines[3]);
    }
}

/// A script is one block for Ghostty; it notes the windows that are there exactly
/// where it is to close them, and before it opens any.
pub proof fn scripts_begin_and_end_so(
    setting: SettingModel,
    windows: Seq<WindowModel>,
    close_existing: bool,
)
    ensures
        script_lines(setting, windows, close_existing)[0] == "tell application \"Ghostty\""@,
        script_lines(setting, windows, close_existing)[1] == "activate"@,
        script_lines(setting, windows, close_existing).last() == "end tell"@,
        close_existing ==> script_lines(setting, windows, close_existing)[2]
            == "set rzExistingWindowIds to id of every window"@,
        !close_existing ==> first_lines(close_existing).len() == 2,
{
}

/// Closing the windows that were there makes the ready file, through a script that
/// runs in the background.
pub proof fn closing_makes_the_ready_file(file: Seq<char>)
    ensures
        closing_lines(file).len() == 6,
        contains(
            closing_lines(file)[4],
            script_quoted(
                "do shell script "@ + script_quoted(
                    "/usr/bin/touch -- "@ + shell_quoted(file)
                        + "; /bin/sleep 5; /bin/rm -f -- "@ + shell_quoted(file),
                ),
            ),
        ),
        closing_lines(file)[1] == "repeat with rzExistingWindowId in rzExistingWindowIds"@,
        closing_lines(file)[3] == "end repeat"@,
{
    let path = shell_quoted(file);
    let ready = "/usr/bin/touch -- "@ + path + "; /bin/sleep 5; /bin/rm -f -- "@ + path;
    let helper = "do shell script "@ + script_quoted(ready);
    parts_are_found(
        "set rzCloseScript to rzCloseScript & \"end tell\" & linefeed & "@,
        script_quoted(helper),
        " & linefeed"@,
    );
}

/// A dry run only tells. Else the terminals wait for the ready file exactly where the
/// windows that are there are closed, and it matters which conversations run exactly
/// where those windows stay.
pub proof fn restores_need_what_they_use(close_existing: bool)
    ensures
        action_for(true, close_existing) == RestoreAction::Preview,
        action_for(false, true) == (RestoreAction::Script {
            needs_ready_file: true,
            needs_sessions: false,
        }),
        action_for(false, false) == (RestoreAction::Script {
            needs_ready_file: false,
            needs_sessions: true,
        }),
{
}

} // verus!
