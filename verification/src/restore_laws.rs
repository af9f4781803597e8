//! What holds of every script that restores a snapshot.
use vstd::prelude::*;
use vstd::string::*;

use crate::model::{
    KeyModel, RowModel, SessionModel, SnapshotModel, TabModel, TerminalModel, WindowModel,
};
use crate::number::{decimal, decimal_is_injective, lemma_decimal_digits};
use crate::quote::script_quoted;
use crate::restore::{
    RestoreAction, SettingModel, action_for, already_running, closing_lines, config_variable,
    configuration_lines, distinct, ending, final_focus, first_lines, focus_lines, geometry_lines,
    login_command, opening_lines, plan_for, report_command, resume_command, script_lines,
    select_lines, showing, split_line, split_lines, start_directory, tab_lines, tabs_lines,
    terminal_command, terminal_commands, terminal_variable, title_lines, wait_command, waiting,
    window_lines, windows_lines,
};
use crate::snapshot::terminal_of;
use crate::text::{lemma_separated, starts_with};

verus! {

/// A terminal whose conversation runs already ends in a shell: nothing in its
/// commands resumes the conversation.
pub proof fn running_conversations_are_not_resumed(
    setting: SettingModel,
    terminal: TerminalModel,
    cwd: Seq<char>,
)
    requires
        terminal.session() matches Some(key) ==> setting.running_sessions.contains(key),
    ensures
        terminal_commands(setting, terminal, cwd).last() == login_command(),
        forall|i: int|
            0 <= i < terminal_commands(setting, terminal, cwd).len() ==> !starts_with(
                #[trigger] terminal_commands(setting, terminal, cwd)[i],
                "exec amp"@,
            ) && !starts_with(
                terminal_commands(setting, terminal, cwd)[i],
                "exec codex"@,
            ),
{
    reveal_strlit("exec amp");
    reveal_strlit("exec codex");
    reveal_strlit("exec /bin/zsh -l");
    reveal_strlit("/usr/bin/printf '\\033]7;kitty-shell-cwd://%s%s\\007' ");
    reveal_strlit("until [ -e ");
    reveal_strlit("/bin/cat -- ");
    reveal_strlit("/usr/bin/printf '\\n[rz] ");
    let all = terminal_commands(setting, terminal, cwd);
    assert forall|i: int| 0 <= i < all.len() implies !starts_with(
        #[trigger] all[i],
        "exec amp"@,
    ) && !starts_with(all[i], "exec codex"@) by {
        let c = all[i];
        if starts_with(c, "exec amp"@) {
            assert(c.subrange(0, 8)[0] == 'e' && c.subrange(0, 8)[5] == 'a');
            assert(c[0] == 'e' && c[5] == 'a');
        }
        if starts_with(c, "exec codex"@) {
            assert(c.subrange(0, 10)[0] == 'e' && c.subrange(0, 10)[5] == 'c');
            assert(c[0] == 'e' && c[5] == 'c');
        }
        let n = 1 + waiting(setting).len() + showing(setting, terminal).len();
        if i == 0 {
            assert(c == report_command(setting.host, cwd));
            assert(c[0] == '/');
        } else if i < 1 + waiting(setting).len() {
            assert(c == waiting(setting)[i - 1]);
            assert(c[0] == 'u');
        } else if i < n {
            assert(c == showing(setting, terminal)[i - 1 - waiting(setting).len()]);
            assert(c[0] == '/');
        } else {
            assert(c == ending(setting.running_sessions, terminal)[i - n]);
            if terminal.session() is Some && i == n {
                assert(c[0] == '/');
            } else {
                assert(c == login_command());
                assert(c[5] == '/');
            }
        }
    }
}

proof fn lemma_already_running(terminals: Seq<TerminalModel>, running: Seq<KeyModel>)
    ensures
        forall|key: KeyModel|
            #[trigger] already_running(terminals, running).contains(key) <==> running.contains(key)
                && exists|i: int|
                0 <= i < terminals.len() && (#[trigger] terminals[i]).session() == Some(key),
    decreases terminals.len(),
{
    if terminals.len() > 0 {
        let front = terminals.drop_last();
        let before = already_running(front, running);
        let all = already_running(terminals, running);
        lemma_already_running(front, running);
        assert forall|key: KeyModel| #[trigger] all.contains(key) <==> running.contains(key)
            && exists|i: int|
            0 <= i < terminals.len() && (#[trigger] terminals[i]).session() == Some(key) by {
            if all.contains(key) {
                let k = choose|k: int| 0 <= k < all.len() && all[k] == key;
                if k < before.len() {
                    assert(before[k] == key);
                    assert(before.contains(key));
                    let i = choose|i: int|
                        0 <= i < front.len() && (#[trigger] front[i]).session() == Some(key);
                    assert(terminals[i].session() == Some(key));
                } else {
                    assert(terminals[terminals.len() - 1].session() == Some(key));
                }
            }
            if running.contains(key) && exists|i: int|
                0 <= i < terminals.len() && (#[trigger] terminals[i]).session() == Some(key) {
                let i = choose|i: int|
                    0 <= i < terminals.len() && (#[trigger] terminals[i]).session() == Some(key);
                if i < front.len() {
                    assert(front[i].session() == Some(key));
                    assert(before.contains(key));
                    let k = choose|k: int| 0 <= k < before.len() && before[k] == key;
                    assert(all[k] == key);
                } else {
                    assert(all[before.len() as int] == key);
                }
            }
        }
    }
}

proof fn lemma_distinct(s: Seq<KeyModel>)
    ensures
        distinct(s).no_duplicates(),
        forall|key: KeyModel| #[trigger] distinct(s).contains(key) <==> s.contains(key),
    decreases s.len(),
{
    if s.len() > 0 {
        let front = s.drop_last();
        let before = distinct(front);
        let all = distinct(s);
        lemma_distinct(front);
        assert forall|key: KeyModel| #[trigger] all.contains(key) <==> s.contains(key) by {
            if all.contains(key) {
                let k = choose|k: int| 0 <= k < all.len() && all[k] == key;
                if k < before.len() {
                    assert(before[k] == key);
                    assert(before.contains(key));
                    assert(front.contains(key));
                    let i = choose|i: int| 0 <= i < front.len() && front[i] == key;
                    assert(s[i] == key);
                } else {
                    assert(s[s.len() - 1] == key);
                }
            }
            if s.contains(key) {
                let i = choose|i: int| 0 <= i < s.len() && s[i] == key;
                if i < front.len() {
                    assert(front[i] == key);
                    assert(front.contains(key));
                    assert(before.contains(key));
                    let k = choose|k: int| 0 <= k < before.len() && before[k] == key;
                    assert(all[k] == key);
                } else if !before.contains(key) {
                    assert(all[before.len() as int] == key);
                }
            }
        }
    }
}

/// The conversations that a plan reports as running are exactly those of the
/// snapshot that run, and each is reported once.
pub proof fn duplicates_are_the_running_ones(
    setting: SettingModel,
    snapshot: SnapshotModel,
    close_existing: bool,
)
    requires
        plan_for(setting, snapshot, close_existing) is Ok,
    ensures
        ({
            let duplicates = plan_for(setting, snapshot, close_existing)->Ok_0.duplicates;
            &&& duplicates.no_duplicates()
            &&& forall|key: KeyModel|
                #[trigger] duplicates.contains(key) <==> setting.running_sessions.contains(key)
                    && exists|i: int|
                    0 <= i < snapshot.terminals().len() && (
                    #[trigger] snapshot.terminals()[i]).session() == Some(key)
        }),
{
    lemma_already_running(snapshot.terminals(), setting.running_sessions);
    lemma_distinct(already_running(snapshot.terminals(), setting.running_sessions));
}

/// Different terminals have different variables in a script.
pub proof fn terminal_variables_differ(
    prefix: Seq<char>,
    w: nat,
    t: nat,
    n: nat,
    w2: nat,
    t2: nat,
    n2: nat,
)
    requires
        terminal_variable(prefix, w, t, n) == terminal_variable(prefix, w2, t2, n2),
    ensures
        w == w2 && t == t2 && n == n2,
{
    reveal_strlit("_");
    let mark = seq!['_'];
    assert("_"@ =~= mark);
    let one = decimal(w) + mark + (decimal(t) + mark + decimal(n));
    let two = decimal(w2) + mark + (decimal(t2) + mark + decimal(n2));
    assert(terminal_variable(prefix, w, t, n) =~= prefix + one);
    assert(terminal_variable(prefix, w2, t2, n2) =~= prefix + two);
    assert(one =~= (prefix + one).skip(prefix.len() as int));
    assert(two =~= (prefix + two).skip(prefix.len() as int));
    lemma_decimal_digits(w);
    lemma_decimal_digits(w2);
    lemma_decimal_digits(t);
    lemma_decimal_digits(t2);
    lemma_separated(
        decimal(w),
        decimal(w2),
        '_',
        decimal(t) + mark + decimal(n),
        decimal(t2) + mark + decimal(n2),
    );
    lemma_separated(decimal(t), decimal(t2), '_', decimal(n), decimal(n2));
    decimal_is_injective(w, w2);
    decimal_is_injective(t, t2);
    decimal_is_injective(n, n2);
}

/// The line that gives a terminal its command.
pub open spec fn command_line(
    setting: SettingModel,
    w: nat,
    t: nat,
    n: nat,
    terminal: TerminalModel,
) -> Seq<char> {
    "set command of "@ + config_variable(w, t, n) + " to "@ + script_quoted(
        terminal_command(setting, terminal, start_directory(setting, terminal)),
    )
}

pub proof fn lemma_in_front<T>(a: Seq<T>, b: Seq<T>, x: T)
    requires
        a.contains(x),
    ensures
        (a + b).contains(x),
{
    let k = choose|k: int| 0 <= k < a.len() && a[k] == x;
    assert((a + b)[k] == x);
}

pub proof fn lemma_behind<T>(a: Seq<T>, b: Seq<T>, x: T)
    requires
        b.contains(x),
    ensures
        (a + b).contains(x),
{
    let k = choose|k: int| 0 <= k < b.len() && b[k] == x;
    assert((a + b)[a.len() + k] == x);
}

proof fn lemma_configured(
    setting: SettingModel,
    w: nat,
    t: nat,
    n: nat,
    terminal: TerminalModel,
)
    ensures
        configuration_lines(setting, config_variable(w, t, n), terminal).contains(
            command_line(setting, w, t, n, terminal),
        ),
{
    assert(configuration_lines(setting, config_variable(w, t, n), terminal)[2] == command_line(
        setting,
        w,
        t,
        n,
        terminal,
    ));
}

proof fn lemma_split_opens(
    setting: SettingModel,
    w: nat,
    t: nat,
    terminals: Seq<TerminalModel>,
    n: nat,
    k: nat,
)
    requires
        1 < k <= n,
    ensures
        split_lines(setting, w, t, terminals, n).contains(
            command_line(setting, w, t, k, terminals[k - 1]),
        ),
    decreases n,
{
    let line = command_line(setting, w, t, k, terminals[k - 1]);
    let before = split_lines(setting, w, t, terminals, (n - 1) as nat);
    let here = configuration_lines(setting, config_variable(w, t, n), terminals[n - 1]);
    let last = seq![split_line(w, t, n)];
    assert(split_lines(setting, w, t, terminals, n) =~= before + here + last);
    if k == n {
        lemma_configured(setting, w, t, k, terminals[k - 1]);
        lemma_behind(before, here, line);
    } else {
        lemma_split_opens(setting, w, t, terminals, (n - 1) as nat, k);
        lemma_in_front(before, here, line);
    }
    lemma_in_front(before + here, last, line);
}

proof fn lemma_tab_opens(setting: SettingModel, w: nat, t: nat, tab: TabModel, k: nat)
    requires
        1 <= k <= tab.terminals.len(),
    ensures
        tab_lines(setting, w, t, tab).contains(
            command_line(setting, w, t, k, tab.terminals[k - 1]),
        ),
{
    let line = command_line(setting, w, t, k, tab.terminals[k - 1]);
    let first = configuration_lines(setting, config_variable(w, t, 1), tab.terminals[0]);
    let opening = opening_lines(w, t);
    let splits = split_lines(setting, w, t, tab.terminals, tab.terminals.len());
    let title = title_lines(w, t, tab.name);
    if k == 1 {
        lemma_configured(setting, w, t, 1, tab.terminals[0]);
        lemma_in_front(first, opening, line);
        lemma_in_front(first + opening, splits, line);
    } else {
        lemma_split_opens(setting, w, t, tab.terminals, tab.terminals.len(), k);
        lemma_behind(first + opening, splits, line);
    }
    lemma_in_front(first + opening + splits, title, line);
}

proof fn lemma_tabs_open(setting: SettingModel, w: nat, tabs: Seq<TabModel>, n: nat, t: nat, k: nat)
    requires
        1 <= t <= n,
        1 <= k <= tabs[t - 1].terminals.len(),
    ensures
        tabs_lines(setting, w, tabs, n).contains(
            command_line(setting, w, t, k, tabs[t - 1].terminals[k - 1]),
        ),
    decreases n,
{
    let line = command_line(setting, w, t, k, tabs[t - 1].terminals[k - 1]);
    let before = tabs_lines(setting, w, tabs, (n - 1) as nat);
    let here = tab_lines(setting, w, n, tabs[n - 1]);
    if t == n {
        lemma_tab_opens(setting, w, t, tabs[t - 1], k);
        lemma_behind(before, here, line);
    } else {
        lemma_tabs_open(setting, w, tabs, (n - 1) as nat, t, k);
        lemma_in_front(before, here, line);
    }
}

proof fn lemma_windows_open(
    setting: SettingModel,
    windows: Seq<WindowModel>,
    n: nat,
    w: nat,
    t: nat,
    k: nat,
)
    requires
        1 <= w <= n,
        1 <= t <= windows[w - 1].tabs.len(),
        1 <= k <= windows[w - 1].tabs[t - 1].terminals.len(),
    ensures
        windows_lines(setting, windows, n).contains(
            command_line(setting, w, t, k, windows[w - 1].tabs[t - 1].terminals[k - 1]),
        ),
    decreases n,
{
    let line = command_line(setting, w, t, k, windows[w - 1].tabs[t - 1].terminals[k - 1]);
    let before = windows_lines(setting, windows, (n - 1) as nat);
    let here = window_lines(setting, n, windows[n - 1]);
    if w == n {
        let tabs = windows[w - 1].tabs;
        let opened = tabs_lines(setting, w, tabs, tabs.len());
        lemma_tabs_open(setting, w, tabs, tabs.len(), t, k);
        lemma_in_front(opened, select_lines(w, tabs), line);
        lemma_in_front(opened + select_lines(w, tabs), geometry_lines(windows[w - 1]), line);
        lemma_behind(before, here, line);
    } else {
        lemma_windows_open(setting, windows, (n - 1) as nat, w, t, k);
        lemma_in_front(before, here, line);
    }
}

/// The lines of a script before those that close windows.
pub open spec fn opening_part(
    setting: SettingModel,
    windows: Seq<WindowModel>,
    close_existing: bool,
) -> Seq<Seq<char>> {
    first_lines(close_existing) + windows_lines(setting, windows, windows.len()) + focus_lines(
        final_focus(windows, windows.len()),
    )
}

/// A script opens every terminal of the snapshot, each with its own command, before
/// it closes any window that was there; and it closes none unless it is asked to.
pub proof fn workspace_is_complete_before_windows_close(
    setting: SettingModel,
    windows: Seq<WindowModel>,
    close_existing: bool,
    w: nat,
    t: nat,
    k: nat,
)
    requires
        1 <= w <= windows.len(),
        1 <= t <= windows[w - 1].tabs.len(),
        1 <= k <= windows[w - 1].tabs[t - 1].terminals.len(),
    ensures
        opening_part(setting, windows, close_existing).contains(
            command_line(setting, w, t, k, windows[w - 1].tabs[t - 1].terminals[k - 1]),
        ),
        script_lines(setting, windows, close_existing) == opening_part(
            setting,
            windows,
            close_existing,
        ) + (match setting.ready_file {
            Some(file) if close_existing => closing_lines(file),
            _ => Seq::empty(),
        }) + seq!["end tell"@],
{
    let line = command_line(setting, w, t, k, windows[w - 1].tabs[t - 1].terminals[k - 1]);
    let first = first_lines(close_existing);
    let opened = windows_lines(setting, windows, windows.len());
    lemma_windows_open(setting, windows, windows.len(), w, t, k);
    lemma_behind(first, opened, line);
    lemma_in_front(first + opened, focus_lines(final_focus(windows, windows.len())), line);
    assert(script_lines(setting, windows, close_existing) =~= opening_part(
        setting,
        windows,
        close_existing,
    ) + (match setting.ready_file {
        Some(file) if close_existing => closing_lines(file),
        _ => Seq::empty(),
    }) + seq!["end tell"@]);
}

/// A conversation that was noted when a terminal was saved is what the restored
/// terminal resumes, by its exact identifier, unless it runs already; and the
/// terminal starts where it stood.
pub proof fn saved_conversation_is_resumed(
    setting: SettingModel,
    row: RowModel,
    session: SessionModel,
    cwd: Seq<char>,
)
    requires
        row.agent_session == Some(session),
        !setting.running_sessions.contains(session.key()),
    ensures
        terminal_of(row).session() == Some(session.key()),
        terminal_commands(setting, terminal_of(row), cwd).last() == resume_command(session.key()),
        row.working_directory.len() > 0 ==> start_directory(setting, terminal_of(row))
            == row.working_directory,
{
}

/// Where there is a ready file, every terminal waits for it before it resumes a
/// conversation or opens a shell.
pub proof fn terminals_wait_for_the_ready_file(
    setting: SettingModel,
    terminal: TerminalModel,
    cwd: Seq<char>,
    file: Seq<char>,
)
    requires
        setting.ready_file == Some(file),
    ensures
        terminal_commands(setting, terminal, cwd).len() >= 3,
        terminal_commands(setting, terminal, cwd)[1] == wait_command(file),
{
}

/// A dry run never comes to a script; and with the ready file that is asked for, the
/// script can always be made.
pub proof fn scripts_get_what_they_need(
    setting: SettingModel,
    snapshot: SnapshotModel,
    dry_run: bool,
    close_existing: bool,
)
    ensures
        dry_run <==> action_for(dry_run, close_existing) == RestoreAction::Preview,
        action_for(dry_run, close_existing) matches RestoreAction::Script {
            needs_ready_file,
            ..
        } && (needs_ready_file ==> setting.ready_file is Some) ==> plan_for(
            setting,
            snapshot,
            close_existing,
        ) is Ok,
{
}

} // verus!
