//! The AppleScript that brings a snapshot back.
use vstd::prelude::*;
use vstd::string::*;

use crate::error::Error;
use crate::list::{first_index, first_place, last_index};
use crate::model::{
    Agent, AgentSession, KeyModel, SessionKey, SessionModel, Snapshot, SnapshotModel, Tab, TabModel,
    Terminal, TerminalModel, Window, WindowModel, agent_label, agent_unit, all_terminals, key_views,
    lemma_window_terminals_step, lemma_windows_terminals_step, session_views, terminal_ref_views,
    terminal_views, window_terminals, windows_terminals,
};
use crate::number::{decimal, decimal_text, signed_decimal, signed_text};
use crate::path::{below, join_path};
use crate::quote::{applescript_string, script_quoted, shell_quote, shell_quoted};
use crate::text::{holds_text, join, joined, push_text, same, texts};

verus! {

// ---------------------------------------------------------------------------
// The command of a terminal
// ---------------------------------------------------------------------------
/// What a restored workspace is restored into.
pub struct RestoreSetting<'a> {
    /// The name of the machine.
    pub host: &'a str,
    /// The directory of the snapshot.
    pub snapshot_dir: &'a str,
    /// The conversations that run already.
    pub running_sessions: &'a Vec<SessionKey>,
    /// The directory for terminals that have none.
    pub home: &'a str,
    /// The file for which every terminal waits, if there is one.
    pub ready_file: Option<&'a str>,
    /// The files of saved scrollback that are there.
    pub scrollback_files: &'a Vec<String>,
}

/// The view of a `RestoreSetting`.
pub struct SettingModel {
    pub host: Seq<char>,
    pub snapshot_dir: Seq<char>,
    pub running_sessions: Seq<KeyModel>,
    pub home: Seq<char>,
    pub ready_file: Option<Seq<char>>,
    pub scrollback_files: Seq<Seq<char>>,
}

impl<'a> View for RestoreSetting<'a> {
    type V = SettingModel;

    open spec fn view(&self) -> SettingModel {
        SettingModel {
            host: self.host@,
            snapshot_dir: self.snapshot_dir@,
            running_sessions: key_views(self.running_sessions@),
            home: self.home@,
            ready_file: match self.ready_file {
                Some(file) => Some(file@),
                None => None,
            },
            scrollback_files: texts(self.scrollback_files@),
        }
    }
}

/// The command that tells Ghostty the working directory.
pub open spec fn report_command(host: Seq<char>, cwd: Seq<char>) -> Seq<char> {
    "/usr/bin/printf '\\033]7;kitty-shell-cwd://%s%s\\007' "@ + shell_quoted(host) + " "@
        + shell_quoted(cwd)
}

/// The command that waits for a file.
pub open spec fn wait_command(file: Seq<char>) -> Seq<char> {
    "until [ -e "@ + shell_quoted(file) + " ]; do /bin/sleep 0.1; done"@
}

/// The command that shows a file.
pub open spec fn show_command(file: Seq<char>) -> Seq<char> {
    "/bin/cat -- "@ + shell_quoted(file)
}

/// The command that resumes a conversation.
pub open spec fn resume_command(key: KeyModel) -> Seq<char> {
    match key.agent {
        Agent::Amp => "exec amp threads continue "@ + shell_quoted(key.id),
        Agent::Codex => "exec codex resume "@ + shell_quoted(key.id),
    }
}

/// The command that says that a conversation runs already.
pub open spec fn running_command(key: KeyModel) -> Seq<char> {
    "/usr/bin/printf '\\n[rz] "@ + agent_label(key.agent) + " "@ + agent_unit(key.agent)
        + " already running: %s\\n' "@ + shell_quoted(key.id)
}

/// The command that opens a shell.
pub open spec fn login_command() -> Seq<char> {
    "exec /bin/zsh -l"@
}

/// The commands that wait for the ready file, if there is one.
pub open spec fn waiting(setting: SettingModel) -> Seq<Seq<char>> {
    match setting.ready_file {
        Some(file) => seq![wait_command(file)],
        None => Seq::empty(),
    }
}

/// Where the saved scrollback of a terminal stands.
pub open spec fn scrollback_of(snapshot_dir: Seq<char>, terminal: TerminalModel) -> Option<
    Seq<char>,
> {
    match terminal.scrollback_file {
        Some(relative) => Some(below(snapshot_dir, relative)),
        None => None,
    }
}

/// The commands that show the saved scrollback, if it is there.
pub open spec fn showing(setting: SettingModel, terminal: TerminalModel) -> Seq<Seq<char>> {
    match scrollback_of(setting.snapshot_dir, terminal) {
        Some(file) => if setting.scrollback_files.contains(file) {
            seq![show_command(file)]
        } else {
            Seq::empty()
        },
        None => Seq::empty(),
    }
}

/// The commands that end in the conversation of the terminal, or in a shell where
/// it had none or where it runs already.
pub open spec fn ending(running: Seq<KeyModel>, terminal: TerminalModel) -> Seq<Seq<char>> {
    match terminal.session() {
        Some(key) => if running.contains(key) {
            seq![running_command(key), login_command()]
        } else {
            seq![resume_command(key)]
        },
        None => seq![login_command()],
    }
}

/// What a terminal runs, one command after the other.
pub open spec fn terminal_commands(
    setting: SettingModel,
    terminal: TerminalModel,
    cwd: Seq<char>,
) -> Seq<Seq<char>> {
    seq![report_command(setting.host, cwd)] + waiting(setting) + showing(setting, terminal)
        + ending(setting.running_sessions, terminal)
}

/// The command of a terminal.
pub open spec fn terminal_command(
    setting: SettingModel,
    terminal: TerminalModel,
    cwd: Seq<char>,
) -> Seq<char> {
    "/bin/zsh -lc "@ + shell_quoted(join(terminal_commands(setting, terminal, cwd), "; "@))
}

/// The conversations of `terminals` that run already.
pub open spec fn already_running(terminals: Seq<TerminalModel>, running: Seq<KeyModel>) -> Seq<
    KeyModel,
>
    decreases terminals.len(),
{
    if terminals.len() == 0 {
        Seq::empty()
    } else {
        let before = already_running(terminals.drop_last(), running);
        match terminals.last().session() {
            Some(key) => if running.contains(key) {
                before.push(key)
            } else {
                before
            },
            None => before,
        }
    }
}

/// `hostname::get` as text, which is empty where it fails. Nothing is promised of
/// it: it depends on the machine.
#[verifier::external_body]
fn host_name() -> (r: String) {
    hostname::get().unwrap_or_default().to_string_lossy().into_owned()
}

/// The command that tells Ghostty the working directory.
pub fn working_directory_report_command(host: &str, cwd: &str) -> (r: String)
    ensures
        r@ == report_command(host@, cwd@),
{
    let mut r = "/usr/bin/printf '\\033]7;kitty-shell-cwd://%s%s\\007' ".to_owned();
    r.append(shell_quote(host).as_str());
    r.append(" ");
    r.append(shell_quote(cwd).as_str());
    r
}

/// Whether `key` is among `keys`.
pub fn holds_key(keys: &Vec<SessionKey>, key: &SessionKey) -> (r: bool)
    ensures
        r == key_views(keys@).contains(key@),
{
    let ghost model = key_views(keys@);
    let mut i: usize = 0;
    while i < keys.len()
        invariant
            model == key_views(keys@),
            i <= keys@.len(),
            forall|k: int| 0 <= k < i ==> #[trigger] model[k] != key@,
        decreases keys@.len() - i,
    {
        if keys[i].agent == key.agent && same(keys[i].id.as_str(), key.id.as_str()) {
            assert(model[i as int] == key@);
            return true;
        }
        assert(model[i as int] != key@);
        i = i + 1;
    }
    false
}

/// What one more terminal adds to the conversations that run already.
pub open spec fn running_here(terminal: TerminalModel, running: Seq<KeyModel>) -> Seq<KeyModel> {
    match terminal.session() {
        Some(key) => if running.contains(key) {
            seq![key]
        } else {
            Seq::empty()
        },
        None => Seq::empty(),
    }
}

/// The command that resumes a conversation.
fn resume_text(key: &SessionKey) -> (r: String)
    ensures
        r@ == resume_command(key@),
{
    let mut r = match key.agent {
        Agent::Amp => "exec amp threads continue ".to_owned(),
        Agent::Codex => "exec codex resume ".to_owned(),
    };
    r.append(shell_quote(key.id.as_str()).as_str());
    r
}

/// The command that says that a conversation runs already.
fn running_text(key: &SessionKey) -> (r: String)
    ensures
        r@ == running_command(key@),
{
    let mut r = "/usr/bin/printf '\\n[rz] ".to_owned();
    r.append(key.agent.label());
    r.append(" ");
    r.append(key.agent.unit());
    r.append(" already running: %s\\n' ");
    r.append(shell_quote(key.id.as_str()).as_str());
    r
}

/// The command of a terminal. A conversation that runs already is added to
/// `duplicates`.
pub fn restore_command(
    terminal: &Terminal,
    setting: &RestoreSetting<'_>,
    duplicates: &mut Vec<SessionKey>,
    cwd: &str,
) -> (r: String)
    ensures
        r@ == terminal_command(setting@, terminal@, cwd@),
        key_views(final(duplicates)@) == key_views(old(duplicates)@) + running_here(
            terminal@,
            setting@.running_sessions,
        ),
{
    let ghost model = setting@;
    let mut commands: Vec<String> = Vec::new();
    push_text(&mut commands, working_directory_report_command(setting.host, cwd));
    assert(texts(commands@) =~= seq![report_command(model.host, cwd@)]);
    if let Some(ready_file) = setting.ready_file {
        let mut wait = "until [ -e ".to_owned();
        wait.append(shell_quote(ready_file).as_str());
        wait.append(" ]; do /bin/sleep 0.1; done");
        push_text(&mut commands, wait);
    }
    assert(texts(commands@) =~= seq![report_command(model.host, cwd@)] + waiting(model));
    if let Some(relative) = &terminal.scrollback_file {
        let scrollback = join_path(setting.snapshot_dir, relative.as_str());
        if holds_text(setting.scrollback_files, scrollback.as_str()) {
            let mut show = "/bin/cat -- ".to_owned();
            show.append(shell_quote(scrollback.as_str()).as_str());
            push_text(&mut commands, show);
        }
    }
    let ghost before = seq![report_command(model.host, cwd@)] + waiting(model) + showing(
        model,
        terminal@,
    );
    assert(texts(commands@) =~= before);
    let ghost found = duplicates@;
    match terminal.session() {
        Some(session) => {
            let key = session.key();
            if holds_key(setting.running_sessions, &key) {
                push_text(&mut commands, running_text(&key));
                push_text(&mut commands, "exec /bin/zsh -l".to_owned());
                duplicates.push(key);
                assert(key_views(duplicates@) =~= key_views(found) + seq![key@]);
            } else {
                push_text(&mut commands, resume_text(&key));
                assert(key_views(duplicates@) =~= key_views(found) + Seq::<KeyModel>::empty());
            }
        },
        None => {
            push_text(&mut commands, "exec /bin/zsh -l".to_owned());
            assert(key_views(duplicates@) =~= key_views(found) + Seq::<KeyModel>::empty());
        },
    }
    assert(texts(commands@) =~= terminal_commands(model, terminal@, cwd@));
    let mut r = "/bin/zsh -lc ".to_owned();
    r.append(shell_quote(joined(&commands, "; ").as_str()).as_str());
    r
}

// ---------------------------------------------------------------------------
// The lines of the script
// ---------------------------------------------------------------------------
/// A script variable for window `w`.
pub open spec fn window_variable(w: nat) -> Seq<char> {
    "rzWindow"@ + decimal(w)
}

/// A script variable for tab `t` of window `w`.
pub open spec fn tab_variable(w: nat, t: nat) -> Seq<char> {
    "rzTab"@ + decimal(w) + "_"@ + decimal(t)
}

/// A script variable for terminal `n` of tab `t` of window `w`.
pub open spec fn terminal_variable(prefix: Seq<char>, w: nat, t: nat, n: nat) -> Seq<char> {
    prefix + decimal(w) + "_"@ + decimal(t) + "_"@ + decimal(n)
}

/// The script variable for the terminal itself.
pub open spec fn surface_variable(w: nat, t: nat, n: nat) -> Seq<char> {
    terminal_variable("rzTerminal"@, w, t, n)
}

/// The script variable for how the terminal is set up.
pub open spec fn config_variable(w: nat, t: nat, n: nat) -> Seq<char> {
    terminal_variable("rzConfig"@, w, t, n)
}

/// The directory in which a terminal starts.
pub open spec fn start_directory(setting: SettingModel, terminal: TerminalModel) -> Seq<char> {
    if terminal.working_directory.len() == 0 {
        setting.home
    } else {
        terminal.working_directory
    }
}

/// The lines that set a terminal up.
pub open spec fn configuration_lines(
    setting: SettingModel,
    variable: Seq<char>,
    terminal: TerminalModel,
) -> Seq<Seq<char>> {
    let cwd = start_directory(setting, terminal);
    seq![
        "set "@ + variable + " to new surface configuration"@,
        "set initial working directory of "@ + variable + " to "@ + script_quoted(cwd),
        "set command of "@ + variable + " to "@ + script_quoted(
            terminal_command(setting, terminal, cwd),
        ),
        "set wait after command of "@ + variable + " to true"@,
    ]
}

/// The lines that open the first terminal of a tab: in a new window for the first
/// tab, else in a new tab of that window.
pub open spec fn opening_lines(w: nat, t: nat) -> Seq<Seq<char>> {
    if t == 1 {
        seq![
            "set "@ + window_variable(w) + " to new window with configuration "@ + config_variable(
                w,
                t,
                1,
            ),
            "set "@ + tab_variable(w, t) + " to selected tab of "@ + window_variable(w),
            "set "@ + surface_variable(w, t, 1) + " to focused terminal of "@ + tab_variable(w, t),
        ]
    } else {
        seq![
            "set "@ + tab_variable(w, t) + " to new tab in "@ + window_variable(w)
                + " with configuration "@ + config_variable(w, t, 1),
            "set "@ + surface_variable(w, t, 1) + " to focused terminal of "@ + tab_variable(w, t),
        ]
    }
}

/// The line that opens terminal `n` beside the first one.
pub open spec fn split_line(w: nat, t: nat, n: nat) -> Seq<char> {
    "set "@ + surface_variable(w, t, n) + " to split "@ + surface_variable(w, t, 1)
        + " direction right with configuration "@ + config_variable(w, t, n)
}

/// The lines that open the terminals behind the first one, up to terminal `n`.
pub open spec fn split_lines(
    setting: SettingModel,
    w: nat,
    t: nat,
    terminals: Seq<TerminalModel>,
    n: nat,
) -> Seq<Seq<char>>
    decreases n,
{
    if n <= 1 {
        Seq::empty()
    } else {
        (split_lines(setting, w, t, terminals, (n - 1) as nat) + configuration_lines(
            setting,
            config_variable(w, t, n),
            terminals[n - 1],
        )).push(split_line(w, t, n))
    }
}

/// The line that names a tab, if it has a name.
pub open spec fn title_lines(w: nat, t: nat, name: Seq<char>) -> Seq<Seq<char>> {
    if name.len() == 0 {
        Seq::empty()
    } else {
        seq![
            "perform action "@ + script_quoted("set_tab_title:"@ + name) + " on "@
                + surface_variable(w, t, 1),
        ]
    }
}

/// The lines that open tab `t` of window `w`. A tab without terminals is left out.
pub open spec fn tab_lines(setting: SettingModel, w: nat, t: nat, tab: TabModel) -> Seq<
    Seq<char>,
> {
    if tab.terminals.len() == 0 {
        Seq::empty()
    } else {
        configuration_lines(setting, config_variable(w, t, 1), tab.terminals[0]) + opening_lines(
            w,
            t,
        ) + split_lines(setting, w, t, tab.terminals, tab.terminals.len()) + title_lines(
            w,
            t,
            tab.name,
        )
    }
}

/// The lines that open the first `n` tabs of window `w`.
pub open spec fn tabs_lines(setting: SettingModel, w: nat, tabs: Seq<TabModel>, n: nat) -> Seq<
    Seq<char>,
>
    decreases n,
{
    if n == 0 {
        Seq::empty()
    } else {
        tabs_lines(setting, w, tabs, (n - 1) as nat) + tab_lines(setting, w, n, tabs[n - 1])
    }
}

/// Accepts tabs that were selected and are restored.
pub open spec fn was_selected() -> spec_fn(TabModel) -> bool {
    |tab: TabModel| tab.selected && tab.terminals.len() > 0
}

/// Accepts terminals that had the focus.
pub open spec fn had_focus() -> spec_fn(TerminalModel) -> bool {
    |terminal: TerminalModel| terminal.focused
}

/// The number of the terminal that gets the focus: the first that had it, else the
/// first.
pub open spec fn focused_number(terminals: Seq<TerminalModel>) -> nat {
    match first_index(terminals, had_focus()) {
        Some(i) => (i + 1) as nat,
        None => 1,
    }
}

/// The line that selects the tab of window `w` that was selected; of several, the
/// last.
pub open spec fn select_lines(w: nat, tabs: Seq<TabModel>) -> Seq<Seq<char>> {
    match last_index(tabs, was_selected()) {
        Some(i) => seq!["select tab "@ + tab_variable(w, (i + 1) as nat)],
        None => Seq::empty(),
    }
}

/// The terminal of window `w` that gets the focus.
pub open spec fn window_focus(w: nat, tabs: Seq<TabModel>) -> Option<Seq<char>> {
    match last_index(tabs, was_selected()) {
        Some(i) => Some(surface_variable(w, (i + 1) as nat, focused_number(tabs[i].terminals))),
        None => None,
    }
}

/// The terminal that gets the focus: of the last of the first `n` windows that has
/// one.
pub open spec fn final_focus(windows: Seq<WindowModel>, n: nat) -> Option<Seq<char>>
    decreases n,
{
    if n == 0 {
        None
    } else {
        match window_focus(n, windows[n - 1].tabs) {
            Some(terminal) => Some(terminal),
            None => final_focus(windows, (n - 1) as nat),
        }
    }
}

/// The lines that put a window in its place, where it is known.
pub open spec fn geometry_lines(window: WindowModel) -> Seq<Seq<char>> {
    match (window.position, window.size) {
        (Some(position), Some(size)) => seq![
            "tell application \"System Events\""@,
            "tell process \"Ghostty\""@,
            "set size of front window to {"@ + signed_decimal(size.width as int) + ", "@
                + signed_decimal(size.height as int) + "}"@,
            "set position of front window to {"@ + signed_decimal(position.x as int) + ", "@
                + signed_decimal(position.y as int) + "}"@,
            "end tell"@,
            "end tell"@,
        ],
        _ => Seq::empty(),
    }
}

/// The lines that open window `w`.
pub open spec fn window_lines(setting: SettingModel, w: nat, window: WindowModel) -> Seq<
    Seq<char>,
> {
    tabs_lines(setting, w, window.tabs, window.tabs.len()) + select_lines(w, window.tabs)
        + geometry_lines(window)
}

/// The lines that open the first `n` windows.
pub open spec fn windows_lines(setting: SettingModel, windows: Seq<WindowModel>, n: nat) -> Seq<
    Seq<char>,
>
    decreases n,
{
    if n == 0 {
        Seq::empty()
    } else {
        windows_lines(setting, windows, (n - 1) as nat) + window_lines(setting, n, windows[n - 1])
    }
}

/// The line that sets the focus, if a terminal gets it.
pub open spec fn focus_lines(focus: Option<Seq<char>>) -> Seq<Seq<char>> {
    match focus {
        Some(terminal) => seq!["focus "@ + terminal],
        None => Seq::empty(),
    }
}

/// The line that begins the script which closes windows.
pub const CLOSE_START: &'static str =
    "set rzCloseScript to \"delay 1\" & linefeed & \"tell application \\\"Ghostty\\\"\" & linefeed";

/// The line that adds to it how one window is closed and the question about it
/// is answered.
pub const CLOSE_WINDOW: &'static str =
    "set rzCloseScript to rzCloseScript & \"try\" & linefeed & \"set rzWindowToClose to first window whose id is \" & quote & (rzExistingWindowId as text) & quote & linefeed & \"set rzTerminalToClose to focused terminal of selected tab of rzWindowToClose\" & linefeed & \"perform action \\\"close_window\\\" on rzTerminalToClose\" & linefeed & \"delay 0.2\" & linefeed & \"tell application \\\"System Events\\\"\" & linefeed & \"tell process \\\"Ghostty\\\"\" & linefeed & \"set rzDidConfirmClose to false\" & linefeed & \"repeat 10 times\" & linefeed & \"repeat with rzUiWindow in every window\" & linefeed & \"if exists sheet 1 of rzUiWindow then\" & linefeed & \"if exists static text \\\"Close Window?\\\" of sheet 1 of rzUiWindow then\" & linefeed & \"click button \\\"Close\\\" of sheet 1 of rzUiWindow\" & linefeed & \"set rzDidConfirmClose to true\" & linefeed & \"exit repeat\" & linefeed & \"end if\" & linefeed & \"end if\" & linefeed & \"end repeat\" & linefeed & \"if rzDidConfirmClose then exit repeat\" & linefeed & \"delay 0.05\" & linefeed & \"end repeat\" & linefeed & \"end tell\" & linefeed & \"end tell\" & linefeed & \"end try\" & linefeed";

/// The line that runs it in the background.
pub const CLOSE_RUN: &'static str =
    "do shell script \"/usr/bin/nohup /usr/bin/osascript -e \" & quoted form of rzCloseScript & \" >/dev/null 2>&1 &\"";

/// The lines that close the windows that were there before, once the ready file
/// has been made.
pub open spec fn closing_lines(ready_file: Seq<char>) -> Seq<Seq<char>> {
    let path = shell_quoted(ready_file);
    let ready = "/usr/bin/touch -- "@ + path + "; /bin/sleep 5; /bin/rm -f -- "@ + path;
    let helper = "do shell script "@ + script_quoted(ready);
    seq![
        CLOSE_START@,
        "repeat with rzExistingWindowId in rzExistingWindowIds"@,
        CLOSE_WINDOW@,
        "end repeat"@,
        "set rzCloseScript to rzCloseScript & \"end tell\" & linefeed & "@ + script_quoted(helper)
            + " & linefeed"@,
        CLOSE_RUN@,
    ]
}

/// The lines with which a script begins.
pub open spec fn first_lines(close_existing: bool) -> Seq<Seq<char>> {
    let start = seq!["tell application \"Ghostty\""@, "activate"@];
    if close_existing {
        start.push("set rzExistingWindowIds to id of every window"@)
    } else {
        start
    }
}

/// The lines with which a script ends.
pub open spec fn last_lines(close_existing: bool, ready_file: Option<Seq<char>>) -> Seq<Seq<char>> {
    match ready_file {
        Some(file) => if close_existing {
            closing_lines(file).push("end tell"@)
        } else {
            seq!["end tell"@]
        },
        None => seq!["end tell"@],
    }
}

/// The lines of the script.
pub open spec fn script_lines(
    setting: SettingModel,
    windows: Seq<WindowModel>,
    close_existing: bool,
) -> Seq<Seq<char>> {
    first_lines(close_existing) + windows_lines(setting, windows, windows.len()) + focus_lines(
        final_focus(windows, windows.len()),
    ) + last_lines(close_existing, setting.ready_file)
}

/// `s` with each item once, where it first stands.
pub open spec fn distinct(s: Seq<KeyModel>) -> Seq<KeyModel>
    decreases s.len(),
{
    if s.len() == 0 {
        Seq::empty()
    } else {
        let before = distinct(s.drop_last());
        if before.contains(s.last()) {
            before
        } else {
            before.push(s.last())
        }
    }
}

/// How a workspace is restored.
#[derive(Debug)]
pub struct RestorePlan {
    /// The script that restores it.
    pub script: String,
    /// The conversations that are not resumed because they run already.
    pub duplicates: Vec<SessionKey>,
}

/// The view of a `RestorePlan`.
pub struct PlanModel {
    pub script: Seq<char>,
    pub duplicates: Seq<KeyModel>,
}

impl View for RestorePlan {
    type V = PlanModel;

    open spec fn view(&self) -> PlanModel {
        PlanModel { script: self.script@, duplicates: key_views(self.duplicates@) }
    }
}

/// How `snapshot` is restored. To close the windows that are there, a ready file
/// is needed.
pub open spec fn plan_for(
    setting: SettingModel,
    snapshot: SnapshotModel,
    close_existing: bool,
) -> Result<PlanModel, Seq<char>> {
    if close_existing && setting.ready_file is None {
        Err("missing restore readiness file"@)
    } else {
        Ok(
            PlanModel {
                script: join(script_lines(setting, snapshot.windows, close_existing), "\n"@),
                duplicates: distinct(
                    already_running(snapshot.terminals(), setting.running_sessions),
                ),
            },
        )
    }
}

// ---------------------------------------------------------------------------
// Writing the script
// ---------------------------------------------------------------------------
/// A script variable for a terminal.
fn terminal_variable_text(prefix: &str, w: usize, t: usize, n: usize) -> (r: String)
    ensures
        r@ == terminal_variable(prefix@, w as nat, t as nat, n as nat),
{
    let mut r = prefix.to_owned();
    r.append(decimal_text(w as u64).as_str());
    r.append("_");
    r.append(decimal_text(t as u64).as_str());
    r.append("_");
    r.append(decimal_text(n as u64).as_str());
    r
}

/// The script variable for a window.
fn window_variable_text(w: usize) -> (r: String)
    ensures
        r@ == window_variable(w as nat),
{
    let mut r = "rzWindow".to_owned();
    r.append(decimal_text(w as u64).as_str());
    r
}

/// The script variable for a tab.
fn tab_variable_text(w: usize, t: usize) -> (r: String)
    ensures
        r@ == tab_variable(w as nat, t as nat),
{
    let mut r = "rzTab".to_owned();
    r.append(decimal_text(w as u64).as_str());
    r.append("_");
    r.append(decimal_text(t as u64).as_str());
    r
}

/// A line of four parts.
fn line_of(a: &str, b: &str, c: &str, d: &str) -> (r: String)
    ensures
        r@ == a@ + b@ + c@ + d@,
{
    let mut r = a.to_owned();
    r.append(b);
    r.append(c);
    r.append(d);
    r
}

/// A line of three parts.
fn line_of_three(a: &str, b: &str, c: &str) -> (r: String)
    ensures
        r@ == a@ + b@ + c@,
{
    let mut r = a.to_owned();
    r.append(b);
    r.append(c);
    r
}

/// Adds the lines that set a terminal up. A conversation that runs already is
/// added to `duplicates`.
pub fn append_configuration(
    lines: &mut Vec<String>,
    variable: &str,
    terminal: &Terminal,
    setting: &RestoreSetting<'_>,
    duplicates: &mut Vec<SessionKey>,
)
    ensures
        texts(final(lines)@) == texts(old(lines)@) + configuration_lines(
            setting@,
            variable@,
            terminal@,
        ),
        key_views(final(duplicates)@) == key_views(old(duplicates)@) + running_here(
            terminal@,
            setting@.running_sessions,
        ),
{
    let ghost before = texts(lines@);
    let cwd = if terminal.working_directory.as_str().is_empty() {
        setting.home
    } else {
        terminal.working_directory.as_str()
    };
    assert(cwd@ == start_directory(setting@, terminal@));
    push_text(lines, line_of_three("set ", variable, " to new surface configuration"));
    push_text(
        lines,
        line_of(
            "set initial working directory of ",
            variable,
            " to ",
            applescript_string(cwd).as_str(),
        ),
    );
    let command = restore_command(terminal, setting, duplicates, cwd);
    push_text(
        lines,
        line_of(
            "set command of ",
            variable,
            " to ",
            applescript_string(command.as_str()).as_str(),
        ),
    );
    push_text(lines, line_of_three("set wait after command of ", variable, " to true"));
    assert(texts(lines@) =~= before + configuration_lines(setting@, variable@, terminal@));
}

/// Adds the lines that close the windows that were there before.
pub fn append_close_existing(lines: &mut Vec<String>, ready_file: Option<&str>) -> (r: Result<
    (),
    Error,
>)
    ensures
        match ready_file {
            Some(file) => r is Ok && texts(final(lines)@) == texts(old(lines)@) + closing_lines(
                file@,
            ),
            None => final(lines)@ == old(lines)@ && match r {
                Ok(_) => false,
                Err(e) => e@ == "missing restore readiness file"@,
            },
        },
{
    let ghost before = texts(lines@);
    let file = match ready_file {
        Some(file) => file,
        None => return Err(Error::from_text("missing restore readiness file")),
    };
    let path = shell_quote(file);
    let mut ready = "/usr/bin/touch -- ".to_owned();
    ready.append(path.as_str());
    ready.append("; /bin/sleep 5; /bin/rm -f -- ");
    ready.append(path.as_str());
    let mut helper = "do shell script ".to_owned();
    helper.append(applescript_string(ready.as_str()).as_str());
    push_text(lines, CLOSE_START.to_owned());
    push_text(lines, "repeat with rzExistingWindowId in rzExistingWindowIds".to_owned());
    push_text(lines, CLOSE_WINDOW.to_owned());
    push_text(lines, "end repeat".to_owned());
    push_text(
        lines,
        line_of_three(
            "set rzCloseScript to rzCloseScript & \"end tell\" & linefeed & ",
            applescript_string(helper.as_str()).as_str(),
            " & linefeed",
        ),
    );
    push_text(lines, CLOSE_RUN.to_owned());
    assert(texts(lines@) =~= before + closing_lines(file@));
    Ok(())
}

/// Adds the lines that put a window in its place.
pub fn append_window_geometry(lines: &mut Vec<String>, window: &Window)
    ensures
        texts(final(lines)@) == texts(old(lines)@) + geometry_lines(window@),
{
    let ghost before = texts(lines@);
    match (window.position, window.size) {
        (Some(position), Some(size)) => {
            push_text(lines, "tell application \"System Events\"".to_owned());
            push_text(lines, "tell process \"Ghostty\"".to_owned());
            let mut first = "set size of front window to {".to_owned();
            first.append(signed_text(size.width).as_str());
            first.append(", ");
            first.append(signed_text(size.height).as_str());
            first.append("}");
            push_text(lines, first);
            let mut second = "set position of front window to {".to_owned();
            second.append(signed_text(position.x).as_str());
            second.append(", ");
            second.append(signed_text(position.y).as_str());
            second.append("}");
            push_text(lines, second);
            push_text(lines, "end tell".to_owned());
            push_text(lines, "end tell".to_owned());
        },
        _ => {},
    }
    assert(texts(lines@) =~= before + geometry_lines(window@));
}

/// Adds the lines that open the first terminal of a tab.
fn append_opening(lines: &mut Vec<String>, w: usize, t: usize)
    ensures
        texts(final(lines)@) == texts(old(lines)@) + opening_lines(w as nat, t as nat),
{
    let ghost before = texts(lines@);
    let window = window_variable_text(w);
    let tab = tab_variable_text(w, t);
    let config = terminal_variable_text("rzConfig", w, t, 1);
    let surface = terminal_variable_text("rzTerminal", w, t, 1);
    if t == 1 {
        push_text(
            lines,
            line_of(
                "set ",
                window.as_str(),
                " to new window with configuration ",
                config.as_str(),
            ),
        );
        push_text(
            lines,
            line_of("set ", tab.as_str(), " to selected tab of ", window.as_str()),
        );
    } else {
        let mut line = line_of("set ", tab.as_str(), " to new tab in ", window.as_str());
        line.append(" with configuration ");
        line.append(config.as_str());
        push_text(lines, line);
    }
    push_text(
        lines,
        line_of("set ", surface.as_str(), " to focused terminal of ", tab.as_str()),
    );
    assert(texts(lines@) =~= before + opening_lines(w as nat, t as nat));
}

/// Adds the line that opens a terminal beside the first one.
fn append_split(lines: &mut Vec<String>, w: usize, t: usize, n: usize)
    ensures
        texts(final(lines)@) == texts(old(lines)@).push(split_line(w as nat, t as nat, n as nat)),
{
    let surface = terminal_variable_text("rzTerminal", w, t, n);
    let first = terminal_variable_text("rzTerminal", w, t, 1);
    let config = terminal_variable_text("rzConfig", w, t, n);
    let mut line = line_of("set ", surface.as_str(), " to split ", first.as_str());
    line.append(" direction right with configuration ");
    line.append(config.as_str());
    push_text(lines, line);
}

/// The conversations that run already, with one more terminal.
proof fn lemma_already_running_push(
    terminals: Seq<TerminalModel>,
    terminal: TerminalModel,
    running: Seq<KeyModel>,
)
    ensures
        already_running(terminals.push(terminal), running) == already_running(terminals, running)
            + running_here(terminal, running),
{
    assert(terminals.push(terminal).drop_last() =~= terminals);
    assert(already_running(terminals.push(terminal), running) =~= already_running(
        terminals,
        running,
    ) + running_here(terminal, running));
}

/// Adds the lines that open a tab.
fn append_tab(
    lines: &mut Vec<String>,
    w: usize,
    t: usize,
    tab: &Tab,
    setting: &RestoreSetting<'_>,
    duplicates: &mut Vec<SessionKey>,
    Ghost(done): Ghost<Seq<TerminalModel>>,
)
    requires
        key_views(old(duplicates)@) == already_running(done, setting@.running_sessions),
    ensures
        texts(final(lines)@) == texts(old(lines)@) + tab_lines(
            setting@,
            w as nat,
            t as nat,
            tab@,
        ),
        key_views(final(duplicates)@) == already_running(
            done + tab@.terminals,
            setting@.running_sessions,
        ),
{
    let ghost model = setting@;
    let ghost running = model.running_sessions;
    let ghost before = texts(lines@);
    let ghost terminals = tab@.terminals;
    if tab.terminals.len() == 0 {
        assert(done + terminals =~= done);
        assert(texts(lines@) =~= before + Seq::<Seq<char>>::empty());
        return ;
    }
    assert(terminals[0] == tab.terminals@[0]@);
    let config = terminal_variable_text("rzConfig", w, t, 1);
    append_configuration(lines, config.as_str(), &tab.terminals[0], setting, duplicates);
    proof {
        lemma_already_running_push(done, terminals[0], running);
        assert(done.push(terminals[0]) =~= done + terminals.take(1));
    }
    append_opening(lines, w, t);
    let ghost opened = before + configuration_lines(
        model,
        config_variable(w as nat, t as nat, 1),
        terminals[0],
    ) + opening_lines(w as nat, t as nat);
    assert(texts(lines@) =~= opened + split_lines(model, w as nat, t as nat, terminals, 1));
    let mut i: usize = 1;
    while i < tab.terminals.len()
        invariant
            model == setting@,
            running == model.running_sessions,
            terminals == tab@.terminals,
            1 <= i <= tab.terminals@.len(),
            texts(lines@) == opened + split_lines(
                model,
                w as nat,
                t as nat,
                terminals,
                i as nat,
            ),
            key_views(duplicates@) == already_running(done + terminals.take(i as int), running),
        decreases tab.terminals@.len() - i,
    {
        let n: usize = i + 1;
        let ghost earlier = split_lines(model, w as nat, t as nat, terminals, i as nat);
        assert(terminals[i as int] == tab.terminals@[i as int]@);
        let config = terminal_variable_text("rzConfig", w, t, n);
        append_configuration(lines, config.as_str(), &tab.terminals[i], setting, duplicates);
        append_split(lines, w, t, n);
        proof {
            lemma_already_running_push(
                done + terminals.take(i as int),
                terminals[i as int],
                running,
            );
            assert((done + terminals.take(i as int)).push(terminals[i as int]) =~= done
                + terminals.take(i + 1));
            assert(texts(lines@) =~= opened + split_lines(
                model,
                w as nat,
                t as nat,
                terminals,
                n as nat,
            ));
        }
        i = n;
    }
    assert(terminals.take(i as int) == terminals);
    if !tab.name.as_str().is_empty() {
        let mut action = "set_tab_title:".to_owned();
        action.append(tab.name.as_str());
        let surface = terminal_variable_text("rzTerminal", w, t, 1);
        push_text(
            lines,
            line_of(
                "perform action ",
                applescript_string(action.as_str()).as_str(),
                " on ",
                surface.as_str(),
            ),
        );
    }
    assert(texts(lines@) =~= before + tab_lines(model, w as nat, t as nat, tab@));
}

/// The number of the terminal that gets the focus.
fn focused_terminal(terminals: &Vec<Terminal>) -> (r: usize)
    ensures
        r == focused_number(terminal_views(terminals@)),
{
    let ghost model = terminal_views(terminals@);
    let accepts = |k: usize| -> (b: bool)
        requires
            k < terminals@.len(),
        ensures
            b == terminals@[k as int].focused,
    { terminals[k].focused };
    match first_place::<TerminalModel, _>(
        terminals.len(),
        accepts,
        Ghost(model),
        Ghost(had_focus()),
    ) {
        Some(i) => i + 1,
        None => 1,
    }
}

/// Adds the lines that open a window, and returns the terminal of it that gets the
/// focus.
fn append_window(
    lines: &mut Vec<String>,
    w: usize,
    window: &Window,
    setting: &RestoreSetting<'_>,
    duplicates: &mut Vec<SessionKey>,
    Ghost(done): Ghost<Seq<TerminalModel>>,
) -> (r: Option<String>)
    requires
        key_views(old(duplicates)@) == already_running(done, setting@.running_sessions),
    ensures
        texts(final(lines)@) == texts(old(lines)@) + window_lines(setting@, w as nat, window@),
        key_views(final(duplicates)@) == already_running(
            done + window_terminals(window@.tabs),
            setting@.running_sessions,
        ),
        match r {
            Some(terminal) => window_focus(w as nat, window@.tabs) == Some(terminal@),
            None => window_focus(w as nat, window@.tabs) is None,
        },
{
    let ghost model = setting@;
    let ghost before = texts(lines@);
    let ghost tabs = window@.tabs;
    let mut chosen: Option<usize> = None;
    let mut i: usize = 0;
    assert(texts(lines@) =~= before + tabs_lines(model, w as nat, tabs, 0));
    assert(window_terminals(tabs.take(0)) =~= Seq::empty());
    assert(done + window_terminals(tabs.take(0)) =~= done);
    while i < window.tabs.len()
        invariant
            model == setting@,
            tabs == window@.tabs,
            i <= window.tabs@.len(),
            texts(lines@) == before + tabs_lines(model, w as nat, tabs, i as nat),
            key_views(duplicates@) == already_running(
                done + window_terminals(tabs.take(i as int)),
                model.running_sessions,
            ),
            match chosen {
                Some(k) => k < i && last_index(tabs.take(i as int), was_selected()) == Some(
                    k as int,
                ),
                None => last_index(tabs.take(i as int), was_selected()) is None,
            },
        decreases window.tabs@.len() - i,
    {
        let tab = &window.tabs[i];
        proof {
            assert(tabs[i as int] == tab@);
            assert(tabs.take(i + 1).drop_last() == tabs.take(i as int));
            assert(tabs.take(i + 1).last() == tab@);
            lemma_window_terminals_step(tabs, i as int);
            assert(done + window_terminals(tabs.take(i as int)) + tab@.terminals =~= done
                + window_terminals(tabs.take(i + 1)));
        }
        let ghost so_far = done + window_terminals(tabs.take(i as int));
        append_tab(lines, w, i + 1, tab, setting, duplicates, Ghost(so_far));
        if tab.selected && tab.terminals.len() > 0 {
            chosen = Some(i);
        }
        assert(texts(lines@) =~= before + tabs_lines(model, w as nat, tabs, (i + 1) as nat));
        i = i + 1;
    }
    assert(tabs.take(i as int) == tabs);
    let focus = match chosen {
        Some(k) => {
            let mut line = "select tab ".to_owned();
            line.append(tab_variable_text(w, k + 1).as_str());
            push_text(lines, line);
            assert(tabs[k as int] == window.tabs@[k as int]@);
            let number: usize = focused_terminal(&window.tabs[k].terminals);
            Some(terminal_variable_text("rzTerminal", w, k + 1, number))
        },
        None => None,
    };
    append_window_geometry(lines, window);
    assert(texts(lines@) =~= before + window_lines(model, w as nat, window@));
    focus
}

/// `keys` with each one once, where it first stands.
fn distinct_keys(keys: Vec<SessionKey>) -> (r: Vec<SessionKey>)
    ensures
        key_views(r@) == distinct(key_views(keys@)),
{
    let ghost model = key_views(keys@);
    let mut r: Vec<SessionKey> = Vec::new();
    let mut i: usize = 0;
    assert(key_views(r@) =~= distinct(model.take(0)));
    while i < keys.len()
        invariant
            model == key_views(keys@),
            i <= keys@.len(),
            key_views(r@) == distinct(model.take(i as int)),
        decreases keys@.len() - i,
    {
        proof {
            assert(model.take(i + 1).drop_last() == model.take(i as int));
            assert(model.take(i + 1).last() == keys@[i as int]@);
        }
        if !holds_key(&r, &keys[i]) {
            let ghost before = r@;
            r.push(keys[i].clone());
            assert(key_views(r@) =~= key_views(before).push(keys@[i as int]@));
        }
        i = i + 1;
    }
    assert(model.take(keys@.len() as int) == model);
    r
}

/// How `snapshot` is restored in `setting`.
pub fn restore_plan(
    snapshot: &Snapshot,
    setting: &RestoreSetting<'_>,
    close_existing: bool,
) -> (r: Result<RestorePlan, Error>)
    ensures
        match r {
            Ok(plan) => plan_for(setting@, snapshot@, close_existing) == Ok::<
                PlanModel,
                Seq<char>,
            >(plan@),
            Err(e) => plan_for(setting@, snapshot@, close_existing) == Err::<PlanModel, Seq<char>>(
                e@,
            ),
        },
{
    let ghost model = setting@;
    let ghost windows = snapshot@.windows;
    let mut lines: Vec<String> = Vec::new();
    push_text(&mut lines, "tell application \"Ghostty\"".to_owned());
    push_text(&mut lines, "activate".to_owned());
    if close_existing {
        push_text(&mut lines, "set rzExistingWindowIds to id of every window".to_owned());
    }
    assert(texts(lines@) =~= first_lines(close_existing));
    let mut duplicates: Vec<SessionKey> = Vec::new();
    let mut focus: Option<String> = None;
    let mut i: usize = 0;
    assert(texts(lines@) =~= first_lines(close_existing) + windows_lines(model, windows, 0));
    assert(windows_terminals(windows.take(0)) =~= Seq::empty());
    assert(key_views(duplicates@) =~= already_running(
        windows_terminals(windows.take(0)),
        model.running_sessions,
    ));
    while i < snapshot.windows.len()
        invariant
            model == setting@,
            windows == snapshot@.windows,
            i <= snapshot.windows@.len(),
            texts(lines@) == first_lines(close_existing) + windows_lines(
                model,
                windows,
                i as nat,
            ),
            key_views(duplicates@) == already_running(
                windows_terminals(windows.take(i as int)),
                model.running_sessions,
            ),
            match focus {
                Some(terminal) => final_focus(windows, i as nat) == Some(terminal@),
                None => final_focus(windows, i as nat) is None,
            },
        decreases snapshot.windows@.len() - i,
    {
        let window = &snapshot.windows[i];
        proof {
            assert(windows[i as int] == window@);
            lemma_windows_terminals_step(windows, i as int);
        }
        let ghost so_far = windows_terminals(windows.take(i as int));
        let here = append_window(
            &mut lines,
            i + 1,
            window,
            setting,
            &mut duplicates,
            Ghost(so_far),
        );
        if here.is_some() {
            focus = here;
        }
        assert(texts(lines@) =~= first_lines(close_existing) + windows_lines(
            model,
            windows,
            (i + 1) as nat,
        ));
        i = i + 1;
    }
    assert(windows.take(i as int) == windows);
    if let Some(terminal) = &focus {
        let mut line = "focus ".to_owned();
        line.append(terminal.as_str());
        push_text(&mut lines, line);
    }
    let ghost body = first_lines(close_existing) + windows_lines(model, windows, windows.len())
        + focus_lines(final_focus(windows, windows.len()));
    assert(texts(lines@) =~= body);
    if close_existing {
        match append_close_existing(&mut lines, setting.ready_file) {
            Ok(_) => {},
            Err(e) => return Err(e),
        }
    }
    push_text(&mut lines, "end tell".to_owned());
    assert(texts(lines@) =~= script_lines(model, windows, close_existing));
    Ok(RestorePlan { script: joined(&lines, "\n"), duplicates: distinct_keys(duplicates) })
}

/// How `snapshot` is restored on this machine.
pub fn restore_script(
    snapshot: &Snapshot,
    snapshot_dir: &str,
    running_sessions: &Vec<SessionKey>,
    home: &str,
    close_existing: bool,
    ready_file: Option<&str>,
    scrollback_files: &Vec<String>,
) -> (r: Result<RestorePlan, Error>)
    ensures
        exists|setting: SettingModel|
            {
                &&& setting.snapshot_dir == snapshot_dir@
                &&& setting.running_sessions == key_views(running_sessions@)
                &&& setting.home == home@
                &&& setting.ready_file == match ready_file {
                    Some(file) => Some(file@),
                    None => None,
                }
                &&& setting.scrollback_files == texts(scrollback_files@)
                &&& match r {
                    Ok(plan) => #[trigger] plan_for(setting, snapshot@, close_existing) == Ok::<
                        PlanModel,
                        Seq<char>,
                    >(plan@),
                    Err(e) => plan_for(setting, snapshot@, close_existing) == Err::<
                        PlanModel,
                        Seq<char>,
                    >(e@),
                }
            },
{
    let host = host_name();
    let setting = RestoreSetting {
        host: host.as_str(),
        snapshot_dir,
        running_sessions,
        home,
        ready_file,
        scrollback_files,
    };
    let r = restore_plan(snapshot, &setting, close_existing);
    let ghost model = setting@;
    assert(plan_for(model, snapshot@, close_existing) is Ok || plan_for(
        model,
        snapshot@,
        close_existing,
    ) is Err);
    r
}

/// The files of saved scrollback that the terminals name.
pub open spec fn named_files(snapshot_dir: Seq<char>, terminals: Seq<TerminalModel>) -> Seq<
    Seq<char>,
>
    decreases terminals.len(),
{
    if terminals.len() == 0 {
        Seq::empty()
    } else {
        let before = named_files(snapshot_dir, terminals.drop_last());
        match scrollback_of(snapshot_dir, terminals.last()) {
            Some(file) => before.push(file),
            None => before,
        }
    }
}

/// The files of saved scrollback that a snapshot names, in the order of its
/// terminals.
pub fn scrollback_candidates(snapshot: &Snapshot, snapshot_dir: &str) -> (r: Vec<String>)
    ensures
        texts(r@) == named_files(snapshot_dir@, snapshot@.terminals()),
{
    let terminals = all_terminals(snapshot);
    let ghost model = snapshot@.terminals();
    let mut r: Vec<String> = Vec::new();
    let mut i: usize = 0;
    assert(texts(r@) =~= named_files(snapshot_dir@, model.take(0)));
    while i < terminals.len()
        invariant
            terminal_ref_views(terminals@) == model,
            i <= terminals@.len(),
            texts(r@) == named_files(snapshot_dir@, model.take(i as int)),
        decreases terminals@.len() - i,
    {
        proof {
            assert(model.take(i + 1).drop_last() == model.take(i as int));
            assert(model.take(i + 1).last() == model[i as int]);
            assert(model[i as int] == terminals@[i as int]@);
        }
        if let Some(relative) = &terminals[i].scrollback_file {
            push_text(&mut r, join_path(snapshot_dir, relative.as_str()));
        }
        i = i + 1;
    }
    assert(model.take(terminals@.len() as int) == model);
    r
}

/// The conversations that are not to be resumed: those that run, unless the windows
/// in which they run are about to be closed.
pub open spec fn keys_to_avoid_of(close_existing: bool, sessions: Seq<SessionModel>) -> Seq<
    KeyModel,
> {
    if close_existing {
        Seq::empty()
    } else {
        sessions.map_values(|s: SessionModel| s.key())
    }
}

/// The conversations that are not to be resumed.
pub fn keys_to_avoid(close_existing: bool, sessions: &Vec<AgentSession>) -> (r: Vec<SessionKey>)
    ensures
        key_views(r@) == keys_to_avoid_of(close_existing, session_views(sessions@)),
{
    let ghost all = session_views(sessions@).map_values(|s: SessionModel| s.key());
    let mut r: Vec<SessionKey> = Vec::new();
    if close_existing {
        assert(key_views(r@) =~= Seq::<KeyModel>::empty());
        return r;
    }
    let mut i: usize = 0;
    while i < sessions.len()
        invariant
            all == session_views(sessions@).map_values(|s: SessionModel| s.key()),
            i <= sessions@.len(),
            key_views(r@) == all.take(i as int),
        decreases sessions@.len() - i,
    {
        let ghost before = r@;
        r.push(sessions[i].key());
        assert(all[i as int] == sessions@[i as int]@.key());
        assert(key_views(r@) =~= key_views(before).push(all[i as int]));
        assert(all.take(i + 1) =~= all.take(i as int).push(all[i as int]));
        i = i + 1;
    }
    assert(all.take(sessions@.len() as int) == all);
    r
}

// ---------------------------------------------------------------------------
// What a restore does
// ---------------------------------------------------------------------------
/// What is done with a snapshot that is to be restored.
#[derive(Debug, Clone, Copy, PartialEq, Eq, Structural)]
pub enum RestoreAction {
    /// Tell what would be restored, and nothing else.
    Preview,
    /// Make the script.
    Script {
        /// Whether the terminals wait for a file.
        needs_ready_file: bool,
        /// Whether it matters which conversations run.
        needs_sessions: bool,
    },
}

/// What is done with a snapshot that is to be restored: a dry run only previews it.
/// Else the terminals wait for a file where the windows that are there are closed,
/// and the conversations that run matter where those windows stay.
pub open spec fn action_for(dry_run: bool, close_existing: bool) -> RestoreAction {
    if dry_run {
        RestoreAction::Preview
    } else {
        RestoreAction::Script { needs_ready_file: close_existing, needs_sessions: !close_existing }
    }
}

/// What is done with a snapshot that is to be restored.
pub fn restore_action(dry_run: bool, close_existing: bool) -> (r: RestoreAction)
    ensures
        r == action_for(dry_run, close_existing),
{
    if dry_run {
        RestoreAction::Preview
    } else {
        RestoreAction::Script { needs_ready_file: close_existing, needs_sessions: !close_existing }
    }
}

/// Whether the script is printed in place of being run: where the variable for it
/// is `1`.
pub fn script_is_printed(variable: Option<&str>) -> (r: bool)
    ensures
        r == match variable {
            Some(value) => value@ == "1"@,
            None => false,
        },
{
    match variable {
        Some(value) => same(value, "1"),
        None => false,
    }
}

} // verus!
