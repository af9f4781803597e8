//! What a snapshot, a captured row and a watcher are made of.
//!
//! Each type that holds text has a view in which the text is a sequence of
//! characters; contracts speak of the views.
use vstd::prelude::*;

use crate::list::flat;
use crate::text::{copy_optional, optional_text, texts};

verus! {

/// The version of the snapshots that are written and read.
pub const SNAPSHOT_VERSION: u32 = 1;

/// A saved workspace.
#[derive(Debug, Clone)]
pub struct Snapshot {
    pub version: u32,
    pub name: String,
    pub id: String,
    pub saved_at: String,
    pub timestamp: String,
    pub ghostty_version: String,
    pub tabs_count: usize,
    pub terminals_count: usize,
    pub scrollback_captured: bool,
    pub scope: Scope,
    pub windows: Vec<Window>,
    pub detected_codex_sessions: Vec<AgentSession>,
    pub detected_amp_threads: Vec<AgentSession>,
    pub warnings: Vec<String>,
    pub limitations: Vec<String>,
}

/// What a snapshot was taken of.
#[derive(Debug, Clone)]
pub enum Scope {
    /// One window.
    Window { window_id: String },
    /// Every window.
    AllWindows,
}

/// A window of a snapshot.
#[derive(Debug, Clone)]
pub struct Window {
    pub index: usize,
    pub id: Option<String>,
    pub name: String,
    pub position: Option<Position>,
    pub size: Option<Size>,
    pub tabs: Vec<Tab>,
}

/// Where a window stands on the screen.
#[derive(Debug, Clone, Copy)]
pub struct Position {
    pub x: i64,
    pub y: i64,
}

/// How large a window is.
#[derive(Debug, Clone, Copy)]
pub struct Size {
    pub width: i64,
    pub height: i64,
}

/// A tab of a window.
#[derive(Debug, Clone)]
pub struct Tab {
    pub index: usize,
    pub id: Option<String>,
    pub name: String,
    pub selected: bool,
    pub terminals: Vec<Terminal>,
}

/// A terminal of a tab.
#[derive(Debug, Clone)]
pub struct Terminal {
    pub index: usize,
    pub id: Option<String>,
    pub name: String,
    pub focused: bool,
    pub working_directory: String,
    pub scrollback_file: Option<String>,
    pub codex_session_id: Option<String>,
    pub amp_thread_id: Option<String>,
}

/// A program that holds conversations.
#[derive(Debug, Clone, Copy, PartialEq, Eq, PartialOrd, Ord, Hash, Structural)]
pub enum Agent {
    Amp,
    Codex,
}

/// A conversation that a running process holds.
#[derive(Debug, PartialEq, Eq)]
pub struct AgentSession {
    pub agent: Agent,
    pub pid: u32,
    pub tty: String,
    pub cwd: String,
    pub session_id: String,
    pub command: String,
}

/// What identifies a conversation.
#[derive(Debug, PartialEq, Eq, Hash)]
pub struct SessionKey {
    pub agent: Agent,
    pub id: String,
}

/// What identifies a conversation, borrowed.
#[derive(Debug, Clone, Copy)]
pub struct SessionRef<'a> {
    pub agent: Agent,
    pub id: &'a str,
}

/// One terminal as Ghostty reports it.
#[derive(Debug)]
pub struct CaptureRow {
    pub window_index: usize,
    pub window_id: String,
    pub window_name: String,
    pub window_x: Option<i64>,
    pub window_y: Option<i64>,
    pub window_width: Option<i64>,
    pub window_height: Option<i64>,
    pub tab_index: usize,
    pub tab_id: String,
    pub tab_name: String,
    pub tab_selected: bool,
    pub terminal_index: usize,
    pub terminal_id: String,
    pub terminal_name: String,
    pub terminal_focused: bool,
    pub working_directory: String,
    pub scrollback_path: Option<String>,
    pub scrollback_file: Option<String>,
    pub agent_session: Option<AgentSession>,
}

/// What a watcher has written down about itself.
#[derive(Debug, Clone)]
pub struct WatchState {
    pub version: u32,
    pub token: String,
    pub name: String,
    pub interval_seconds: u64,
    pub scope: String,
    pub window_id: Option<String>,
    pub owner_pid: u32,
    pub owner_started_at: String,
    pub worker_pid: u32,
    pub started_at: String,
    pub log_path: String,
    pub last_attempt_at: Option<String>,
    pub last_success_at: Option<String>,
    pub last_snapshot_id: Option<String>,
    pub next_attempt_at: Option<String>,
    pub last_error: Option<String>,
}

// ---------------------------------------------------------------------------
// Views
// ---------------------------------------------------------------------------
/// The view of a `SessionKey`.
pub struct KeyModel {
    pub agent: Agent,
    pub id: Seq<char>,
}

/// The view of an `AgentSession`.
pub struct SessionModel {
    pub agent: Agent,
    pub pid: u32,
    pub tty: Seq<char>,
    pub cwd: Seq<char>,
    pub session_id: Seq<char>,
    pub command: Seq<char>,
}

/// The view of a `CaptureRow`.
pub struct RowModel {
    pub window_index: usize,
    pub window_id: Seq<char>,
    pub window_name: Seq<char>,
    pub window_x: Option<i64>,
    pub window_y: Option<i64>,
    pub window_width: Option<i64>,
    pub window_height: Option<i64>,
    pub tab_index: usize,
    pub tab_id: Seq<char>,
    pub tab_name: Seq<char>,
    pub tab_selected: bool,
    pub terminal_index: usize,
    pub terminal_id: Seq<char>,
    pub terminal_name: Seq<char>,
    pub terminal_focused: bool,
    pub working_directory: Seq<char>,
    pub scrollback_path: Option<Seq<char>>,
    pub scrollback_file: Option<Seq<char>>,
    pub agent_session: Option<SessionModel>,
}

/// The view of a `Terminal`.
pub struct TerminalModel {
    pub index: usize,
    pub id: Option<Seq<char>>,
    pub name: Seq<char>,
    pub focused: bool,
    pub working_directory: Seq<char>,
    pub scrollback_file: Option<Seq<char>>,
    pub codex_session_id: Option<Seq<char>>,
    pub amp_thread_id: Option<Seq<char>>,
}

/// The view of a `Tab`.
pub struct TabModel {
    pub index: usize,
    pub id: Option<Seq<char>>,
    pub name: Seq<char>,
    pub selected: bool,
    pub terminals: Seq<TerminalModel>,
}

/// The view of a `Window`.
pub struct WindowModel {
    pub index: usize,
    pub id: Option<Seq<char>>,
    pub name: Seq<char>,
    pub position: Option<Position>,
    pub size: Option<Size>,
    pub tabs: Seq<TabModel>,
}

/// The view of a `Scope`.
pub enum ScopeModel {
    Window { window_id: Seq<char> },
    AllWindows,
}

/// The view of a `Snapshot`.
pub struct SnapshotModel {
    pub version: u32,
    pub name: Seq<char>,
    pub id: Seq<char>,
    pub saved_at: Seq<char>,
    pub timestamp: Seq<char>,
    pub ghostty_version: Seq<char>,
    pub tabs_count: usize,
    pub terminals_count: usize,
    pub scrollback_captured: bool,
    pub scope: ScopeModel,
    pub windows: Seq<WindowModel>,
    pub detected_codex_sessions: Seq<SessionModel>,
    pub detected_amp_threads: Seq<SessionModel>,
    pub warnings: Seq<Seq<char>>,
    pub limitations: Seq<Seq<char>>,
}

/// The view of a `WatchState`.
pub struct WatchModel {
    pub version: u32,
    pub token: Seq<char>,
    pub name: Seq<char>,
    pub interval_seconds: u64,
    pub scope: Seq<char>,
    pub window_id: Option<Seq<char>>,
    pub owner_pid: u32,
    pub owner_started_at: Seq<char>,
    pub worker_pid: u32,
    pub started_at: Seq<char>,
    pub log_path: Seq<char>,
    pub last_attempt_at: Option<Seq<char>>,
    pub last_success_at: Option<Seq<char>>,
    pub last_snapshot_id: Option<Seq<char>>,
    pub next_attempt_at: Option<Seq<char>>,
    pub last_error: Option<Seq<char>>,
}

impl View for SessionKey {
    type V = KeyModel;

    open spec fn view(&self) -> KeyModel {
        KeyModel { agent: self.agent, id: self.id@ }
    }
}

impl<'a> View for SessionRef<'a> {
    type V = KeyModel;

    open spec fn view(&self) -> KeyModel {
        KeyModel { agent: self.agent, id: self.id@ }
    }
}

impl View for AgentSession {
    type V = SessionModel;

    open spec fn view(&self) -> SessionModel {
        SessionModel {
            agent: self.agent,
            pid: self.pid,
            tty: self.tty@,
            cwd: self.cwd@,
            session_id: self.session_id@,
            command: self.command@,
        }
    }
}

/// The sessions that a list holds.
pub open spec fn session_views(v: Seq<AgentSession>) -> Seq<SessionModel> {
    v.map_values(|s: AgentSession| s@)
}

/// The keys that a list holds.
pub open spec fn key_views(v: Seq<SessionKey>) -> Seq<KeyModel> {
    v.map_values(|k: SessionKey| k@)
}

impl SessionModel {
    /// What identifies the conversation.
    pub open spec fn key(self) -> KeyModel {
        KeyModel { agent: self.agent, id: self.session_id }
    }
}

impl View for CaptureRow {
    type V = RowModel;

    open spec fn view(&self) -> RowModel {
        RowModel {
            window_index: self.window_index,
            window_id: self.window_id@,
            window_name: self.window_name@,
            window_x: self.window_x,
            window_y: self.window_y,
            window_width: self.window_width,
            window_height: self.window_height,
            tab_index: self.tab_index,
            tab_id: self.tab_id@,
            tab_name: self.tab_name@,
            tab_selected: self.tab_selected,
            terminal_index: self.terminal_index,
            terminal_id: self.terminal_id@,
            terminal_name: self.terminal_name@,
            terminal_focused: self.terminal_focused,
            working_directory: self.working_directory@,
            scrollback_path: optional_text(self.scrollback_path),
            scrollback_file: optional_text(self.scrollback_file),
            agent_session: match self.agent_session {
                Some(session) => Some(session@),
                None => None,
            },
        }
    }
}

/// The rows that a list holds.
pub open spec fn row_views(v: Seq<CaptureRow>) -> Seq<RowModel> {
    v.map_values(|r: CaptureRow| r@)
}

impl RowModel {
    /// Whether Ghostty reported where the window stands and how large it is.
    pub open spec fn has_geometry(self) -> bool {
        self.window_x is Some && self.window_y is Some && self.window_width is Some
            && self.window_height is Some
    }
}

impl View for Terminal {
    type V = TerminalModel;

    open spec fn view(&self) -> TerminalModel {
        TerminalModel {
            index: self.index,
            id: optional_text(self.id),
            name: self.name@,
            focused: self.focused,
            working_directory: self.working_directory@,
            scrollback_file: optional_text(self.scrollback_file),
            codex_session_id: optional_text(self.codex_session_id),
            amp_thread_id: optional_text(self.amp_thread_id),
        }
    }
}

/// The terminals that a list holds.
pub open spec fn terminal_views(v: Seq<Terminal>) -> Seq<TerminalModel> {
    v.map_values(|t: Terminal| t@)
}

impl TerminalModel {
    /// The conversation that the terminal held: a Codex one before an Amp one.
    pub open spec fn session(self) -> Option<KeyModel> {
        match self.codex_session_id {
            Some(id) => Some(KeyModel { agent: Agent::Codex, id }),
            None => match self.amp_thread_id {
                Some(id) => Some(KeyModel { agent: Agent::Amp, id }),
                None => None,
            },
        }
    }
}

impl View for Tab {
    type V = TabModel;

    open spec fn view(&self) -> TabModel {
        TabModel {
            index: self.index,
            id: optional_text(self.id),
            name: self.name@,
            selected: self.selected,
            terminals: terminal_views(self.terminals@),
        }
    }
}

/// The tabs that a list holds.
pub open spec fn tab_views(v: Seq<Tab>) -> Seq<TabModel> {
    v.map_values(|t: Tab| t@)
}

impl View for Window {
    type V = WindowModel;

    open spec fn view(&self) -> WindowModel {
        WindowModel {
            index: self.index,
            id: optional_text(self.id),
            name: self.name@,
            position: self.position,
            size: self.size,
            tabs: tab_views(self.tabs@),
        }
    }
}

/// The windows that a list holds.
pub open spec fn window_views(v: Seq<Window>) -> Seq<WindowModel> {
    v.map_values(|w: Window| w@)
}

impl View for Scope {
    type V = ScopeModel;

    open spec fn view(&self) -> ScopeModel {
        match self {
            Scope::Window { window_id } => ScopeModel::Window { window_id: window_id@ },
            Scope::AllWindows => ScopeModel::AllWindows,
        }
    }
}

impl View for Snapshot {
    type V = SnapshotModel;

    open spec fn view(&self) -> SnapshotModel {
        SnapshotModel {
            version: self.version,
            name: self.name@,
            id: self.id@,
            saved_at: self.saved_at@,
            timestamp: self.timestamp@,
            ghostty_version: self.ghostty_version@,
            tabs_count: self.tabs_count,
            terminals_count: self.terminals_count,
            scrollback_captured: self.scrollback_captured,
            scope: self.scope@,
            windows: window_views(self.windows@),
            detected_codex_sessions: session_views(self.detected_codex_sessions@),
            detected_amp_threads: session_views(self.detected_amp_threads@),
            warnings: texts(self.warnings@),
            limitations: texts(self.limitations@),
        }
    }
}

impl View for WatchState {
    type V = WatchModel;

    open spec fn view(&self) -> WatchModel {
        WatchModel {
            version: self.version,
            token: self.token@,
            name: self.name@,
            interval_seconds: self.interval_seconds,
            scope: self.scope@,
            window_id: optional_text(self.window_id),
            owner_pid: self.owner_pid,
            owner_started_at: self.owner_started_at@,
            worker_pid: self.worker_pid,
            started_at: self.started_at@,
            log_path: self.log_path@,
            last_attempt_at: optional_text(self.last_attempt_at),
            last_success_at: optional_text(self.last_success_at),
            last_snapshot_id: optional_text(self.last_snapshot_id),
            next_attempt_at: optional_text(self.next_attempt_at),
            last_error: optional_text(self.last_error),
        }
    }
}

// ---------------------------------------------------------------------------
// Functions
// ---------------------------------------------------------------------------
impl Default for Scope {
    fn default() -> (r: Scope)
        ensures
            r == Scope::AllWindows,
    {
        Scope::AllWindows
    }
}

impl Clone for AgentSession {
    fn clone(&self) -> (r: AgentSession)
        ensures
            r == *self,
    {
        AgentSession {
            agent: self.agent,
            pid: self.pid,
            tty: self.tty.clone(),
            cwd: self.cwd.clone(),
            session_id: self.session_id.clone(),
            command: self.command.clone(),
        }
    }
}

impl Clone for SessionKey {
    fn clone(&self) -> (r: SessionKey)
        ensures
            r == *self,
    {
        SessionKey { agent: self.agent, id: self.id.clone() }
    }
}

impl Clone for CaptureRow {
    fn clone(&self) -> (r: CaptureRow)
        ensures
            r == *self,
    {
        CaptureRow {
            window_index: self.window_index,
            window_id: self.window_id.clone(),
            window_name: self.window_name.clone(),
            window_x: self.window_x,
            window_y: self.window_y,
            window_width: self.window_width,
            window_height: self.window_height,
            tab_index: self.tab_index,
            tab_id: self.tab_id.clone(),
            tab_name: self.tab_name.clone(),
            tab_selected: self.tab_selected,
            terminal_index: self.terminal_index,
            terminal_id: self.terminal_id.clone(),
            terminal_name: self.terminal_name.clone(),
            terminal_focused: self.terminal_focused,
            working_directory: self.working_directory.clone(),
            scrollback_path: copy_optional(&self.scrollback_path),
            scrollback_file: copy_optional(&self.scrollback_file),
            agent_session: match &self.agent_session {
                Some(session) => Some(session.clone()),
                None => None,
            },
        }
    }
}

impl Terminal {
    /// The conversation that the terminal held.
    pub fn session(&self) -> (r: Option<SessionRef<'_>>)
        ensures
            match r {
                Some(session) => self@.session() == Some(session@),
                None => self@.session() is None,
            },
    {
        match &self.codex_session_id {
            Some(id) => Some(SessionRef { agent: Agent::Codex, id: id.as_str() }),
            None => match &self.amp_thread_id {
                Some(id) => Some(SessionRef { agent: Agent::Amp, id: id.as_str() }),
                None => None,
            },
        }
    }
}

/// The agent's name for reports.
pub open spec fn agent_label(agent: Agent) -> Seq<char> {
    match agent {
        Agent::Amp => "Amp"@,
        Agent::Codex => "Codex"@,
    }
}

/// The agent's word for a conversation.
pub open spec fn agent_unit(agent: Agent) -> Seq<char> {
    match agent {
        Agent::Amp => "thread"@,
        Agent::Codex => "session"@,
    }
}

/// The agent's name in lower case.
pub open spec fn agent_name(agent: Agent) -> Seq<char> {
    match agent {
        Agent::Amp => "amp"@,
        Agent::Codex => "codex"@,
    }
}

impl Agent {
    /// The agent's name for reports.
    pub fn label(self) -> (r: &'static str)
        ensures
            r@ == agent_label(self),
    {
        match self {
            Agent::Amp => "Amp",
            Agent::Codex => "Codex",
        }
    }

    /// The agent's word for a conversation.
    pub fn unit(self) -> (r: &'static str)
        ensures
            r@ == agent_unit(self),
    {
        match self {
            Agent::Amp => "thread",
            Agent::Codex => "session",
        }
    }

    /// The agent's name in lower case.
    pub fn name(self) -> (r: String)
        ensures
            r@ == agent_name(self),
    {
        match self {
            Agent::Amp => "amp".to_owned(),
            Agent::Codex => "codex".to_owned(),
        }
    }
}

/// The agent of a session that was saved without one.
pub fn default_agent() -> (r: Agent)
    ensures
        r == Agent::Codex,
{
    Agent::Codex
}

impl AgentSession {
    /// What identifies the conversation.
    pub fn key(&self) -> (r: SessionKey)
        ensures
            r@ == self@.key(),
    {
        SessionKey { agent: self.agent, id: self.session_id.clone() }
    }
}

impl<'a> SessionRef<'a> {
    /// What identifies the conversation, with a text of its own.
    pub fn key(self) -> (r: SessionKey)
        ensures
            r@ == self@,
    {
        SessionKey { agent: self.agent, id: self.id.to_owned() }
    }
}

impl CaptureRow {
    /// Whether Ghostty reported where the window stands and how large it is.
    pub fn has_geometry(&self) -> (r: bool)
        ensures
            r == self@.has_geometry(),
    {
        self.window_x.is_some() && self.window_y.is_some() && self.window_width.is_some()
            && self.window_height.is_some()
    }
}

// ---------------------------------------------------------------------------
// Every terminal of a snapshot
// ---------------------------------------------------------------------------
/// The terminals of a window, tab by tab.
pub open spec fn window_terminals(tabs: Seq<TabModel>) -> Seq<TerminalModel> {
    flat(tabs.map_values(|t: TabModel| t.terminals))
}

/// The terminals of all windows, window by window.
pub open spec fn windows_terminals(windows: Seq<WindowModel>) -> Seq<TerminalModel> {
    flat(windows.map_values(|w: WindowModel| window_terminals(w.tabs)))
}

impl SnapshotModel {
    /// The terminals of the snapshot, window by window and tab by tab.
    pub open spec fn terminals(self) -> Seq<TerminalModel> {
        windows_terminals(self.windows)
    }
}

/// The terminals that a list points to.
pub open spec fn terminal_ref_views(v: Seq<&Terminal>) -> Seq<TerminalModel> {
    v.map_values(|t: &Terminal| t@)
}

/// The terminals of the first windows and one more.
pub proof fn lemma_windows_terminals_step(windows: Seq<WindowModel>, n: int)
    requires
        0 <= n < windows.len(),
    ensures
        windows_terminals(windows.take(n + 1)) == windows_terminals(windows.take(n))
            + window_terminals(windows[n].tabs),
{
    let f = |w: WindowModel| window_terminals(w.tabs);
    assert(windows.take(n + 1).map_values(f).drop_last() =~= windows.take(n).map_values(f));
    assert(windows.take(n + 1).map_values(f).last() == window_terminals(windows[n].tabs));
}

/// The terminals of the first tabs and one more.
pub proof fn lemma_window_terminals_step(tabs: Seq<TabModel>, n: int)
    requires
        0 <= n < tabs.len(),
    ensures
        window_terminals(tabs.take(n + 1)) == window_terminals(tabs.take(n)) + tabs[n].terminals,
{
    let f = |t: TabModel| t.terminals;
    assert(tabs.take(n + 1).map_values(f).drop_last() =~= tabs.take(n).map_values(f));
    assert(tabs.take(n + 1).map_values(f).last() == tabs[n].terminals);
}

/// The terminals of a snapshot, window by window and tab by tab.
pub fn all_terminals(snapshot: &Snapshot) -> (r: Vec<&Terminal>)
    ensures
        terminal_ref_views(r@) == snapshot@.terminals(),
{
    let ghost windows = snapshot@.windows;
    let mut r: Vec<&Terminal> = Vec::new();
    let mut i: usize = 0;
    assert(terminal_ref_views(r@) =~= windows_terminals(windows.take(0)));
    while i < snapshot.windows.len()
        invariant
            windows == snapshot@.windows,
            i <= snapshot.windows@.len(),
            terminal_ref_views(r@) == windows_terminals(windows.take(i as int)),
        decreases snapshot.windows@.len() - i,
    {
        let window = &snapshot.windows[i];
        let ghost tabs = window@.tabs;
        let ghost before = terminal_ref_views(r@);
        let mut j: usize = 0;
        assert(before =~= before + window_terminals(tabs.take(0)));
        while j < window.tabs.len()
            invariant
                tabs == window@.tabs,
                j <= window.tabs@.len(),
                terminal_ref_views(r@) == before + window_terminals(tabs.take(j as int)),
            decreases window.tabs@.len() - j,
        {
            let tab = &window.tabs[j];
            let ghost terminals = tab@.terminals;
            let ghost inner = terminal_ref_views(r@);
            let mut k: usize = 0;
            assert(inner =~= inner + terminals.take(0));
            while k < tab.terminals.len()
                invariant
                    terminals == tab@.terminals,
                    k <= tab.terminals@.len(),
                    terminal_ref_views(r@) == inner + terminals.take(k as int),
                decreases tab.terminals@.len() - k,
            {
                let ghost old_r = r@;
                r.push(&tab.terminals[k]);
                proof {
                    assert(terminal_ref_views(r@) =~= terminal_ref_views(old_r).push(
                        terminals[k as int],
                    ));
                    assert(inner + terminals.take(k + 1) =~= (inner + terminals.take(
                        k as int,
                    )).push(terminals[k as int]));
                }
                k = k + 1;
            }
            proof {
                assert(terminals.take(k as int) == terminals);
                assert(tabs[j as int] == tab@);
                lemma_window_terminals_step(tabs, j as int);
                assert(terminal_ref_views(r@) =~= before + window_terminals(tabs.take(j + 1)));
            }
            j = j + 1;
        }
        proof {
            assert(tabs.take(j as int) == tabs);
            assert(windows[i as int] == window@);
            lemma_windows_terminals_step(windows, i as int);
        }
        i = i + 1;
    }
    assert(windows.take(i as int) == windows);
    r
}

} // verus!
