//! Application state of the interactive manager and how it reacts to input.
use vstd::prelude::*;
use crate::listing::{law_visible_order, visible_order, visible_positions};
use crate::process::GuiApp;
use crate::text::{decimal, pop_char, push_char, push_decimal, same_text};

verus! {

/// Order in which the application list is shown.
#[derive(Clone, Copy, PartialEq, Eq, Structural, Debug)]
pub enum SortMode {
    NameAsc,
    NameDesc,
    PidAsc,
    MemDesc,
}

/// The caption shown for a sort mode.
pub open spec fn sort_label(m: SortMode) -> Seq<char> {
    match m {
        SortMode::NameAsc => "\u{2191} Name"@,
        SortMode::NameDesc => "\u{2193} Name"@,
        SortMode::PidAsc => "\u{2191} PID"@,
        SortMode::MemDesc => "\u{2193} Mem"@,
    }
}

/// The sort mode that follows `m` when cycling.
pub open spec fn next_sort(m: SortMode) -> SortMode {
    match m {
        SortMode::NameAsc => SortMode::NameDesc,
        SortMode::NameDesc => SortMode::PidAsc,
        SortMode::PidAsc => SortMode::MemDesc,
        SortMode::MemDesc => SortMode::NameAsc,
    }
}

impl SortMode {
    /// The caption shown for this sort mode.
    pub fn label(&self) -> (r: &'static str)
        ensures
            r@ == sort_label(*self),
    {
        match self {
            SortMode::NameAsc => "\u{2191} Name",
            SortMode::NameDesc => "\u{2193} Name",
            SortMode::PidAsc => "\u{2191} PID",
            SortMode::MemDesc => "\u{2193} Mem",
        }
    }

    /// The sort mode that follows this one when cycling.
    pub fn next(self) -> (r: SortMode)
        ensures
            r == next_sort(self),
    {
        match self {
            SortMode::NameAsc => SortMode::NameDesc,
            SortMode::NameDesc => SortMode::PidAsc,
            SortMode::PidAsc => SortMode::MemDesc,
            SortMode::MemDesc => SortMode::NameAsc,
        }
    }
}

/// Cycling through the sort modes returns to the start after four steps, and the four
/// modes visited have distinct captions.
pub proof fn law_sort_cycle(m: SortMode)
    ensures
        next_sort(next_sort(next_sort(next_sort(m)))) == m,
        sort_label(m) != sort_label(next_sort(m)),
        sort_label(m) != sort_label(next_sort(next_sort(m))),
        sort_label(m) != sort_label(next_sort(next_sort(next_sort(m)))),
{
    reveal_strlit("\u{2191} Name");
    reveal_strlit("\u{2193} Name");
    reveal_strlit("\u{2191} PID");
    reveal_strlit("\u{2193} Mem");
    let l0 = sort_label(m);
    let l1 = sort_label(next_sort(m));
    let l2 = sort_label(next_sort(next_sort(m)));
    let l3 = sort_label(next_sort(next_sort(next_sort(m))));
    assert(l0[0] != l1[0] || l0[2] != l1[2]);
    assert(l0[0] != l2[0] || l0[2] != l2[2]);
    assert(l0[0] != l3[0] || l0[2] != l3[2]);
}


/// How an application is asked to stop.
#[derive(Clone, Copy, PartialEq, Eq, Structural, Debug)]
pub enum QuitAction {
    /// Ask the application to quit, as the Quit menu item does.
    Graceful,
    /// Kill the process.
    Force,
}

/// A pending request to quit applications, shown for confirmation.
pub struct ConfirmDialog {
    pub app_names: Vec<String>,
    pub action: QuitAction,
}

/// One quit attempt, as kept in the history.
pub struct HistoryEntry {
    /// Seconds since the Unix epoch, `None` if the clock was set before it.
    pub timestamp: Option<u64>,
    pub app_name: String,
    pub action: QuitAction,
    pub success: bool,
}

/// An input to the application state.
#[derive(Clone, Copy, PartialEq, Eq, Structural, Debug)]
pub enum Message {
    MoveUp,
    MoveDown,
    ToggleSelect,
    SelectAll,
    DeselectAll,
    RequestGracefulQuit,
    RequestForceQuit,
    RequestRestart,
    ConfirmYes,
    ConfirmNo,
    RefreshList,
    Quit,
    EnterFilter,
    ExitFilter,
    FilterInput(char),
    FilterBackspace,
    CycleSort,
    ToggleGrouping,
    ToggleHistory,
    TogglePreview,
}

/// A key, as far as the key bindings tell keys apart.
#[derive(Clone, Copy, PartialEq, Eq, Structural, Debug)]
pub enum KeyCode {
    Char(char),
    Enter,
    Esc,
    Backspace,
    Up,
    Down,
    Tab,
    Other,
}

/// A key press.
#[derive(Clone, Copy, PartialEq, Eq, Structural, Debug)]
pub struct KeyEvent {
    pub code: KeyCode,
}

/// The kinds of mouse event the list reacts to.
#[derive(Clone, Copy, PartialEq, Eq, Structural, Debug)]
pub enum MouseEventKind {
    ScrollUp,
    ScrollDown,
    LeftDown,
    Other,
}

/// A mouse event at a terminal row.
#[derive(Clone, Copy, PartialEq, Eq, Structural, Debug)]
pub struct MouseEvent {
    pub kind: MouseEventKind,
    pub row: u16,
}

/// Work that the state asks its driver to do outside, with the completion method to call.
pub enum Effect {
    /// Nothing to do.
    Nothing,
    /// List the running applications again and pass the result to `App::apply_refresh`.
    Refresh,
    /// Quit each target with the given action and pass one report per target, in order,
    /// to `App::finish_quit`.
    Quit { action: QuitAction, targets: Vec<GuiApp>, first_name: String },
    /// Quit the application gracefully and pass whether that worked to `App::finish_restart`.
    Restart { app: GuiApp },
    /// Start the application again in the background, then refresh.
    Relaunch { app: GuiApp },
}

/// The outcome of one quit attempt.
pub struct QuitReport {
    pub app_name: String,
    pub success: bool,
    /// Seconds since the Unix epoch, `None` if the clock was set before it.
    pub timestamp: Option<u64>,
}

/// Mathematical form of a confirmation dialog.
pub struct DialogView {
    pub names: Seq<Seq<char>>,
    pub action: QuitAction,
}

/// Mathematical form of a history entry.
pub struct HistoryView {
    pub timestamp: Option<u64>,
    pub name: Seq<char>,
    pub action: QuitAction,
    pub success: bool,
}

/// Mathematical form of an effect.
pub enum EffectView {
    Nothing,
    Refresh,
    Quit { action: QuitAction, targets: Seq<GuiApp>, first_name: Seq<char> },
    Restart { app: GuiApp },
    Relaunch { app: GuiApp },
}

/// Mathematical form of a quit report.
pub struct ReportView {
    pub name: Seq<char>,
    pub success: bool,
    pub timestamp: Option<u64>,
}

/// Mathematical form of the application state.
pub struct AppView {
    pub apps: Seq<GuiApp>,
    pub selected_index: usize,
    pub selected: Set<u32>,
    pub running: bool,
    pub status: Option<(Seq<char>, bool)>,
    pub status_set_at: Option<u64>,
    pub dialog: Option<DialogView>,
    pub filter_query: Seq<char>,
    pub filter_active: bool,
    pub sort_mode: SortMode,
    pub group_mode: bool,
    pub show_history: bool,
    pub show_preview: bool,
    pub history: Seq<HistoryView>,
    pub protected: Seq<Seq<char>>,
    pub last_click: Option<(u16, u64)>,
}

impl View for ConfirmDialog {
    type V = DialogView;

    open spec fn view(&self) -> DialogView {
        DialogView { names: self.app_names@.map_values(|n: String| n@), action: self.action }
    }
}

impl View for HistoryEntry {
    type V = HistoryView;

    open spec fn view(&self) -> HistoryView {
        HistoryView {
            timestamp: self.timestamp,
            name: self.app_name@,
            action: self.action,
            success: self.success,
        }
    }
}

impl View for QuitReport {
    type V = ReportView;

    open spec fn view(&self) -> ReportView {
        ReportView { name: self.app_name@, success: self.success, timestamp: self.timestamp }
    }
}

impl View for Effect {
    type V = EffectView;

    open spec fn view(&self) -> EffectView {
        match self {
            Effect::Nothing => EffectView::Nothing,
            Effect::Refresh => EffectView::Refresh,
            Effect::Quit { action, targets, first_name } => EffectView::Quit {
                action: *action,
                targets: targets@,
                first_name: first_name@,
            },
            Effect::Restart { app } => EffectView::Restart { app: *app },
            Effect::Relaunch { app } => EffectView::Relaunch { app: *app },
        }
    }
}

/// Longest quit history kept.
pub const HISTORY_LIMIT: usize = 100;

/// Milliseconds a status message stays visible.
pub const STATUS_TIMEOUT_MS: u64 = 5000;

/// Milliseconds within which a second click on the same row toggles selection.
pub const DOUBLE_CLICK_MS: u64 = 500;

/// Milliseconds between two automatic refreshes of the list.
pub const REFRESH_INTERVAL_MS: u64 = 5000;

/// Whether the automatic refresh is due at time `now`, the last one having been at
/// `last` (milliseconds of a monotonic clock).
pub fn refresh_due(last: u64, now: u64) -> (r: bool)
    ensures
        r == (elapsed(now, last) >= REFRESH_INTERVAL_MS),
{
    now >= last && now - last >= REFRESH_INTERVAL_MS
}

/// How many milliseconds to wait for input before the automatic refresh is due: none
/// once it is due.
pub fn time_to_refresh(last: u64, now: u64) -> (r: u64)
    ensures
        r == (if elapsed(now, last) >= REFRESH_INTERVAL_MS {
            0
        } else {
            REFRESH_INTERVAL_MS - elapsed(now, last)
        }),
        r == 0 <==> (elapsed(now, last) >= REFRESH_INTERVAL_MS),
{
    let gone = if now >= last {
        now - last
    } else {
        0
    };
    if gone >= REFRESH_INTERVAL_MS {
        0
    } else {
        REFRESH_INTERVAL_MS - gone
    }
}

/// The words used for an action in status messages.
pub open spec fn action_name(a: QuitAction) -> Seq<char> {
    match a {
        QuitAction::Graceful => "quit"@,
        QuitAction::Force => "force quit"@,
    }
}

/// Milliseconds from `t` to `now`, or zero if `t` is later (as `Instant::duration_since`).
pub open spec fn elapsed(now: u64, t: u64) -> int {
    if now >= t {
        now - t
    } else {
        0
    }
}

/// The last `n` elements of `s`.
pub open spec fn keep_last<A>(s: Seq<A>, n: nat) -> Seq<A> {
    if s.len() > n {
        s.skip(s.len() - n)
    } else {
        s
    }
}

/// Number of failed attempts among the reports.
pub open spec fn failures(reports: Seq<ReportView>) -> nat {
    reports.filter(|r: ReportView| !r.success).len()
}

/// The status message, and whether it reports success, after a batch of quit attempts.
pub open spec fn quit_summary(action: QuitAction, first_name: Seq<char>, reports: Seq<ReportView>) -> (
    Seq<char>,
    bool,
) {
    let total = reports.len();
    let failed = failures(reports);
    let succeeded = (total - failed) as nat;
    if total == 1 {
        if failed == 0 {
            (first_name + " \u{2014} "@ + action_name(action) + " successfully"@, true)
        } else {
            ("Failed to "@ + action_name(action) + " "@ + first_name, false)
        }
    } else if failed == 0 {
        (decimal(succeeded) + " apps "@ + action_name(action) + " successfully"@, true)
    } else {
        (
            decimal(succeeded) + " succeeded, "@ + decimal(failed) + " failed to "@ + action_name(
                action,
            ),
            false,
        )
    }
}

/// The message a key produces: only confirm or cancel while a dialog is open, only
/// closing while the history is shown, text editing while filtering, and the key
/// bindings otherwise.
pub open spec fn key_message(
    dialog_open: bool,
    show_history: bool,
    filter_active: bool,
    code: KeyCode,
) -> Option<Message> {
    if dialog_open {
        match code {
            KeyCode::Char('y') | KeyCode::Enter => Some(Message::ConfirmYes),
            KeyCode::Char('n') | KeyCode::Esc => Some(Message::ConfirmNo),
            _ => None,
        }
    } else if show_history {
        match code {
            KeyCode::Char('l') | KeyCode::Esc => Some(Message::ToggleHistory),
            _ => None,
        }
    } else if filter_active {
        match code {
            KeyCode::Esc | KeyCode::Char('/') => Some(Message::ExitFilter),
            KeyCode::Backspace => Some(Message::FilterBackspace),
            KeyCode::Char(c) => if c != '\n' {
                Some(Message::FilterInput(c))
            } else {
                None
            },
            _ => None,
        }
    } else {
        match code {
            KeyCode::Up | KeyCode::Char('k') => Some(Message::MoveUp),
            KeyCode::Down | KeyCode::Char('j') => Some(Message::MoveDown),
            KeyCode::Char(' ') => Some(Message::ToggleSelect),
            KeyCode::Char('a') => Some(Message::SelectAll),
            KeyCode::Char('d') => Some(Message::DeselectAll),
            KeyCode::Enter | KeyCode::Char('r') => Some(Message::RequestGracefulQuit),
            KeyCode::Char('f') => Some(Message::RequestForceQuit),
            KeyCode::Char('R') => Some(Message::RefreshList),
            KeyCode::Char('e') => Some(Message::RefreshList),
            KeyCode::Char('q') => Some(Message::Quit),
            KeyCode::Char('/') => Some(Message::EnterFilter),
            KeyCode::Char('s') => Some(Message::CycleSort),
            KeyCode::Char('g') => Some(Message::ToggleGrouping),
            KeyCode::Char('l') => Some(Message::ToggleHistory),
            KeyCode::Tab | KeyCode::Char('p') => Some(Message::TogglePreview),
            KeyCode::Esc => Some(Message::Quit),
            _ => None,
        }
    }
}

impl AppView {
    /// Positions of the shown applications, in the order shown.
    pub open spec fn visible(self) -> Seq<usize> {
        visible_order(self.apps, self.filter_query, self.sort_mode)
    }

    /// The application shown at position `k` of the list.
    pub open spec fn shown(self, k: int) -> GuiApp {
        self.apps[self.visible()[k] as int]
    }

    /// The name is on the protected list.
    pub open spec fn is_protected(self, name: Seq<char>) -> bool {
        self.protected.contains(name)
    }

    /// The application under the cursor, if the cursor is on the list.
    pub open spec fn cursor_app(self) -> Option<GuiApp> {
        if self.selected_index < self.visible().len() {
            Some(self.shown(self.selected_index as int))
        } else {
            None
        }
    }

    /// The state with a status message set at time `now`.
    pub open spec fn with_status(self, msg: Seq<char>, ok: bool, now: u64) -> AppView {
        AppView { status: Some((msg, ok)), status_set_at: Some(now), ..self }
    }

    /// The state with the given selection.
    pub open spec fn with_selected(self, selected: Set<u32>) -> AppView {
        AppView { selected, ..self }
    }

    /// The warning that the application under the cursor is protected, if it is.
    pub open spec fn warn_if_protected(self, now: u64) -> AppView {
        match self.cursor_app() {
            Some(a) => if self.is_protected(a.name@) {
                self.with_status("Cannot quit protected app: "@ + a.name@, false, now)
            } else {
                self
            },
            None => self,
        }
    }

    /// Positions of the applications an action applies to: the selected shown
    /// applications, or else the one under the cursor; protected ones left out.
    pub open spec fn target_positions(self) -> Seq<usize> {
        let v = self.visible();
        let candidates = if self.selected.is_empty() {
            if self.selected_index < v.len() {
                seq![v[self.selected_index as int]]
            } else {
                Seq::<usize>::empty()
            }
        } else {
            v.filter(|i: usize| self.selected.contains(self.apps[i as int].pid))
        };
        candidates.filter(|i: usize| !self.is_protected(self.apps[i as int].name@))
    }

    /// The applications an action applies to.
    pub open spec fn targets(self) -> Seq<GuiApp> {
        self.target_positions().map_values(|i: usize| self.apps[i as int])
    }

    /// The pids of the shown applications that are not protected.
    pub open spec fn selectable_pids(self) -> Set<u32> {
        Set::new(
            |p: u32|
                exists|k: int|
                    0 <= k < self.visible().len() && #[trigger] self.shown(k).pid == p
                        && !self.is_protected(self.shown(k).name@),
        )
    }

    /// The state after listing the applications again: on success the list is replaced,
    /// the selection keeps only pids still listed, and the cursor moves up onto the list
    /// if it fell off its end.
    pub open spec fn refreshed(self, listed: Option<Seq<GuiApp>>) -> AppView {
        match listed {
            None => self,
            Some(apps) => {
                let s1 = AppView {
                    apps,
                    selected: Set::new(
                        |p: u32|
                            self.selected.contains(p) && exists|i: int|
                                0 <= i < apps.len() && #[trigger] apps[i].pid == p,
                    ),
                    ..self
                };
                let len = s1.visible().len();
                if self.selected_index >= len && len > 0 {
                    AppView { selected_index: (len - 1) as usize, ..s1 }
                } else {
                    s1
                }
            },
        }
    }

    /// The state after the quit attempts reported in `reports`: each is added to the
    /// history, which keeps the latest `HISTORY_LIMIT`, a summary is shown, and the
    /// selection is cleared.
    pub open spec fn after_quit(
        self,
        action: QuitAction,
        first_name: Seq<char>,
        reports: Seq<ReportView>,
        now: u64,
    ) -> AppView {
        let status = quit_summary(action, first_name, reports);
        AppView {
            history: keep_last(
                self.history + reports.map_values(
                    |r: ReportView|
                        HistoryView {
                            timestamp: r.timestamp,
                            name: r.name,
                            action,
                            success: r.success,
                        },
                ),
                HISTORY_LIMIT as nat,
            ),
            selected: Set::empty(),
            ..self.with_status(status.0, status.1, now)
        }
    }

    /// The state after a graceful quit for a restart, and the outside work that follows.
    pub open spec fn after_restart(self, app: GuiApp, ok: bool, now: u64) -> (AppView, EffectView) {
        if ok {
            (self.with_status("Restarting "@ + app.name@ + "..."@, true, now), EffectView::Relaunch { app })
        } else {
            (self.with_status("Failed to restart "@ + app.name@, false, now), EffectView::Nothing)
        }
    }

    /// The state at time `now` once an old status message has expired.
    pub open spec fn cleared(self, now: u64) -> AppView {
        match self.status_set_at {
            Some(t) => if elapsed(now, t) > STATUS_TIMEOUT_MS {
                AppView { status: None, status_set_at: None, ..self }
            } else {
                self
            },
            None => self,
        }
    }

    /// The state after a mouse event at time `now`, and the message it produces.
    pub open spec fn mouse_step(self, mouse: MouseEvent, now: u64) -> (AppView, Option<Message>) {
        match mouse.kind {
            MouseEventKind::ScrollUp => (self, Some(Message::MoveUp)),
            MouseEventKind::ScrollDown => (self, Some(Message::MoveDown)),
            MouseEventKind::LeftDown => {
                let list_start: u16 = if self.filter_active {
                    10
                } else {
                    9
                };
                let len = self.visible().len();
                if mouse.row < list_start || len == 0 {
                    (self, None)
                } else {
                    let index = (mouse.row - list_start) as int;
                    let clamped = (if index < len - 1 {
                        index
                    } else {
                        len - 1
                    }) as usize;
                    match self.last_click {
                        Some((r, t)) => if r == mouse.row && elapsed(now, t) < DOUBLE_CLICK_MS {
                            (
                                AppView { last_click: None, selected_index: clamped, ..self },
                                Some(Message::ToggleSelect),
                            )
                        } else {
                            (
                                AppView { last_click: Some((mouse.row, now)), selected_index: clamped, ..self },
                                None,
                            )
                        },
                        None => (
                            AppView { last_click: Some((mouse.row, now)), selected_index: clamped, ..self },
                            None,
                        ),
                    }
                }
            },
            MouseEventKind::Other => (self, None),
        }
    }

    /// The state after `msg` at time `now`, and the outside work it asks for.
    pub open spec fn step(self, msg: Message, now: u64) -> (AppView, EffectView) {
        match msg {
            Message::MoveUp => if self.selected_index > 0 {
                (AppView { selected_index: (self.selected_index - 1) as usize, ..self }, EffectView::Nothing)
            } else {
                (self, EffectView::Nothing)
            },
            Message::MoveDown => {
                let len = self.visible().len();
                if len > 0 && self.selected_index < len - 1 {
                    (AppView { selected_index: (self.selected_index + 1) as usize, ..self }, EffectView::Nothing)
                } else {
                    (self, EffectView::Nothing)
                }
            },
            Message::ToggleSelect => match self.cursor_app() {
                Some(a) => if self.is_protected(a.name@) {
                    (self.with_status("Cannot quit protected app: "@ + a.name@, false, now), EffectView::Nothing)
                } else if self.selected.contains(a.pid) {
                    (AppView { selected: self.selected.remove(a.pid), ..self }, EffectView::Nothing)
                } else {
                    (AppView { selected: self.selected.insert(a.pid), ..self }, EffectView::Nothing)
                },
                None => (self, EffectView::Nothing),
            },
            Message::SelectAll => (AppView { selected: self.selectable_pids(), ..self }, EffectView::Nothing),
            Message::DeselectAll => (AppView { selected: Set::empty(), ..self }, EffectView::Nothing),
            Message::RequestGracefulQuit | Message::RequestForceQuit => {
                let t = self.targets();
                if t.len() == 0 {
                    (self.warn_if_protected(now), EffectView::Nothing)
                } else {
                    let action = if msg == Message::RequestForceQuit {
                        QuitAction::Force
                    } else {
                        QuitAction::Graceful
                    };
                    (
                        AppView {
                            dialog: Some(
                                DialogView { names: t.map_values(|a: GuiApp| a.name@), action },
                            ),
                            ..self
                        },
                        EffectView::Nothing,
                    )
                }
            },
            Message::RequestRestart => {
                let t = self.targets();
                if t.len() == 0 {
                    (self.warn_if_protected(now), EffectView::Nothing)
                } else {
                    (self, EffectView::Restart { app: t[0] })
                }
            },
            Message::ConfirmYes => match self.dialog {
                Some(d) => (
                    AppView { dialog: None, ..self },
                    EffectView::Quit { action: d.action, targets: self.targets(), first_name: d.names[0] },
                ),
                None => (self, EffectView::Nothing),
            },
            Message::ConfirmNo => (AppView { dialog: None, ..self }, EffectView::Nothing),
            Message::RefreshList => (self, EffectView::Refresh),
            Message::Quit => if self.dialog is Some {
                (AppView { dialog: None, ..self }, EffectView::Nothing)
            } else {
                (AppView { running: false, ..self }, EffectView::Nothing)
            },
            Message::EnterFilter => (
                AppView { filter_active: true, filter_query: Seq::empty(), selected_index: 0, ..self },
                EffectView::Nothing,
            ),
            Message::ExitFilter => (
                AppView { filter_active: false, filter_query: Seq::empty(), selected_index: 0, ..self },
                EffectView::Nothing,
            ),
            Message::FilterInput(c) => (
                AppView { filter_query: self.filter_query.push(c), selected_index: 0, ..self },
                EffectView::Nothing,
            ),
            Message::FilterBackspace => (
                AppView {
                    filter_query: if self.filter_query.len() > 0 {
                        self.filter_query.drop_last()
                    } else {
                        self.filter_query
                    },
                    selected_index: 0,
                    ..self
                },
                EffectView::Nothing,
            ),
            Message::CycleSort => (
                AppView { sort_mode: next_sort(self.sort_mode), selected_index: 0, ..self },
                EffectView::Nothing,
            ),
            Message::ToggleGrouping => (
                AppView { group_mode: !self.group_mode, selected_index: 0, ..self },
                EffectView::Nothing,
            ),
            Message::ToggleHistory => (AppView { show_history: !self.show_history, ..self }, EffectView::Nothing),
            Message::TogglePreview => (AppView { show_preview: !self.show_preview, ..self }, EffectView::Nothing),
        }
    }
}


/// State of the interactive manager.
pub struct App {
    pub apps: Vec<GuiApp>,
    pub selected_index: usize,
    /// Pids of the selected applications, each once.
    pub selected_pids: Vec<u32>,
    pub running: bool,
    pub status_message: Option<(String, bool)>,
    pub confirm_dialog: Option<ConfirmDialog>,
    /// When the status message was set, in milliseconds of a monotonic clock.
    pub status_set_at: Option<u64>,
    pub filter_query: String,
    pub filter_active: bool,
    pub sort_mode: SortMode,
    pub group_mode: bool,
    pub show_history: bool,
    pub show_preview: bool,
    pub quit_history: Vec<HistoryEntry>,
    pub protected_apps: Vec<String>,
    /// Row and time (milliseconds of a monotonic clock) of the last left click.
    pub last_click: Option<(u16, u64)>,
}

impl View for App {
    type V = AppView;

    open spec fn view(&self) -> AppView {
        AppView {
            apps: self.apps@,
            selected_index: self.selected_index,
            selected: Set::new(|p: u32| self.selected_pids@.contains(p)),
            running: self.running,
            status: match self.status_message {
                Some((m, ok)) => Some((m@, ok)),
                None => None,
            },
            status_set_at: self.status_set_at,
            dialog: match self.confirm_dialog {
                Some(d) => Some(d@),
                None => None,
            },
            filter_query: self.filter_query@,
            filter_active: self.filter_active,
            sort_mode: self.sort_mode,
            group_mode: self.group_mode,
            show_history: self.show_history,
            show_preview: self.show_preview,
            history: self.quit_history@.map_values(|h: HistoryEntry| h@),
            protected: self.protected_apps@.map_values(|n: String| n@),
            last_click: self.last_click,
        }
    }
}

/// The state right after start: the given applications and protected names, cursor at
/// the top, nothing selected, no filter, sorted by name.
pub open spec fn initial_view(apps: Seq<GuiApp>, protected: Seq<Seq<char>>) -> AppView {
    AppView {
        apps,
        selected_index: 0,
        selected: Set::empty(),
        running: true,
        status: None,
        status_set_at: None,
        dialog: None,
        filter_query: Seq::empty(),
        filter_active: false,
        sort_mode: SortMode::NameAsc,
        group_mode: false,
        show_history: false,
        show_preview: false,
        history: Seq::empty(),
        protected,
        last_click: None,
    }
}

/// The names that are always protected, whatever the configuration says.
pub open spec fn default_protected() -> Seq<Seq<char>> {
    seq!["Finder"@, "loginwindow"@, "SystemUIServer"@, "Dock"@, "WindowServer"@]
}

/// The protected names: the built-in ones, followed by those that the user's
/// configuration adds.
pub fn protected_names(configured: Vec<String>) -> (r: Vec<String>)
    ensures
        r@.map_values(|n: String| n@) == default_protected() + configured@.map_values(
            |n: String| n@,
        ),
{
    let mut r: Vec<String> = Vec::new();
    r.push(String::from_str("Finder"));
    r.push(String::from_str("loginwindow"));
    r.push(String::from_str("SystemUIServer"));
    r.push(String::from_str("Dock"));
    r.push(String::from_str("WindowServer"));
    let ghost base = r@.map_values(|n: String| n@);
    proof {
        assert(base =~= default_protected());
    }
    let mut i: usize = 0;
    while i < configured.len()
        invariant
            i <= configured@.len(),
            base == default_protected(),
            r@.map_values(|n: String| n@) =~= base + configured@.take(i as int).map_values(
                |n: String| n@,
            ),
        decreases configured@.len() - i,
    {
        let name = configured[i].clone();
        let ghost prev = r@;
        r.push(name);
        i = i + 1;
        proof {
            assert(configured@.take(i as int) =~= configured@.take(i - 1).push(configured@[i - 1]));
            assert(r@.map_values(|n: String| n@) =~= prev.map_values(|n: String| n@).push(name@));
        }
    }
    proof {
        assert(configured@.take(i as int) =~= configured@);
    }
    r
}

impl App {
    /// Representation invariant: each selected pid is kept once, a pending dialog names
    /// at least one application, and the history holds at most `HISTORY_LIMIT` entries.
    pub open spec fn wf(&self) -> bool {
        &&& self.selected_pids@.no_duplicates()
        &&& self.quit_history@.len() <= HISTORY_LIMIT
        &&& match self.confirm_dialog {
            Some(d) => d.app_names@.len() > 0,
            None => true,
        }
    }

    /// The state right after start, over the listed applications and protected names.
    pub fn new(apps: Vec<GuiApp>, protected_apps: Vec<String>) -> (r: App)
        ensures
            r.wf(),
            r@ == initial_view(apps@, protected_apps@.map_values(|n: String| n@)),
    {
        let r = App {
            apps,
            selected_index: 0,
            selected_pids: Vec::new(),
            running: true,
            status_message: None,
            confirm_dialog: None,
            status_set_at: None,
            filter_query: String::new(),
            filter_active: false,
            sort_mode: SortMode::NameAsc,
            group_mode: false,
            show_history: false,
            show_preview: false,
            quit_history: Vec::new(),
            protected_apps,
            last_click: None,
        };
        proof {
            assert(r@.selected =~= Set::<u32>::empty());
            assert(r@.history =~= Seq::<HistoryView>::empty());
        }
        r
    }

    /// Whether the name is on the protected list.
    pub fn is_protected(&self, name: &str) -> (r: bool)
        ensures
            r == self@.is_protected(name@),
    {
        let mut i: usize = 0;
        while i < self.protected_apps.len()
            invariant
                i <= self.protected_apps@.len(),
                forall|k: int| 0 <= k < i ==> self.protected_apps@[k]@ != name@,
            decreases self.protected_apps@.len() - i,
        {
            if same_text(self.protected_apps[i].as_str(), name) {
                proof {
                    assert(self@.protected[i as int] == name@);
                }
                return true;
            }
            i = i + 1;
        }
        proof {
            if self@.protected.contains(name@) {
                let k = choose|k: int| 0 <= k < self@.protected.len() && self@.protected[k] == name@;
                assert(self.protected_apps@[k]@ == name@);
            }
        }
        false
    }

    /// Whether the pid is selected.
    pub fn selected_pids_contain(&self, pid: u32) -> (r: bool)
        ensures
            r == self@.selected.contains(pid),
    {
        self.is_selected(pid)
    }

    /// Whether the pid is selected.
    fn is_selected(&self, pid: u32) -> (r: bool)
        ensures
            r == self@.selected.contains(pid),
    {
        let mut i: usize = 0;
        while i < self.selected_pids.len()
            invariant
                i <= self.selected_pids@.len(),
                forall|k: int| 0 <= k < i ==> self.selected_pids@[k] != pid,
            decreases self.selected_pids@.len() - i,
        {
            if self.selected_pids[i] == pid {
                return true;
            }
            i = i + 1;
        }
        false
    }

    /// Positions of the shown applications, in the order shown.
    fn visible(&self) -> (r: Vec<usize>)
        ensures
            r@ == self@.visible(),
            forall|k: int| 0 <= k < r@.len() ==> #[trigger] r@[k] < self.apps@.len(),
    {
        visible_positions(&self.apps, self.filter_query.as_str(), self.sort_mode)
    }

    /// The shown applications, in the order shown: those whose name contains the filter
    /// text (ignoring case), sorted stably by the sort mode.
    pub fn filtered_sorted_apps(&self) -> (r: Vec<&GuiApp>)
        ensures
            r@.len() == self@.visible().len(),
            forall|k: int| 0 <= k < r@.len() ==> *r@[k] == #[trigger] self@.shown(k),
    {
        let v = self.visible();
        let mut r: Vec<&GuiApp> = Vec::new();
        let mut k: usize = 0;
        while k < v.len()
            invariant
                k <= v@.len(),
                v@ == self@.visible(),
                forall|q: int| 0 <= q < v@.len() ==> #[trigger] v@[q] < self.apps@.len(),
                r@.len() == k,
                forall|q: int| 0 <= q < r@.len() ==> *r@[q] == #[trigger] self@.shown(q),
            decreases v@.len() - k,
        {
            r.push(&self.apps[v[k]]);
            k = k + 1;
        }
        r
    }

    /// The selection is empty exactly when no pid is kept.
    proof fn lemma_selection_empty(&self)
        ensures
            self@.selected.is_empty() <==> self.selected_pids@.len() == 0,
    {
        if self.selected_pids@.len() > 0 {
            assert(self@.selected.contains(self.selected_pids@[0]));
        } else {
            assert(self@.selected =~= Set::<u32>::empty());
        }
    }

    /// Positions of the applications an action applies to.
    fn target_positions(&self) -> (r: Vec<usize>)
        ensures
            r@ == self@.target_positions(),
            forall|k: int| 0 <= k < r@.len() ==> #[trigger] r@[k] < self.apps@.len(),
    {
        let v = self.visible();
        let ghost sel_pred = |i: usize| self@.selected.contains(self@.apps[i as int].pid);
        let ghost prot_pred = |i: usize| !self@.is_protected(self@.apps[i as int].name@);
        proof {
            self.lemma_selection_empty();
            reveal(Seq::filter);
        }
        let mut cands: Vec<usize> = Vec::new();
        if self.selected_pids.len() == 0 {
            if self.selected_index < v.len() {
                cands.push(v[self.selected_index]);
            }
            proof {
                if self.selected_index < v.len() {
                    assert(cands@ =~= seq![v@[self.selected_index as int]]);
                } else {
                    assert(cands@ =~= Seq::<usize>::empty());
                }
            }
        } else {
            let mut k: usize = 0;
            while k < v.len()
                invariant
                    k <= v@.len(),
                    v@ == self@.visible(),
                    forall|q: int| 0 <= q < v@.len() ==> #[trigger] v@[q] < self.apps@.len(),
                    sel_pred == (|i: usize| self@.selected.contains(self@.apps[i as int].pid)),
                    cands@ == v@.take(k as int).filter(sel_pred),
                    forall|q: int| 0 <= q < cands@.len() ==> #[trigger] cands@[q] < self.apps@.len(),
                decreases v@.len() - k,
            {
                let i = v[k];
                let keep = self.is_selected(self.apps[i].pid);
                proof {
                    assert(v@.take(k + 1) =~= v@.take(k as int).push(i));
                    v@.take(k as int).lemma_filter_push(i, sel_pred);
                }
                if keep {
                    cands.push(i);
                }
                k = k + 1;
            }
            proof {
                assert(v@.take(v@.len() as int) =~= v@);
            }
        }
        let mut r: Vec<usize> = Vec::new();
        let mut k: usize = 0;
        proof {
            assert(cands@.take(0) =~= Seq::<usize>::empty());
        }
        while k < cands.len()
            invariant
                k <= cands@.len(),
                forall|q: int| 0 <= q < cands@.len() ==> #[trigger] cands@[q] < self.apps@.len(),
                prot_pred == (|i: usize| !self@.is_protected(self@.apps[i as int].name@)),
                r@ == cands@.take(k as int).filter(prot_pred),
                forall|q: int| 0 <= q < r@.len() ==> #[trigger] r@[q] < self.apps@.len(),
            decreases cands@.len() - k,
        {
            let i = cands[k];
            let keep = !self.is_protected(self.apps[i].name.as_str());
            proof {
                assert(cands@.take(k + 1) =~= cands@.take(k as int).push(i));
                cands@.take(k as int).lemma_filter_push(i, prot_pred);
            }
            if keep {
                r.push(i);
            }
            k = k + 1;
        }
        proof {
            assert(cands@.take(cands@.len() as int) =~= cands@);
        }
        r
    }

    /// Sets the status message, stamped with time `now`.
    fn set_status(&mut self, msg: String, ok: bool, now: u64)
        requires
            old(self).wf(),
        ensures
            final(self).wf(),
            final(self)@ == old(self)@.with_status(msg@, ok, now),
    {
        self.status_message = Some((msg, ok));
        self.status_set_at = Some(now);
    }

    /// Position in `apps` of the application under the cursor.
    fn cursor_position(&self) -> (r: Option<usize>)
        ensures
            match r {
                Some(i) => i < self.apps@.len() && self@.cursor_app() == Some(self.apps@[i as int]),
                None => self@.cursor_app() is None,
            },
    {
        let v = self.visible();
        if self.selected_index < v.len() {
            Some(v[self.selected_index])
        } else {
            None
        }
    }

    /// The message that an application is protected.
    fn protected_message(name: &str) -> (r: String)
        ensures
            r@ == "Cannot quit protected app: "@ + name@,
    {
        let mut m = String::from_str("Cannot quit protected app: ");
        m.append(name);
        m
    }

    /// Warns if the application under the cursor is protected.
    fn warn_if_protected(&mut self, now: u64)
        requires
            old(self).wf(),
        ensures
            final(self).wf(),
            final(self)@ == old(self)@.warn_if_protected(now),
    {
        match self.cursor_position() {
            Some(i) => {
                if self.is_protected(self.apps[i].name.as_str()) {
                    let m = Self::protected_message(self.apps[i].name.as_str());
                    self.set_status(m, false, now);
                }
            },
            None => {},
        }
    }

    /// Index of the pid in the kept selection.
    fn find_selected(&self, pid: u32) -> (r: Option<usize>)
        ensures
            match r {
                Some(i) => i < self.selected_pids@.len() && self.selected_pids@[i as int] == pid,
                None => !self.selected_pids@.contains(pid),
            },
    {
        let mut i: usize = 0;
        while i < self.selected_pids.len()
            invariant
                i <= self.selected_pids@.len(),
                forall|k: int| 0 <= k < i ==> self.selected_pids@[k] != pid,
            decreases self.selected_pids@.len() - i,
        {
            if self.selected_pids[i] == pid {
                return Some(i);
            }
            i = i + 1;
        }
        None
    }

    /// Selects or deselects a pid.
    fn toggle_pid(&mut self, pid: u32)
        requires
            old(self).wf(),
        ensures
            final(self).wf(),
            final(self)@ == old(self)@.with_selected(
                if old(self)@.selected.contains(pid) {
                    old(self)@.selected.remove(pid)
                } else {
                    old(self)@.selected.insert(pid)
                },
            ),
    {
        let ghost before = self.selected_pids@;
        match self.find_selected(pid) {
            Some(i) => {
                self.selected_pids.remove(i);
                proof {
                    let after = self.selected_pids@;
                    assert(after == before.remove(i as int));
                    assert forall|p: u32| after.contains(p) <==> (before.contains(p) && p != pid) by {
                        if after.contains(p) {
                            let k = choose|k: int| 0 <= k < after.len() && after[k] == p;
                            if k < i {
                                assert(before[k] == p);
                                assert(k != i);
                            } else {
                                assert(before[k + 1] == p);
                                assert(k + 1 != i);
                            }
                        }
                        if before.contains(p) && p != pid {
                            let k = choose|k: int| 0 <= k < before.len() && before[k] == p;
                            if k < i {
                                assert(after[k] == p);
                            } else {
                                assert(k != i);
                                assert(after[k - 1] == p);
                            }
                        }
                    }
                    assert(self@.selected =~= old(self)@.selected.remove(pid));
                    assert forall|a: int, b: int| 0 <= a < b < after.len() implies after[a] != after[b] by {
                        let a2 = if a < i { a } else { a + 1 };
                        let b2 = if b < i { b } else { b + 1 };
                        assert(after[a] == before[a2] && after[b] == before[b2]);
                    }
                }
            },
            None => {
                self.selected_pids.push(pid);
                proof {
                    let after = self.selected_pids@;
                    assert(after == before.push(pid));
                    assert forall|p: u32| after.contains(p) <==> (before.contains(p) || p == pid) by {
                        if before.contains(p) {
                            let k = choose|k: int| 0 <= k < before.len() && before[k] == p;
                            assert(after[k] == p);
                        }
                        if p == pid {
                            assert(after[before.len() as int] == p);
                        }
                        if after.contains(p) {
                            let k = choose|k: int| 0 <= k < after.len() && after[k] == p;
                            if k < before.len() {
                                assert(before[k] == p);
                            }
                        }
                    }
                    assert(self@.selected =~= old(self)@.selected.insert(pid));
                    assert forall|a: int, b: int| 0 <= a < b < self.selected_pids@.len() implies self.selected_pids@[a] != self.selected_pids@[b] by {
                        if b == before.len() {
                            assert(before.contains(before[a]));
                        }
                    }
                }
            },
        }
    }

    /// Selects every shown application that is not protected.
    fn select_all(&mut self)
        requires
            old(self).wf(),
        ensures
            final(self).wf(),
            final(self)@ == old(self)@.with_selected(old(self)@.selectable_pids()),
    {
        let v = self.visible();
        let mut pids: Vec<u32> = Vec::new();
        let ghost view = self@;
        let mut k: usize = 0;
        while k < v.len()
            invariant
                k <= v@.len(),
                view == self@,
                v@ == view.visible(),
                forall|q: int| 0 <= q < v@.len() ==> #[trigger] v@[q] < self.apps@.len(),
                pids@.no_duplicates(),
                forall|p: u32| pids@.contains(p) <==> (exists|j: int|
                    0 <= j < k && #[trigger] view.shown(j).pid == p && !view.is_protected(view.shown(j).name@)),
            decreases v@.len() - k,
        {
            let i = v[k];
            let pid = self.apps[i].pid;
            let ghost old_pids = pids@;
            proof {
                assert(view.shown(k as int) == self.apps@[i as int]);
            }
            if !self.is_protected(self.apps[i].name.as_str()) {
                let mut present = false;
                let mut q: usize = 0;
                while q < pids.len()
                    invariant
                        q <= pids@.len(),
                        present == (exists|j: int| 0 <= j < q && pids@[j] == pid),
                    decreases pids@.len() - q,
                {
                    if pids[q] == pid {
                        present = true;
                    }
                    q = q + 1;
                }
                if !present {
                    pids.push(pid);
                    proof {
                        assert forall|a: int, b: int| 0 <= a < b < pids@.len() implies pids@[a] != pids@[b] by {
                            if b == old_pids.len() {
                                assert(pids@[a] == old_pids[a]);
                            }
                        }
                    }
                }
                proof {
                    assert forall|p: u32| pids@.contains(p) <==> (exists|j: int|
                        0 <= j < k + 1 && #[trigger] view.shown(j).pid == p && !view.is_protected(view.shown(j).name@)) by {
                        if p == pid {
                            assert(view.shown(k as int).pid == p);
                            if present {
                                let j = choose|j: int| 0 <= j < old_pids.len() && old_pids[j] == pid;
                                assert(old_pids.contains(p));
                            } else {
                                assert(pids@[old_pids.len() as int] == p);
                            }
                        } else {
                            if pids@.contains(p) {
                                let j = choose|j: int| 0 <= j < pids@.len() && pids@[j] == p;
                                assert(old_pids[j] == p);
                                assert(old_pids.contains(p));
                            }
                            if old_pids.contains(p) {
                                let j = choose|j: int| 0 <= j < old_pids.len() && old_pids[j] == p;
                                assert(pids@[j] == p);
                            }
                            if exists|j: int| 0 <= j < k + 1 && #[trigger] view.shown(j).pid == p && !view.is_protected(view.shown(j).name@) {
                                let j = choose|j: int| 0 <= j < k + 1 && #[trigger] view.shown(j).pid == p && !view.is_protected(view.shown(j).name@);
                                assert(j != k);
                            }
                        }
                    }
                }
            } else {
                proof {
                    assert forall|p: u32| pids@.contains(p) <==> (exists|j: int|
                        0 <= j < k + 1 && #[trigger] view.shown(j).pid == p && !view.is_protected(view.shown(j).name@)) by {
                        if exists|j: int| 0 <= j < k + 1 && #[trigger] view.shown(j).pid == p && !view.is_protected(view.shown(j).name@) {
                            let j = choose|j: int| 0 <= j < k + 1 && #[trigger] view.shown(j).pid == p && !view.is_protected(view.shown(j).name@);
                            assert(j != k);
                        }
                    }
                }
            }
            k = k + 1;
        }
        self.selected_pids = pids;
        proof {
            assert(self@.selected =~= view.selectable_pids());
        }
    }

    /// Copies of the applications an action applies to.
    fn target_apps(&self) -> (r: Vec<GuiApp>)
        ensures
            r@ == self@.targets(),
    {
        let t = self.target_positions();
        let mut r: Vec<GuiApp> = Vec::new();
        let mut k: usize = 0;
        while k < t.len()
            invariant
                k <= t@.len(),
                t@ == self@.target_positions(),
                forall|q: int| 0 <= q < t@.len() ==> #[trigger] t@[q] < self.apps@.len(),
                r@ =~= t@.take(k as int).map_values(|i: usize| self@.apps[i as int]),
            decreases t@.len() - k,
        {
            r.push(self.apps[t[k]].duplicate());
            k = k + 1;
            proof {
                assert(t@.take(k as int).map_values(|i: usize| self@.apps[i as int]) =~= t@.take(
                    (k - 1) as int,
                ).map_values(|i: usize| self@.apps[i as int]).push(self@.apps[t@[k - 1] as int]));
            }
        }
        proof {
            assert(t@.take(t@.len() as int) =~= t@);
        }
        r
    }

    /// Applies a message at time `now` (milliseconds of a monotonic clock) and returns
    /// the outside work it asks for.
    pub fn update(&mut self, msg: Message, now: u64) -> (e: Effect)
        requires
            old(self).wf(),
        ensures
            final(self).wf(),
            (final(self)@, e@) == old(self)@.step(msg, now),
    {
        match msg {
            Message::MoveUp => {
                if self.selected_index > 0 {
                    self.selected_index = self.selected_index - 1;
                }
                Effect::Nothing
            },
            Message::MoveDown => {
                let len = self.visible().len();
                if len > 0 && self.selected_index < len - 1 {
                    self.selected_index = self.selected_index + 1;
                }
                Effect::Nothing
            },
            Message::ToggleSelect => {
                match self.cursor_position() {
                    Some(i) => {
                        if self.is_protected(self.apps[i].name.as_str()) {
                            let m = Self::protected_message(self.apps[i].name.as_str());
                            self.set_status(m, false, now);
                        } else {
                            let pid = self.apps[i].pid;
                            self.toggle_pid(pid);
                        }
                    },
                    None => {},
                }
                Effect::Nothing
            },
            Message::SelectAll => {
                self.select_all();
                Effect::Nothing
            },
            Message::DeselectAll => {
                self.selected_pids.clear();
                proof {
                    assert(self@.selected =~= Set::<u32>::empty());
                }
                Effect::Nothing
            },
            Message::RequestGracefulQuit | Message::RequestForceQuit => {
                let targets = self.target_apps();
                if targets.len() == 0 {
                    self.warn_if_protected(now);
                    return Effect::Nothing;
                }
                let action = if msg == Message::RequestForceQuit {
                    QuitAction::Force
                } else {
                    QuitAction::Graceful
                };
                let mut names: Vec<String> = Vec::new();
                let mut k: usize = 0;
                while k < targets.len()
                    invariant
                        k <= targets@.len(),
                        names@.len() == k,
                        forall|q: int| 0 <= q < k ==> #[trigger] names@[q]@ == targets@[q].name@,
                    decreases targets@.len() - k,
                {
                    names.push(targets[k].name.clone());
                    k = k + 1;
                }
                proof {
                    assert(names@.map_values(|n: String| n@) =~= targets@.map_values(
                        |a: GuiApp| a.name@,
                    ));
                }
                self.confirm_dialog = Some(ConfirmDialog { app_names: names, action });
                Effect::Nothing
            },
            Message::RequestRestart => {
                let mut targets = self.target_apps();
                if targets.len() == 0 {
                    self.warn_if_protected(now);
                    return Effect::Nothing;
                }
                let app = targets.swap_remove(0);
                Effect::Restart { app }
            },
            Message::ConfirmYes => {
                let targets = self.target_apps();
                let dialog = self.confirm_dialog.take();
                match dialog {
                    Some(d) => {
                        let first_name = d.app_names[0].clone();
                        proof {
                            assert(first_name@ == d@.names[0]);
                        }
                        Effect::Quit { action: d.action, targets, first_name }
                    },
                    None => Effect::Nothing,
                }
            },
            Message::ConfirmNo => {
                self.confirm_dialog = None;
                Effect::Nothing
            },
            Message::RefreshList => Effect::Refresh,
            Message::Quit => {
                if self.confirm_dialog.is_some() {
                    self.confirm_dialog = None;
                } else {
                    self.running = false;
                }
                Effect::Nothing
            },
            Message::EnterFilter => {
                self.filter_active = true;
                self.filter_query = String::new();
                self.selected_index = 0;
                Effect::Nothing
            },
            Message::ExitFilter => {
                self.filter_active = false;
                self.filter_query = String::new();
                self.selected_index = 0;
                Effect::Nothing
            },
            Message::FilterInput(c) => {
                push_char(&mut self.filter_query, c);
                self.selected_index = 0;
                Effect::Nothing
            },
            Message::FilterBackspace => {
                let _ = pop_char(&mut self.filter_query);
                self.selected_index = 0;
                Effect::Nothing
            },
            Message::CycleSort => {
                self.sort_mode = self.sort_mode.next();
                self.selected_index = 0;
                Effect::Nothing
            },
            Message::ToggleGrouping => {
                self.group_mode = !self.group_mode;
                self.selected_index = 0;
                Effect::Nothing
            },
            Message::ToggleHistory => {
                self.show_history = !self.show_history;
                Effect::Nothing
            },
            Message::TogglePreview => {
                self.show_preview = !self.show_preview;
                Effect::Nothing
            },
        }
    }

    /// Applies the result of listing the applications again (`None` if listing failed).
    pub fn apply_refresh(&mut self, listed: Option<Vec<GuiApp>>)
        requires
            old(self).wf(),
        ensures
            final(self).wf(),
            final(self)@ == old(self)@.refreshed(
                match listed {
                    Some(v) => Some(v@),
                    None => None,
                },
            ),
    {
        match listed {
            None => {},
            Some(apps) => {
                let ghost old_view = self@;
                self.apps = apps;
                let mut kept: Vec<u32> = Vec::new();
                let mut k: usize = 0;
                while k < self.selected_pids.len()
                    invariant
                        k <= self.selected_pids@.len(),
                        self.selected_pids@.no_duplicates(),
                        kept@.no_duplicates(),
                        forall|q: int| 0 <= q < kept@.len() ==> exists|j: int| 0 <= j < k && #[trigger] kept@[q] == self.selected_pids@[j],
                        forall|p: u32| kept@.contains(p) <==> (exists|j: int| 0 <= j < k && self.selected_pids@[j] == p) && (exists|i: int|
                            0 <= i < self.apps@.len() && #[trigger] self.apps@[i].pid == p),
                    decreases self.selected_pids@.len() - k,
                {
                    let pid = self.selected_pids[k];
                    let mut found = false;
                    let mut i: usize = 0;
                    while i < self.apps.len()
                        invariant
                            i <= self.apps@.len(),
                            found == (exists|j: int| 0 <= j < i && #[trigger] self.apps@[j].pid == pid),
                        decreases self.apps@.len() - i,
                    {
                        if self.apps[i].pid == pid {
                            found = true;
                        }
                        i = i + 1;
                    }
                    let ghost before = kept@;
                    if found {
                        kept.push(pid);
                    }
                    proof {
                        assert forall|p: u32| kept@.contains(p) <==> (exists|j: int| 0 <= j < k + 1 && self.selected_pids@[j] == p) && (exists|i: int|
                            0 <= i < self.apps@.len() && #[trigger] self.apps@[i].pid == p) by {
                            if kept@.contains(p) {
                                let q = choose|q: int| 0 <= q < kept@.len() && kept@[q] == p;
                                if q < before.len() {
                                    assert(before[q] == p);
                                    assert(before.contains(p));
                                }
                            }
                            if before.contains(p) {
                                let q = choose|q: int| 0 <= q < before.len() && before[q] == p;
                                assert(kept@[q] == p);
                            }
                            if p == pid && found {
                                assert(kept@[before.len() as int] == p);
                            }
                            if exists|j: int| 0 <= j < k + 1 && self.selected_pids@[j] == p {
                                let j = choose|j: int| 0 <= j < k + 1 && self.selected_pids@[j] == p;
                                if j < k {
                                    assert(exists|j: int| 0 <= j < k && self.selected_pids@[j] == p);
                                }
                            }
                        }
                        assert forall|q: int| 0 <= q < kept@.len() implies exists|j: int| 0 <= j < k + 1 && #[trigger] kept@[q] == self.selected_pids@[j] by {
                            if q < before.len() {
                                assert(kept@[q] == before[q]);
                            } else {
                                assert(kept@[q] == self.selected_pids@[k as int]);
                            }
                        }
                        assert forall|a: int, b: int| 0 <= a < b < kept@.len() implies kept@[a] != kept@[b] by {
                            if b == before.len() {
                                let j = choose|j: int| 0 <= j < k && #[trigger] kept@[a] == self.selected_pids@[j];
                                assert(kept@[a] == before[a]);
                            }
                        }
                    }
                    k = k + 1;
                }
                self.selected_pids = kept;
                let len = self.visible().len();
                proof {
                    assert(self@.selected =~= Set::new(
                        |p: u32|
                            old_view.selected.contains(p) && exists|i: int|
                                0 <= i < self.apps@.len() && #[trigger] self.apps@[i].pid == p,
                    ));
                }
                if self.selected_index >= len && len > 0 {
                    self.selected_index = len - 1;
                }
            },
        }
    }

    /// The status text after a batch of quit attempts.
    fn quit_summary_text(action: QuitAction, first_name: &str, total: usize, failed: usize) -> (r: (String, bool))
        requires
            failed <= total,
        ensures
            total == 1 && failed == 0 ==> (r.0@, r.1) == (first_name@ + " \u{2014} "@ + action_name(action) + " successfully"@, true),
            total == 1 && failed != 0 ==> (r.0@, r.1) == ("Failed to "@ + action_name(action) + " "@ + first_name@, false),
            total != 1 && failed == 0 ==> (r.0@, r.1) == (decimal((total - failed) as nat) + " apps "@ + action_name(action) + " successfully"@, true),
            total != 1 && failed != 0 ==> (r.0@, r.1) == (decimal((total - failed) as nat) + " succeeded, "@ + decimal(failed as nat) + " failed to "@ + action_name(action), false),
    {
        let name: &str = match action {
            QuitAction::Graceful => "quit",
            QuitAction::Force => "force quit",
        };
        let succeeded = total - failed;
        if total == 1 {
            if failed == 0 {
                let mut m = String::from_str(first_name);
                m.append(" \u{2014} ");
                m.append(name);
                m.append(" successfully");
                (m, true)
            } else {
                let mut m = String::from_str("Failed to ");
                m.append(name);
                m.append(" ");
                m.append(first_name);
                (m, false)
            }
        } else if failed == 0 {
            let mut m = String::new();
            push_decimal(&mut m, succeeded as u64);
            m.append(" apps ");
            m.append(name);
            m.append(" successfully");
            (m, true)
        } else {
            let mut m = String::new();
            push_decimal(&mut m, succeeded as u64);
            m.append(" succeeded, ");
            push_decimal(&mut m, failed as u64);
            m.append(" failed to ");
            m.append(name);
            (m, false)
        }
    }

    /// Applies the outcome of the quit attempts asked for by a `Quit` effect: `reports`
    /// holds one report per target, in order.
    pub fn finish_quit(
        &mut self,
        action: QuitAction,
        first_name: String,
        reports: Vec<QuitReport>,
        now: u64,
    ) -> (e: Effect)
        requires
            old(self).wf(),
        ensures
            final(self).wf(),
            final(self)@ == old(self)@.after_quit(
                action,
                first_name@,
                reports@.map_values(|r: QuitReport| r@),
                now,
            ),
            e is Refresh,
    {
        let ghost rv = reports@.map_values(|r: QuitReport| r@);
        let ghost to_entry = |r: ReportView|
            HistoryView { timestamp: r.timestamp, name: r.name, action, success: r.success };
        let ghost old_history = self@.history;
        let ghost failed_pred = |r: ReportView| !r.success;
        let mut history: Vec<HistoryEntry> = Vec::new();
        std::mem::swap(&mut history, &mut self.quit_history);
        let mut failed: usize = 0;
        let mut k: usize = 0;
        proof {
            assert(history@.map_values(|h: HistoryEntry| h@) == old_history);
            assert(rv.take(0).map_values(to_entry) =~= Seq::<HistoryView>::empty());
            assert(old_history + rv.take(0).map_values(to_entry) =~= old_history);
            assert(rv.take(0) =~= Seq::<ReportView>::empty());
            reveal(Seq::filter);
        }
        while k < reports.len()
            invariant
                k <= reports@.len(),
                rv == reports@.map_values(|r: QuitReport| r@),
                to_entry == (|r: ReportView|
                    HistoryView { timestamp: r.timestamp, name: r.name, action, success: r.success }),
                failed_pred == (|r: ReportView| !r.success),
                history@.len() <= HISTORY_LIMIT,
                old_history.len() <= HISTORY_LIMIT,
                history@.map_values(|h: HistoryEntry| h@) == keep_last(
                    old_history + rv.take(k as int).map_values(to_entry),
                    HISTORY_LIMIT as nat,
                ),
                failed == rv.take(k as int).filter(failed_pred).len(),
                failed <= k,
            decreases reports@.len() - k,
        {
            let r = &reports[k];
            let ghost before = history@.map_values(|h: HistoryEntry| h@);
            let entry = HistoryEntry {
                timestamp: r.timestamp,
                app_name: r.app_name.clone(),
                action,
                success: r.success,
            };
            let ghost e = entry@;
            history.push(entry);
            proof {
                assert(history@.map_values(|h: HistoryEntry| h@) =~= before.push(e));
            }
            if history.len() > HISTORY_LIMIT {
                let ghost pushed = history@;
                history.remove(0);
                proof {
                    assert(history@.map_values(|h: HistoryEntry| h@) =~= before.push(e).drop_first());
                }
            }
            if !r.success {
                failed = failed + 1;
            }
            proof {
                let x = rv[k as int];
                assert(e == to_entry(x));
                assert(rv.take(k + 1) =~= rv.take(k as int).push(x));
                rv.take(k as int).lemma_filter_push(x, failed_pred);
                let whole = old_history + rv.take(k as int).map_values(to_entry);
                assert(old_history + rv.take(k + 1).map_values(to_entry) =~= whole.push(e));
                let now_h = history@.map_values(|h: HistoryEntry| h@);
                let lim = HISTORY_LIMIT as int;
                if whole.len() > lim {
                    assert(before =~= whole.skip(whole.len() - lim));
                    assert(now_h =~= whole.push(e).skip(whole.len() + 1 - lim));
                } else if whole.len() == lim {
                    assert(before =~= whole);
                    assert(now_h =~= whole.push(e).skip(1));
                } else {
                    assert(before =~= whole);
                    assert(now_h =~= whole.push(e));
                }
                assert(now_h =~= keep_last(whole.push(e), HISTORY_LIMIT as nat));
            }
            k = k + 1;
        }
        self.quit_history = history;
        proof {
            assert(rv.take(reports@.len() as int) =~= rv);
            assert(self@.history == keep_last(old_history + rv.map_values(to_entry), HISTORY_LIMIT as nat));
            assert(failures(rv) == failed);
        }
        let (msg, ok) = Self::quit_summary_text(action, first_name.as_str(), reports.len(), failed);
        self.set_status(msg, ok, now);
        self.selected_pids.clear();
        proof {
            assert(self@.selected =~= Set::<u32>::empty());
            assert(self@.history =~= old(self)@.after_quit(action, first_name@, rv, now).history);
        }
        Effect::Refresh
    }

    /// Applies the outcome of the graceful quit asked for by a `Restart` effect.
    pub fn finish_restart(&mut self, app: GuiApp, ok: bool, now: u64) -> (e: Effect)
        requires
            old(self).wf(),
        ensures
            final(self).wf(),
            (final(self)@, e@) == old(self)@.after_restart(app, ok, now),
    {
        if ok {
            let mut m = String::from_str("Restarting ");
            m.append(app.name.as_str());
            m.append("...");
            self.set_status(m, true, now);
            Effect::Relaunch { app }
        } else {
            let mut m = String::from_str("Failed to restart ");
            m.append(app.name.as_str());
            self.set_status(m, false, now);
            Effect::Nothing
        }
    }

    /// Clears the status message once it is older than `STATUS_TIMEOUT_MS` at time `now`.
    pub fn clear_stale_status(&mut self, now: u64)
        requires
            old(self).wf(),
        ensures
            final(self).wf(),
            final(self)@ == old(self)@.cleared(now),
    {
        match self.status_set_at {
            Some(t) => {
                let age = if now >= t {
                    now - t
                } else {
                    0
                };
                if age > STATUS_TIMEOUT_MS {
                    self.status_message = None;
                    self.status_set_at = None;
                }
            },
            None => {},
        }
    }

    /// The message a key press produces in the current mode.
    pub fn handle_key_event(&self, key: KeyEvent) -> (r: Option<Message>)
        ensures
            r == key_message(
                self.confirm_dialog is Some,
                self.show_history,
                self.filter_active,
                key.code,
            ),
    {
        if self.confirm_dialog.is_some() {
            return match key.code {
                KeyCode::Char('y') | KeyCode::Enter => Some(Message::ConfirmYes),
                KeyCode::Char('n') | KeyCode::Esc => Some(Message::ConfirmNo),
                _ => None,
            };
        }
        if self.show_history {
            return match key.code {
                KeyCode::Char('l') | KeyCode::Esc => Some(Message::ToggleHistory),
                _ => None,
            };
        }
        if self.filter_active {
            return match key.code {
                KeyCode::Esc | KeyCode::Char('/') => Some(Message::ExitFilter),
                KeyCode::Backspace => Some(Message::FilterBackspace),
                KeyCode::Char(c) => if c != '\n' {
                    Some(Message::FilterInput(c))
                } else {
                    None
                },
                _ => None,
            };
        }
        match key.code {
            KeyCode::Up | KeyCode::Char('k') => Some(Message::MoveUp),
            KeyCode::Down | KeyCode::Char('j') => Some(Message::MoveDown),
            KeyCode::Char(' ') => Some(Message::ToggleSelect),
            KeyCode::Char('a') => Some(Message::SelectAll),
            KeyCode::Char('d') => Some(Message::DeselectAll),
            KeyCode::Enter | KeyCode::Char('r') => Some(Message::RequestGracefulQuit),
            KeyCode::Char('f') => Some(Message::RequestForceQuit),
            KeyCode::Char('R') => Some(Message::RefreshList),
            KeyCode::Char('e') => Some(Message::RefreshList),
            KeyCode::Char('q') => Some(Message::Quit),
            KeyCode::Char('/') => Some(Message::EnterFilter),
            KeyCode::Char('s') => Some(Message::CycleSort),
            KeyCode::Char('g') => Some(Message::ToggleGrouping),
            KeyCode::Char('l') => Some(Message::ToggleHistory),
            KeyCode::Tab | KeyCode::Char('p') => Some(Message::TogglePreview),
            KeyCode::Esc => Some(Message::Quit),
            _ => None,
        }
    }

    /// Reacts to a mouse event at time `now` (milliseconds of a monotonic clock): the
    /// wheel moves the cursor, a click moves it to the clicked row, and a second click on
    /// the same row within `DOUBLE_CLICK_MS` toggles selection.
    pub fn handle_mouse_event(&mut self, mouse: MouseEvent, now: u64) -> (r: Option<Message>)
        requires
            old(self).wf(),
        ensures
            final(self).wf(),
            (final(self)@, r) == old(self)@.mouse_step(mouse, now),
    {
        match mouse.kind {
            MouseEventKind::ScrollUp => Some(Message::MoveUp),
            MouseEventKind::ScrollDown => Some(Message::MoveDown),
            MouseEventKind::LeftDown => {
                let list_start: u16 = if self.filter_active {
                    10
                } else {
                    9
                };
                let row = mouse.row;
                if row < list_start {
                    return None;
                }
                let app_index = (row - list_start) as usize;
                let visible_len = self.visible().len();
                if visible_len == 0 {
                    return None;
                }
                let clamped = if app_index < visible_len - 1 {
                    app_index
                } else {
                    visible_len - 1
                };
                match self.last_click {
                    Some((last_row, last_time)) => {
                        let age = if now >= last_time {
                            now - last_time
                        } else {
                            0
                        };
                        if last_row == row && age < DOUBLE_CLICK_MS {
                            self.last_click = None;
                            self.selected_index = clamped;
                            return Some(Message::ToggleSelect);
                        }
                    },
                    None => {},
                }
                self.last_click = Some((row, now));
                self.selected_index = clamped;
                None
            },
            MouseEventKind::Other => None,
        }
    }
}


impl AppView {
    /// What holds in every reachable state: selected pids belong to listed applications,
    /// the cursor is on the list whenever the list is not empty, the history is within its
    /// limit, and a pending dialog names at least one application and no protected one.
    pub open spec fn inv(self) -> bool {
        &&& self.apps.len() <= usize::MAX
        &&& forall|p: u32| #[trigger] self.selected.contains(p) ==> exists|i: int|
            0 <= i < self.apps.len() && self.apps[i].pid == p
        &&& self.visible().len() == 0 || self.selected_index < self.visible().len()
        &&& self.history.len() <= HISTORY_LIMIT
        &&& match self.dialog {
            Some(d) => d.names.len() > 0 && forall|k: int|
                0 <= k < d.names.len() ==> !self.is_protected(#[trigger] d.names[k]),
            None => true,
        }
    }
}

proof fn lemma_visible_in_range(v: AppView)
    requires
        v.apps.len() <= usize::MAX,
    ensures
        forall|k: int| 0 <= k < v.visible().len() ==> #[trigger] v.visible()[k] < v.apps.len(),
{
    law_visible_order(v.apps, v.filter_query, v.sort_mode);
}

/// Actions never apply to a protected application: every target has a name that is
/// not on the protected list.
pub proof fn law_targets_never_protected(v: AppView)
    ensures
        forall|k: int| 0 <= k < v.targets().len() ==> !v.is_protected(#[trigger] v.targets()[k].name@),
{
    let pred = |i: usize| !v.is_protected(v.apps[i as int].name@);
    let vis = v.visible();
    let candidates = if v.selected.is_empty() {
        if v.selected_index < vis.len() {
            seq![vis[v.selected_index as int]]
        } else {
            Seq::<usize>::empty()
        }
    } else {
        vis.filter(|i: usize| v.selected.contains(v.apps[i as int].pid))
    };
    assert(v.target_positions() == candidates.filter(pred));
    assert forall|k: int| 0 <= k < v.targets().len() implies !v.is_protected(#[trigger] v.targets()[k].name@) by {
        candidates.lemma_filter_pred(pred, k);
    }
}

/// Quitting and restarting spare protected applications: no message asks for outside
/// work on a protected application.
pub proof fn law_effects_spare_protected(v: AppView, msg: Message, now: u64)
    ensures
        match v.step(msg, now).1 {
            EffectView::Quit { targets, .. } => forall|k: int|
                0 <= k < targets.len() ==> !v.is_protected(#[trigger] targets[k].name@),
            EffectView::Restart { app } => !v.is_protected(app.name@),
            _ => true,
        },
{
    law_targets_never_protected(v);
    if v.targets().len() > 0 {
        assert(!v.is_protected(v.targets()[0].name@));
    }
}

proof fn lemma_inv_frame(v: AppView, w: AppView)
    requires
        v.inv(),
        w.apps == v.apps,
        w.selected == v.selected,
        w.history == v.history,
        w.protected == v.protected,
        w.dialog is None || w.dialog == v.dialog,
        w.selected_index == 0 || (w.selected_index == v.selected_index && w.filter_query
            == v.filter_query && w.sort_mode == v.sort_mode),
    ensures
        w.inv(),
{
}

proof fn lemma_toggle_keeps_inv(v: AppView, now: u64)
    requires
        v.inv(),
    ensures
        v.step(Message::ToggleSelect, now).0.inv(),
{
    lemma_visible_in_range(v);
    let w = v.step(Message::ToggleSelect, now).0;
    if let Some(a) = v.cursor_app() {
        let pos = v.visible()[v.selected_index as int] as int;
        assert(v.apps[pos] == a);
        assert(w.visible() == v.visible());
        assert forall|p: u32| #[trigger] w.selected.contains(p) implies exists|i: int|
            0 <= i < w.apps.len() && w.apps[i].pid == p by {
            if p == a.pid {
                assert(w.apps[pos].pid == p);
            } else {
                assert(v.selected.contains(p));
            }
        }
    }
}

/// Every message keeps the state invariant.
pub proof fn law_step_keeps_inv(v: AppView, msg: Message, now: u64)
    requires
        v.inv(),
    ensures
        v.step(msg, now).0.inv(),
{
    lemma_visible_in_range(v);
    law_targets_never_protected(v);
    let w = v.step(msg, now).0;
    match msg {
        Message::ToggleSelect => {
            lemma_toggle_keeps_inv(v, now);
            assert(msg == Message::ToggleSelect);
        },
        Message::SelectAll => {
            assert forall|p: u32| #[trigger] w.selected.contains(p) implies exists|i: int|
                0 <= i < w.apps.len() && w.apps[i].pid == p by {
                let k = choose|k: int|
                    0 <= k < v.visible().len() && #[trigger] v.shown(k).pid == p && !v.is_protected(v.shown(k).name@);
                let i = v.visible()[k] as int;
                assert(w.apps[i].pid == p);
            }
        },
        Message::DeselectAll => {},
        Message::RequestGracefulQuit | Message::RequestForceQuit => {
            if v.targets().len() > 0 {
                let t = v.targets();
                let names = t.map_values(|a: GuiApp| a.name@);
                assert forall|k: int| 0 <= k < names.len() implies !w.is_protected(#[trigger] names[k]) by {
                    assert(names[k] == t[k].name@);
                }
            }
            assert(w.inv());
        },
        Message::MoveUp => {},
        Message::MoveDown => {},
        Message::RequestRestart => {
            lemma_inv_frame(v, w);
        },
        Message::ConfirmYes => {
            lemma_inv_frame(v, w);
        },
        Message::ConfirmNo => {
            lemma_inv_frame(v, w);
        },
        Message::RefreshList => {
            lemma_inv_frame(v, w);
        },
        Message::Quit => {
            lemma_inv_frame(v, w);
        },
        Message::EnterFilter => {
            lemma_inv_frame(v, w);
        },
        Message::ExitFilter => {
            lemma_inv_frame(v, w);
        },
        Message::FilterInput(c) => {
            lemma_inv_frame(v, w);
        },
        Message::FilterBackspace => {
            lemma_inv_frame(v, w);
        },
        Message::CycleSort => {
            lemma_inv_frame(v, w);
        },
        Message::ToggleGrouping => {
            lemma_inv_frame(v, w);
        },
        Message::ToggleHistory => {
            lemma_inv_frame(v, w);
        },
        Message::TogglePreview => {
            lemma_inv_frame(v, w);
        },
    }
}

/// Applying a new listing keeps the state invariant.
pub proof fn law_refresh_keeps_inv(v: AppView, listed: Option<Seq<GuiApp>>)
    requires
        v.inv(),
        match listed {
            Some(apps) => apps.len() <= usize::MAX,
            None => true,
        },
    ensures
        v.refreshed(listed).inv(),
{
    let w = v.refreshed(listed);
    match listed {
        None => {},
        Some(apps) => {
            let s1 = AppView {
                apps,
                selected: Set::new(
                    |p: u32|
                        v.selected.contains(p) && exists|i: int|
                            0 <= i < apps.len() && #[trigger] apps[i].pid == p,
                ),
                ..v
            };
            assert(w.visible() == s1.visible());
            assert(w.selected == s1.selected);
            assert forall|p: u32| #[trigger] w.selected.contains(p) implies exists|i: int|
                0 <= i < w.apps.len() && w.apps[i].pid == p by {
                assert(s1.selected.contains(p));
            }
        },
    }
}

/// Recording quit attempts keeps the state invariant; afterwards nothing is selected.
pub proof fn law_quit_keeps_inv(
    v: AppView,
    action: QuitAction,
    first_name: Seq<char>,
    reports: Seq<ReportView>,
    now: u64,
)
    requires
        v.inv(),
    ensures
        v.after_quit(action, first_name, reports, now).inv(),
        v.after_quit(action, first_name, reports, now).selected.is_empty(),
{
    let w = v.after_quit(action, first_name, reports, now);
    assert(w.visible() == v.visible());
}

/// Recording a restart attempt, a mouse event or the passing of time keeps the state
/// invariant.
pub proof fn law_other_events_keep_inv(v: AppView, app: GuiApp, ok: bool, mouse: MouseEvent, now: u64)
    requires
        v.inv(),
    ensures
        v.after_restart(app, ok, now).0.inv(),
        v.mouse_step(mouse, now).0.inv(),
        v.cleared(now).inv(),
{
    if let Some(t) = v.status_set_at {
        if elapsed(now, t) > STATUS_TIMEOUT_MS {
            let w = v.cleared(now);
            assert(w.visible() == v.visible());
            assert(w.selected == v.selected);
        }
    }
}

/// The start state satisfies the invariant.
pub proof fn law_initial_inv(apps: Seq<GuiApp>, protected: Seq<Seq<char>>)
    requires
        apps.len() <= usize::MAX,
    ensures
        initial_view(apps, protected).inv(),
{
}


/// Toggling the selection of the application under the cursor twice restores the
/// selection.
pub proof fn law_toggle_twice_restores(v: AppView, now1: u64, now2: u64)
    ensures
        v.step(Message::ToggleSelect, now1).0.step(Message::ToggleSelect, now2).0.selected
            == v.selected,
{
    let w = v.step(Message::ToggleSelect, now1).0;
    assert(w.visible() == v.visible());
    assert(w.cursor_app() == v.cursor_app());
    if let Some(a) = v.cursor_app() {
        if !v.is_protected(a.name@) {
            if v.selected.contains(a.pid) {
                assert(v.selected.remove(a.pid).insert(a.pid) =~= v.selected);
            } else {
                assert(v.selected.insert(a.pid).remove(a.pid) =~= v.selected);
            }
        }
    }
}

/// Typing a character into the filter and erasing it restores the filter text.
pub proof fn law_filter_input_then_backspace(v: AppView, c: char, now1: u64, now2: u64)
    ensures
        v.step(Message::FilterInput(c), now1).0.step(Message::FilterBackspace, now2).0.filter_query
            == v.filter_query,
{
    assert(v.filter_query.push(c).drop_last() =~= v.filter_query);
}

/// While a confirmation dialog is open, a key can only confirm, cancel, or do nothing.
pub proof fn law_dialog_is_modal(show_history: bool, filter_active: bool, code: KeyCode)
    ensures
        key_message(true, show_history, filter_active, code) == Some(Message::ConfirmYes)
            || key_message(true, show_history, filter_active, code) == Some(Message::ConfirmNo)
            || key_message(true, show_history, filter_active, code) is None,
{
}

/// Cancelling a dialog, or pressing quit while one is open, only closes the dialog; the
/// manager keeps running.
pub proof fn law_cancel_only_closes_dialog(v: AppView, now: u64)
    requires
        v.dialog is Some,
    ensures
        v.step(Message::ConfirmNo, now) == (AppView { dialog: None, ..v }, EffectView::Nothing),
        v.step(Message::Quit, now) == (AppView { dialog: None, ..v }, EffectView::Nothing),
        v.step(Message::Quit, now).0.running == v.running,
{
}

/// Which messages lead to quitting: a quit follows only from confirming an open dialog,
/// with the dialog's action, on the current targets; asking to quit only opens the
/// dialog; and a restart follows only from the restart request itself.
pub proof fn law_quit_needs_confirmation(v: AppView, msg: Message, now: u64)
    ensures
        match v.step(msg, now).1 {
            EffectView::Quit { action, targets, .. } => {
                &&& msg == Message::ConfirmYes
                &&& v.dialog matches Some(d)
                &&& action == d.action
                &&& targets == v.targets()
            },
            EffectView::Restart { .. } => msg == Message::RequestRestart,
            _ => true,
        },
        (msg == Message::RequestGracefulQuit || msg == Message::RequestForceQuit) ==> v.step(
            msg,
            now,
        ).1 == EffectView::Nothing,
{
}

/// No input quits an application without confirmation: of everything a key press, a
/// mouse event or the refresh tick can produce, only confirming an open dialog leads to
/// quitting, and nothing leads to a restart.
pub proof fn law_input_quits_only_after_confirmation(
    v: AppView,
    code: KeyCode,
    mouse: MouseEvent,
    now: u64,
)
    ensures
        match key_message(v.dialog is Some, v.show_history, v.filter_active, code) {
            Some(m) => match v.step(m, now).1 {
                EffectView::Quit { .. } => m == Message::ConfirmYes && v.dialog is Some,
                EffectView::Restart { .. } => false,
                EffectView::Relaunch { .. } => false,
                _ => true,
            },
            None => true,
        },
        match v.mouse_step(mouse, now) {
            (w, Some(m)) => w.step(m, now).1 == EffectView::Nothing,
            (_, None) => true,
        },
        v.step(Message::RefreshList, now).1 == EffectView::Refresh,
{
}

/// Confirming right after a quit request quits exactly the applications that the dialog
/// names, with the requested action; recording the outcomes then appends them to the
/// history (which keeps the latest `HISTORY_LIMIT`), and leaves the dialog closed and
/// nothing selected.
pub proof fn law_confirmed_batch(
    v: AppView,
    force: bool,
    reports: Seq<ReportView>,
    now1: u64,
    now2: u64,
    now3: u64,
)
    requires
        v.targets().len() > 0,
    ensures
        ({
            let req = if force {
                Message::RequestForceQuit
            } else {
                Message::RequestGracefulQuit
            };
            let action = if force {
                QuitAction::Force
            } else {
                QuitAction::Graceful
            };
            let w = v.step(req, now1).0;
            let (u, e) = w.step(Message::ConfirmYes, now2);
            let done = u.after_quit(action, v.targets()[0].name@, reports, now3);
            &&& w.dialog == Some(
                DialogView { names: v.targets().map_values(|a: GuiApp| a.name@), action },
            )
            &&& e == (EffectView::Quit {
                action,
                targets: v.targets(),
                first_name: v.targets()[0].name@,
            })
            &&& u.dialog is None
            &&& done.history == keep_last(
                v.history + reports.map_values(
                    |r: ReportView|
                        HistoryView {
                            timestamp: r.timestamp,
                            name: r.name,
                            action,
                            success: r.success,
                        },
                ),
                HISTORY_LIMIT as nat,
            )
            &&& done.selected.is_empty()
            &&& done.dialog is None
        }),
{
    let req = if force {
        Message::RequestForceQuit
    } else {
        Message::RequestGracefulQuit
    };
    let w = v.step(req, now1).0;
    assert(w.visible() == v.visible());
    assert((|i: usize| w.selected.contains(w.apps[i as int].pid)) =~= (|i: usize|
        v.selected.contains(v.apps[i as int].pid)));
    assert((|i: usize| !w.is_protected(w.apps[i as int].name@)) =~= (|i: usize|
        !v.is_protected(v.apps[i as int].name@)));
    assert(w.target_positions() == v.target_positions());
    assert(w.targets() == v.targets());
    assert(v.targets().map_values(|a: GuiApp| a.name@)[0] == v.targets()[0].name@);
}

/// Under the representation invariant, the selection has exactly as many pids as the
/// list keeps, so counting the list counts the selection.
pub proof fn law_selection_count(app: App)
    requires
        app.wf(),
    ensures
        app@.selected.finite(),
        app@.selected.len() == app.selected_pids@.len(),
{
    assert(app@.selected =~= app.selected_pids@.to_set());
    app.selected_pids@.unique_seq_to_set();
    vstd::seq_lib::seq_to_set_is_finite(app.selected_pids@);
}

proof fn lemma_target_facts(v: AppView, k: int)
    requires
        0 <= k < v.targets().len(),
    ensures
        exists|j: int| #![trigger v.visible()[j]] 0 <= j < v.visible().len() && v.targets()[k] == v.shown(j),
        !v.is_protected(v.targets()[k].name@),
        !v.selected.is_empty() ==> v.selected.contains(v.targets()[k].pid),
{
    let vis = v.visible();
    let sel = |i: usize| v.selected.contains(v.apps[i as int].pid);
    let prot = |i: usize| !v.is_protected(v.apps[i as int].name@);
    let cands = if v.selected.is_empty() {
        if v.selected_index < vis.len() {
            seq![vis[v.selected_index as int]]
        } else {
            Seq::<usize>::empty()
        }
    } else {
        vis.filter(sel)
    };
    let tp = cands.filter(prot);
    assert(v.target_positions() == tp);
    let x = tp[k];
    assert(v.targets()[k] == v.apps[x as int]);
    cands.lemma_filter_pred(prot, k);
    assert(tp.contains(x));
    cands.lemma_filter_contains_rev(prot, x);
    let q = choose|q: int| 0 <= q < cands.len() && cands[q] == x;
    if v.selected.is_empty() {
        assert(x == vis[v.selected_index as int]);
        assert(v.targets()[k] == v.shown(v.selected_index as int));
    } else {
        vis.lemma_filter_pred(sel, q);
        vis.lemma_filter_contains_rev(sel, x);
        let j = choose|j: int| 0 <= j < vis.len() && vis[j] == x;
        assert(v.targets()[k] == v.shown(j));
    }
}

/// Every target of an action is an application that the list shows.
pub proof fn law_targets_are_shown(v: AppView)
    ensures
        forall|k: int|
            0 <= k < v.targets().len() ==> #[trigger] is_shown(v, v.targets()[k]),
{
    assert forall|k: int| 0 <= k < v.targets().len() implies #[trigger] is_shown(
        v,
        v.targets()[k],
    ) by {
        lemma_target_facts(v, k);
    }
}

/// `a` is one of the applications that the list shows.
pub open spec fn is_shown(v: AppView, a: GuiApp) -> bool {
    exists|j: int| 0 <= j < v.visible().len() && v.shown(j) == a
}

/// What an action applies to. Every target is an application that is not
/// protected. When something is selected, the targets are selected applications, and
/// every shown, selected, unprotected application is among them; the cursor plays no
/// part. When nothing is selected, the only target is the application under the cursor,
/// unless it is protected.
pub proof fn law_targets_follow_selection(v: AppView)
    ensures
        forall|k: int|
            0 <= k < v.targets().len() ==> !v.is_protected(#[trigger] v.targets()[k].name@),
        !v.selected.is_empty() ==> forall|k: int|
            0 <= k < v.targets().len() ==> v.selected.contains(#[trigger] v.targets()[k].pid),
        !v.selected.is_empty() ==> forall|j: int|
            0 <= j < v.visible().len() && v.selected.contains(#[trigger] v.shown(j).pid)
                && !v.is_protected(v.shown(j).name@) ==> v.targets().contains(v.shown(j)),
        v.selected.is_empty() ==> v.targets() == (if v.selected_index < v.visible().len()
            && !v.is_protected(v.shown(v.selected_index as int).name@) {
            seq![v.shown(v.selected_index as int)]
        } else {
            Seq::<GuiApp>::empty()
        }),
{
    let vis = v.visible();
    let sel = |i: usize| v.selected.contains(v.apps[i as int].pid);
    let prot = |i: usize| !v.is_protected(v.apps[i as int].name@);
    let cands = if v.selected.is_empty() {
        if v.selected_index < vis.len() {
            seq![vis[v.selected_index as int]]
        } else {
            Seq::<usize>::empty()
        }
    } else {
        vis.filter(sel)
    };
    let tp = cands.filter(prot);
    assert(v.target_positions() == tp);
    assert forall|k: int| 0 <= k < v.targets().len() implies !v.is_protected(
        #[trigger] v.targets()[k].name@,
    ) by {
        lemma_target_facts(v, k);
    }
    if !v.selected.is_empty() {
        assert forall|k: int| 0 <= k < v.targets().len() implies v.selected.contains(
            #[trigger] v.targets()[k].pid,
        ) by {
            lemma_target_facts(v, k);
        }
    }
    if !v.selected.is_empty() {
        assert forall|j: int|
            0 <= j < v.visible().len() && v.selected.contains(#[trigger] v.shown(j).pid)
                && !v.is_protected(v.shown(j).name@) implies v.targets().contains(v.shown(j)) by {
            vis.lemma_filter_contains(sel, j);
            let q = choose|q: int| 0 <= q < cands.len() && cands[q] == vis[j];
            cands.lemma_filter_contains(prot, q);
            let r = choose|r: int| 0 <= r < tp.len() && tp[r] == vis[j];
            assert(v.targets()[r] == v.shown(j));
        }
    } else {
        cands.lemma_filter_len(prot);
        if v.selected_index < vis.len() {
            let x = vis[v.selected_index as int];
            if prot(x) {
                cands.lemma_filter_contains(prot, 0);
                assert(tp.contains(x));
                let r = choose|r: int| 0 <= r < tp.len() && tp[r] == x;
                assert(tp[0] == x);
                assert(v.targets() =~= seq![v.shown(v.selected_index as int)]);
            } else {
                if tp.len() > 0 {
                    cands.lemma_filter_pred(prot, 0);
                    cands.lemma_filter_contains_rev(prot, tp[0]);
                }
                assert(v.targets() =~= Seq::<GuiApp>::empty());
            }
        } else {
            assert(v.targets() =~= Seq::<GuiApp>::empty());
        }
    }
}

/// Clicks and the wheel. The wheel only moves the cursor. A left click on a row of a
/// non-empty list moves the cursor to that row (the last one if the click is below the
/// list) and leaves the selection alone; it asks for a toggle exactly when it repeats
/// the remembered click's row within `DOUBLE_CLICK_MS`, and then forgets that click,
/// and otherwise remembers this one. No other mouse event asks for a toggle.
pub proof fn law_click_toggles_only_on_repeat(v: AppView, m: MouseEvent, now: u64)
    ensures
        v.mouse_step(m, now).1 == Some(Message::ToggleSelect) ==> {
            &&& m.kind == MouseEventKind::LeftDown
            &&& v.last_click matches Some((r, t))
            &&& r == m.row
            &&& elapsed(now, t) < DOUBLE_CLICK_MS
        },
        m.kind == MouseEventKind::ScrollUp ==> v.mouse_step(m, now) == (v, Some(Message::MoveUp)),
        m.kind == MouseEventKind::ScrollDown ==> v.mouse_step(m, now) == (v, Some(Message::MoveDown)),
        ({
            let start: int = if v.filter_active {
                10
            } else {
                9
            };
            let len = v.visible().len();
            let (w, msg) = v.mouse_step(m, now);
            (m.kind == MouseEventKind::LeftDown && m.row >= start && len > 0) ==> {
                &&& w.selected_index == (if m.row - start < len {
                    m.row - start
                } else {
                    len - 1
                })
                &&& w.selected == v.selected
                &&& w.apps == v.apps
                &&& w.dialog == v.dialog
                &&& (msg == Some(Message::ToggleSelect) <==> (v.last_click matches Some((r, t))
                    && r == m.row && elapsed(now, t) < DOUBLE_CLICK_MS))
                &&& (msg is None <==> msg != Some(Message::ToggleSelect))
                &&& (msg is None ==> w.last_click == Some((m.row, now)))
                &&& (msg is Some ==> w.last_click is None)
            }
        }),
{
}

/// Listing the applications again replaces the list; the selection keeps exactly the
/// selected pids that are still listed anywhere, shown or hidden by the filter; the
/// filter and sort stay; and the cursor stays where it was if that is still on the
/// list, and is on the list whenever the list is not empty. A failed listing changes
/// nothing.
pub proof fn law_refresh_keeps_running_selection(v: AppView, listed: Option<Seq<GuiApp>>)
    requires
        v.selected_index < v.visible().len() || v.visible().len() == 0,
    ensures
        listed is None ==> v.refreshed(listed) == v,
        listed matches Some(apps) ==> {
            let w = v.refreshed(listed);
            &&& w.apps == apps
            &&& forall|p: u32|
                #[trigger] w.selected.contains(p) <==> (v.selected.contains(p) && exists|i: int|
                    0 <= i < apps.len() && apps[i].pid == p)
            &&& w.filter_query == v.filter_query
            &&& w.sort_mode == v.sort_mode
            &&& w.dialog == v.dialog
            &&& w.history == v.history
            &&& (w.visible().len() > 0 ==> w.selected_index < w.visible().len())
            &&& (v.selected_index < w.visible().len() ==> w.selected_index == v.selected_index)
        },
{
    if let Some(apps) = listed {
        let w = v.refreshed(listed);
        assert forall|p: u32|
            #[trigger] w.selected.contains(p) <==> (v.selected.contains(p) && exists|i: int|
                0 <= i < apps.len() && apps[i].pid == p) by {
            if v.selected.contains(p) && exists|i: int| 0 <= i < apps.len() && apps[i].pid == p {
                let i = choose|i: int| 0 <= i < apps.len() && apps[i].pid == p;
                assert(apps[i].pid == p);
            }
        }
    }
}

/// Keys while the filter is being typed (no dialog, no history shown): every character
/// but a newline and `/` is typed into the filter text, at its end; `/` and Esc leave
/// the filter, Backspace erases the last character; each change puts the cursor on top.
pub proof fn law_filter_typing(v: AppView, c: char, now: u64)
    ensures
        c != '\n' && c != '/' ==> key_message(false, false, true, KeyCode::Char(c)) == Some(
            Message::FilterInput(c),
        ),
        key_message(false, false, true, KeyCode::Char('/')) == Some(Message::ExitFilter),
        key_message(false, false, true, KeyCode::Esc) == Some(Message::ExitFilter),
        key_message(false, false, true, KeyCode::Backspace) == Some(Message::FilterBackspace),
        key_message(false, false, true, KeyCode::Char('\n')) is None,
        v.step(Message::FilterInput(c), now).0.filter_query == v.filter_query.push(c),
        v.step(Message::FilterInput(c), now).0.selected_index == 0,
        v.step(Message::FilterBackspace, now).0.filter_query == (if v.filter_query.len() > 0 {
            v.filter_query.take(v.filter_query.len() - 1)
        } else {
            v.filter_query
        }),
        v.step(Message::ExitFilter, now).0.filter_query.len() == 0,
        !v.step(Message::ExitFilter, now).0.filter_active,
        v.step(Message::EnterFilter, now).0.filter_active,
        v.step(Message::EnterFilter, now).0.filter_query.len() == 0,
{
}

/// Deselecting all leaves nothing selected, shown or hidden, and changes nothing else
/// that an action depends on.
pub proof fn law_deselect_all_clears(v: AppView, now: u64)
    ensures
        v.step(Message::DeselectAll, now).0.selected.is_empty(),
        v.step(Message::DeselectAll, now).0.apps == v.apps,
        v.step(Message::DeselectAll, now).0.selected_index == v.selected_index,
        v.step(Message::DeselectAll, now).0.dialog == v.dialog,
        v.step(Message::DeselectAll, now).1 == EffectView::Nothing,
{
}

/// The cursor moves one row at a time and stays on the list: up stops at the top, down
/// stops at the last shown application; nothing else changes.
pub proof fn law_cursor_moves_by_one(v: AppView, now: u64)
    requires
        v.visible().len() <= usize::MAX,
    ensures
        v.step(Message::MoveUp, now).0.selected_index == (if v.selected_index > 0 {
            v.selected_index - 1
        } else {
            0
        }),
        v.step(Message::MoveDown, now).0.selected_index == (if v.selected_index + 1 < v.visible().len() {
            v.selected_index + 1
        } else {
            v.selected_index as int
        }),
        v.step(Message::MoveUp, now).0.selected == v.selected,
        v.step(Message::MoveDown, now).0.selected == v.selected,
        v.step(Message::MoveUp, now).1 == EffectView::Nothing,
        v.step(Message::MoveDown, now).1 == EffectView::Nothing,
{
}

/// Toggling changes the selection only for the application under the cursor: an
/// unprotected one flips between selected and not, a protected one is never selected
/// and a warning names it; every other pid keeps its state.
pub proof fn law_toggle_flips_only_the_cursor(v: AppView, p: u32, now: u64)
    ensures
        ({
            let w = v.step(Message::ToggleSelect, now).0;
            &&& (v.selected_index < v.visible().len() && !v.is_protected(
                v.shown(v.selected_index as int).name@,
            ) && p == v.shown(v.selected_index as int).pid) ==> (w.selected.contains(p)
                <==> !v.selected.contains(p))
            &&& !(v.selected_index < v.visible().len() && p == v.shown(
                v.selected_index as int,
            ).pid) ==> (w.selected.contains(p) <==> v.selected.contains(p))
            &&& (v.selected_index < v.visible().len() && v.is_protected(
                v.shown(v.selected_index as int).name@,
            )) ==> w.selected == v.selected && w.status == Some(
                ("Cannot quit protected app: "@ + v.shown(v.selected_index as int).name@, false),
            )
            &&& w.apps == v.apps
            &&& w.selected_index == v.selected_index
        }),
{
}

/// Selecting all selects exactly the shown applications that are not protected: none
/// hidden by the filter, none protected.
pub proof fn law_select_all_selects_shown_unprotected(v: AppView, p: u32, now: u64)
    ensures
        v.step(Message::SelectAll, now).0.selected.contains(p) <==> exists|k: int|
            0 <= k < v.visible().len() && #[trigger] v.shown(k).pid == p && !v.is_protected(
                v.shown(k).name@,
            ),
{
}

/// The quit key leaves the manager only when no dialog is open; with one open it only
/// closes the dialog.
pub proof fn law_quit_key_leaves_without_dialog(v: AppView, now: u64)
    ensures
        v.dialog is None ==> !v.step(Message::Quit, now).0.running,
        v.dialog is Some ==> v.step(Message::Quit, now).0.running == v.running
            && v.step(Message::Quit, now).0.dialog is None,
        v.step(Message::Quit, now).1 == EffectView::Nothing,
{
}

/// A status message is cleared exactly once it is older than `STATUS_TIMEOUT_MS`;
/// nothing else changes.
pub proof fn law_status_expires(v: AppView, now: u64)
    ensures
        v.status_set_at matches Some(t) ==> (v.cleared(now).status is None <==> (elapsed(now, t)
            > STATUS_TIMEOUT_MS || v.status is None)),
        v.status_set_at matches Some(t) && elapsed(now, t) <= STATUS_TIMEOUT_MS ==> v.cleared(now)
            == v,
        v.status_set_at is None ==> v.cleared(now) == v,
        v.cleared(now).selected == v.selected,
        v.cleared(now).apps == v.apps,
{
}

/// After a batch of quit attempts, the status reports success exactly when no attempt
/// failed, and the number of failures is counted among the reports.
pub proof fn law_summary_reports_failures(
    action: QuitAction,
    first_name: Seq<char>,
    reports: Seq<ReportView>,
)
    ensures
        quit_summary(action, first_name, reports).1 == (forall|k: int|
            0 <= k < reports.len() ==> (#[trigger] reports[k]).success),
{
    let pred = |r: ReportView| !r.success;
    if forall|k: int| 0 <= k < reports.len() ==> (#[trigger] reports[k]).success {
        if failures(reports) > 0 {
            reports.lemma_filter_pred(pred, 0);
            let x = reports.filter(pred)[0];
            assert(reports.filter(pred).contains(x));
            reports.lemma_filter_contains_rev(pred, x);
        }
    } else {
        let k = choose|k: int| 0 <= k < reports.len() && !(#[trigger] reports[k]).success;
        reports.lemma_filter_contains(pred, k);
    }
}

/// Changing the sort, the grouping or the filter text puts the cursor on the top row;
/// the sort cycles, the grouping flips.
pub proof fn law_view_changes_reset_cursor(v: AppView, c: char, now: u64)
    ensures
        v.step(Message::CycleSort, now).0.selected_index == 0,
        v.step(Message::CycleSort, now).0.sort_mode == next_sort(v.sort_mode),
        v.step(Message::ToggleGrouping, now).0.selected_index == 0,
        v.step(Message::ToggleGrouping, now).0.group_mode == !v.group_mode,
        v.step(Message::EnterFilter, now).0.selected_index == 0,
        v.step(Message::ExitFilter, now).0.selected_index == 0,
        v.step(Message::FilterBackspace, now).0.selected_index == 0,
        v.step(Message::ToggleHistory, now).0.show_history == !v.show_history,
        v.step(Message::TogglePreview, now).0.show_preview == !v.show_preview,
{
}

/// The key table: in the list, arrows or `k`/`j` move, Space toggles, `a`/`d` select
/// or deselect all, Enter or `r` quit, `f` force-quits, `R` refreshes and `q` exits; in
/// the dialog, `y` or Enter confirm and `n` or Esc cancel.
pub proof fn law_key_table()
    ensures
        key_message(false, false, false, KeyCode::Up) == Some(Message::MoveUp),
        key_message(false, false, false, KeyCode::Char('k')) == Some(Message::MoveUp),
        key_message(false, false, false, KeyCode::Down) == Some(Message::MoveDown),
        key_message(false, false, false, KeyCode::Char('j')) == Some(Message::MoveDown),
        key_message(false, false, false, KeyCode::Char(' ')) == Some(Message::ToggleSelect),
        key_message(false, false, false, KeyCode::Char('a')) == Some(Message::SelectAll),
        key_message(false, false, false, KeyCode::Char('d')) == Some(Message::DeselectAll),
        key_message(false, false, false, KeyCode::Enter) == Some(Message::RequestGracefulQuit),
        key_message(false, false, false, KeyCode::Char('r')) == Some(Message::RequestGracefulQuit),
        key_message(false, false, false, KeyCode::Char('f')) == Some(Message::RequestForceQuit),
        key_message(false, false, false, KeyCode::Char('R')) == Some(Message::RefreshList),
        key_message(false, false, false, KeyCode::Char('q')) == Some(Message::Quit),
        forall|h: bool, f: bool| key_message(true, h, f, KeyCode::Char('y')) == Some(Message::ConfirmYes),
        forall|h: bool, f: bool| key_message(true, h, f, KeyCode::Enter) == Some(Message::ConfirmYes),
        forall|h: bool, f: bool| key_message(true, h, f, KeyCode::Char('n')) == Some(Message::ConfirmNo),
        forall|h: bool, f: bool| key_message(true, h, f, KeyCode::Esc) == Some(Message::ConfirmNo),
{
}

/// The kept history is the newest part of the whole: at most `n` entries, the last ones,
/// in order.
pub proof fn law_keep_last_keeps_newest<A>(s: Seq<A>, n: nat)
    ensures
        keep_last(s, n).len() == (if s.len() < n {
            s.len()
        } else {
            n
        }),
        forall|k: int|
            0 <= k < keep_last(s, n).len() ==> #[trigger] keep_last(s, n)[k] == s[s.len()
                - keep_last(s, n).len() + k],
{
}

} // verus!
