//! The state of the screen: what is selected, what was seen before, what the
//! last action came to, and how keys change it.
use crate::actions::{apply, Action, ActionResult, Platform, Task, TaskView};
use crate::blameboard;
use crate::blameboard::{BlameEntry, EntryView};
use crate::diagnose::{CulpritView, Report, ReportView};
use std::collections::VecDeque;
use vstd::prelude::*;

verus! {

/// How many scores are remembered of each program and of each subsystem.
pub const HISTORY_LEN: usize = 24;

/// How long the outcome of an action is shown, in nanoseconds.
pub const STATUS_NANOS: u64 = 5_000_000_000;

/// How many programs can be selected.
pub const MAX_VISIBLE: usize = 10;

#[derive(Debug, Clone, Copy, PartialEq, Eq, Structural)]
pub enum ViewMode {
    Dashboard,
    ProcessDetail,
}

/// The last scores of one program or subsystem, the newest last.
#[derive(Debug)]
pub struct History {
    pub name: String,
    pub scores: VecDeque<u8>,
}

/// What a `History` says.
pub struct HistoryView {
    pub name: Seq<char>,
    pub scores: Seq<u8>,
}

impl DeepView for History {
    type V = HistoryView;

    open spec fn deep_view(&self) -> HistoryView {
        HistoryView { name: self.name@, scores: self.scores@ }
    }
}

/// What an action came to, and when, in nanoseconds of a clock that never goes back.
#[derive(Debug)]
pub struct Status {
    pub message: String,
    pub at: u64,
    pub ok: bool,
}

/// What a `Status` says.
pub struct StatusView {
    pub message: Seq<char>,
    pub at: u64,
    pub ok: bool,
}

impl DeepView for Status {
    type V = StatusView;

    open spec fn deep_view(&self) -> StatusView {
        StatusView { message: self.message@, at: self.at, ok: self.ok }
    }
}

/// Everything that the screen depends on besides the report.
#[derive(Debug)]
pub struct UiState {
    pub selected_name: Option<String>,
    pub mode: ViewMode,
    /// Per-program impact history
    pub impact_history: Vec<History>,
    /// Per-subsystem score history
    pub load_history: Vec<History>,
    /// Previous report, used for delta annotations
    pub prev_report: Option<Report>,
    /// Transient feedback line shown after running an action
    pub status: Option<Status>,
    /// Effective UID at startup (0 when running as root)
    pub current_uid: u32,
    /// Username resolved from current_uid, or None if unresolvable
    pub current_username: Option<String>,
}

/// What a `UiState` says.
pub struct StateView {
    pub selected_name: Option<Seq<char>>,
    pub mode: ViewMode,
    pub impact_history: Seq<HistoryView>,
    pub load_history: Seq<HistoryView>,
    pub prev_report: Option<ReportView>,
    pub status: Option<StatusView>,
    pub current_uid: u32,
    pub current_username: Option<Seq<char>>,
}

pub open spec fn text_of(s: Option<String>) -> Option<Seq<char>> {
    match s {
        Some(t) => Some(t@),
        None => None,
    }
}

impl DeepView for UiState {
    type V = StateView;

    open spec fn deep_view(&self) -> StateView {
        StateView {
            selected_name: text_of(self.selected_name),
            mode: self.mode,
            impact_history: self.impact_history.deep_view(),
            load_history: self.load_history.deep_view(),
            prev_report: match self.prev_report {
                Some(r) => Some(r.deep_view()),
                None => None,
            },
            status: match self.status {
                Some(s) => Some(s.deep_view()),
                None => None,
            },
            current_uid: self.current_uid,
            current_username: text_of(self.current_username),
        }
    }
}

// ---------------------------------------------------------------------------
// Histories
// ---------------------------------------------------------------------------

/// At most the last `n` items.
pub open spec fn last_of<T>(s: Seq<T>, n: nat) -> Seq<T> {
    if s.len() <= n {
        s
    } else {
        s.skip(s.len() - n)
    }
}

impl HistoryView {
    /// The position of the history of this name, or the end.
    pub open spec fn find(list: Seq<HistoryView>, name: Seq<char>, from: int) -> int
        decreases list.len() - from,
    {
        if 0 <= from < list.len() {
            if list[from].name == name {
                from
            } else {
                HistoryView::find(list, name, from + 1)
            }
        } else {
            list.len() as int
        }
    }

    /// The scores remembered under this name.
    pub open spec fn scores_of(list: Seq<HistoryView>, name: Seq<char>) -> Seq<u8> {
        let i = HistoryView::find(list, name, 0);
        if i < list.len() {
            list[i].scores
        } else {
            Seq::empty()
        }
    }

    /// The histories with one more score, and with no more than can be remembered
    /// under its name.
    pub open spec fn record(list: Seq<HistoryView>, name: Seq<char>, score: u8) -> Seq<HistoryView> {
        let i = HistoryView::find(list, name, 0);
        if i < list.len() {
            list.update(
                i,
                HistoryView {
                    name: list[i].name,
                    scores: last_of(list[i].scores.push(score), HISTORY_LEN as nat),
                },
            )
        } else {
            list.push(HistoryView { name, scores: seq![score] })
        }
    }

    /// The histories after these programs were seen.
    pub open spec fn after_board(list: Seq<HistoryView>, board: Seq<EntryView>) -> Seq<HistoryView>
        decreases board.len(),
    {
        if board.len() == 0 {
            list
        } else {
            HistoryView::record(
                HistoryView::after_board(list, board.drop_last()),
                board.last().name,
                board.last().impact,
            )
        }
    }

    /// The histories after these subsystems were seen.
    pub open spec fn after_culprits(list: Seq<HistoryView>, culprits: Seq<CulpritView>) -> Seq<
        HistoryView,
    >
        decreases culprits.len(),
    {
        if culprits.len() == 0 {
            list
        } else {
            HistoryView::record(
                HistoryView::after_culprits(list, culprits.drop_last()),
                culprits.last().label,
                culprits.last().score,
            )
        }
    }
}

pub proof fn lemma_find(list: Seq<HistoryView>, name: Seq<char>, from: int)
    requires
        0 <= from <= list.len(),
    ensures
        from <= HistoryView::find(list, name, from) <= list.len(),
        HistoryView::find(list, name, from) < list.len() ==> list[HistoryView::find(
            list,
            name,
            from,
        )].name == name,
        forall|i: int|
            from <= i < HistoryView::find(list, name, from) ==> (#[trigger] list[i]).name != name,
    decreases list.len() - from,
{
    if from < list.len() && list[from].name != name {
        lemma_find(list, name, from + 1);
    }
}

impl History {
    fn find(list: &Vec<History>, name: &str) -> (r: usize)
        ensures
            r == HistoryView::find(list.deep_view(), name@, 0),
            r <= list@.len(),
    {
        let ghost all = list.deep_view();
        let mut i: usize = 0;
        while i < list.len() && !crate::text::same(list[i].name.as_str(), name)
            invariant
                all == list.deep_view(),
                i <= list@.len(),
                HistoryView::find(all, name@, 0) == HistoryView::find(all, name@, i as int),
            ensures
                i <= list@.len(),
                i == HistoryView::find(all, name@, 0),
            decreases list@.len() - i,
        {
            i = i + 1;
        }
        i
    }

    /// The scores remembered under this name.
    pub fn scores(list: &Vec<History>, name: &str) -> (r: Vec<u8>)
        ensures
            r@ == HistoryView::scores_of(list.deep_view(), name@),
    {
        let i = History::find(list, name);
        let mut r: Vec<u8> = Vec::new();
        if i < list.len() {
            let scores = &list[i].scores;
            let mut k: usize = 0;
            while k < scores.len()
                invariant
                    k <= scores@.len(),
                    r@ == scores@.take(k as int),
                decreases scores@.len() - k,
            {
                r.push(scores[k]);
                assert(scores@.take(k + 1) =~= scores@.take(k as int).push(scores@[k as int]));
                k = k + 1;
            }
            assert(scores@.take(scores@.len() as int) =~= scores@);
        }
        r
    }

    fn record(list: &mut Vec<History>, name: &str, score: u8)
        ensures
            final(list).deep_view() == HistoryView::record(old(list).deep_view(), name@, score),
    {
        let ghost before = list.deep_view();
        let i = History::find(list, name);
        if i == list.len() {
            let mut scores: VecDeque<u8> = VecDeque::new();
            scores.push_back(score);
            list.push(History { name: name.to_owned(), scores });
            proof {
                assert(scores@ =~= seq![score]);
                assert(list.deep_view() =~= before.push(HistoryView { name: name@, scores: seq![score] }));
            }
        } else {
            let mut h = list.remove(i);
            proof {
                assert(before[i as int] == h.deep_view());
            }
            let ghost name_was = h.name@;
            h.scores.push_back(score);
            let ghost full = h.scores@;
            while h.scores.len() > HISTORY_LEN
                invariant
                    h.name@ == name_was,
                    h.scores@.len() <= full.len(),
                    h.scores@ == full.skip(full.len() - h.scores@.len()),
                    h.scores@.len() >= HISTORY_LEN || h.scores@ == full,
                decreases h.scores@.len(),
            {
                let ghost cur = h.scores@;
                let _ = h.scores.pop_front();
                proof {
                    assert(h.scores@ =~= full.skip(full.len() - h.scores@.len()));
                }
            }
            proof {
                assert(h.scores@ =~= last_of(full, HISTORY_LEN as nat));
            }
            let ghost hv = h.deep_view();
            list.insert(i, h);
            proof {
                assert(list.deep_view() =~= before.update(i as int, hv));
            }
        }
    }
}

// ---------------------------------------------------------------------------
// The state
// ---------------------------------------------------------------------------

impl StateView {
    /// The state at the start.
    pub open spec fn initial(current_uid: u32, current_username: Option<Seq<char>>) -> StateView {
        StateView {
            selected_name: None,
            mode: ViewMode::Dashboard,
            impact_history: Seq::empty(),
            load_history: Seq::empty(),
            prev_report: None,
            status: None,
            current_uid,
            current_username,
        }
    }

    /// The state after a report was seen.
    pub open spec fn ingested(self, report: ReportView) -> StateView {
        StateView {
            impact_history: HistoryView::after_board(self.impact_history, report.blameboard),
            load_history: HistoryView::after_culprits(self.load_history, report.culprits),
            ..self
        }
    }

    /// The outcome that is still shown `now`.
    pub open spec fn shown_status(self, now: u64) -> Option<(Seq<char>, bool)> {
        match self.status {
            Some(s) => if now - s.at < STATUS_NANOS {
                Some((s.message, s.ok))
            } else {
                None
            },
            None => None,
        }
    }

    /// The entry that actions and details are about: the selected one, or the
    /// first where that is not on the board.
    pub open spec fn target(self, board: Seq<EntryView>) -> Option<int> {
        match self.selected(board) {
            Some(i) => Some(i),
            None => if board.len() > 0 {
                Some(0)
            } else {
                None
            },
        }
    }

    /// The selected entry, where it is on the board.
    pub open spec fn selected(self, board: Seq<EntryView>) -> Option<int> {
        match self.selected_name {
            Some(name) => {
                let i = EntryView::find(board, name, 0);
                if i < board.len() {
                    Some(i)
                } else {
                    None
                }
            },
            None => None,
        }
    }

    /// The row of the selection among the first `visible` entries, the first row
    /// where it is not among them.
    pub open spec fn row(self, board: Seq<EntryView>, visible: nat) -> int {
        match self.selected(board) {
            Some(i) => if i < visible {
                i
            } else {
                0
            },
            None => 0,
        }
    }

    /// The state after the selection moved by `delta` rows, within the visible ones.
    pub open spec fn moved(self, board: Seq<EntryView>, visible: nat, delta: int) -> StateView {
        let wanted = self.row(board, visible) + delta;
        let row = if wanted < 0 {
            0
        } else if wanted > visible - 1 {
            visible - 1
        } else {
            wanted
        };
        if visible > 0 && row < board.len() {
            StateView { selected_name: Some(board[row].name), ..self }
        } else {
            self
        }
    }

    /// The state with the first entry selected, where none is.
    pub open spec fn with_selection(self, board: Seq<EntryView>) -> StateView {
        if self.selected_name is None && board.len() > 0 {
            StateView { selected_name: Some(board[0].name), ..self }
        } else {
            self
        }
    }

    pub open spec fn with_status(self, message: Seq<char>, at: u64, ok: bool) -> StateView {
        StateView { status: Some(StatusView { message, at, ok }), ..self }
    }

    pub open spec fn with_mode(self, mode: ViewMode) -> StateView {
        StateView { mode, ..self }
    }
}

impl UiState {
    /// The state at the start, for the user of this id and name.
    pub fn new(current_uid: u32, current_username: Option<String>) -> (r: UiState)
        ensures
            r.deep_view() == StateView::initial(current_uid, text_of(current_username)),
            r.deep_view().sound(),
    {
        let r = UiState {
            selected_name: None,
            mode: ViewMode::Dashboard,
            impact_history: Vec::new(),
            load_history: Vec::new(),
            prev_report: None,
            status: None,
            current_uid,
            current_username,
        };
        proof {
            assert(r.impact_history.deep_view() =~= Seq::empty());
            assert(r.load_history.deep_view() =~= Seq::empty());
        }
        r
    }

    pub fn is_root(&self) -> (r: bool)
        ensures
            r == (self.current_uid == 0),
    {
        self.current_uid == 0
    }

    /// Shows this outcome from `now` on.
    pub fn set_status(&mut self, message: String, ok: bool, now: u64)
        ensures
            final(self).deep_view() == old(self).deep_view().with_status(message@, now, ok),
    {
        self.status = Some(Status { message, at: now, ok });
    }

    /// The outcome that is still shown `now`.
    pub fn current_status(&self, now: u64) -> (r: Option<(&str, bool)>)
        ensures
            r is Some == self.deep_view().shown_status(now) is Some,
            r matches Some(s) ==> self.deep_view().shown_status(now) == Some((s.0@, s.1)),
    {
        match &self.status {
            Some(s) => {
                if now.saturating_sub(s.at) < STATUS_NANOS {
                    Some((s.message.as_str(), s.ok))
                } else {
                    None
                }
            },
            None => None,
        }
    }

    /// Remembers the scores of a report.
    pub fn ingest(&mut self, report: &Report)
        ensures
            final(self).deep_view() == old(self).deep_view().ingested(report.deep_view()),
    {
        let ghost start = self.deep_view();
        let ghost board = report.blameboard.deep_view();
        let ghost culprits = report.culprits.deep_view();
        let mut i: usize = 0;
        proof {
            assert(board.take(0) =~= Seq::empty());
            assert(culprits.take(0) =~= Seq::empty());
        }
        while i < report.blameboard.len()
            invariant
                i <= report.blameboard@.len(),
                board == report.blameboard.deep_view(),
                self.deep_view() == (StateView {
                    impact_history: HistoryView::after_board(
                        start.impact_history,
                        board.take(i as int),
                    ),
                    ..start
                }),
            decreases report.blameboard@.len() - i,
        {
            proof {
                assert(board.take(i + 1).drop_last() =~= board.take(i as int));
            }
            let e = &report.blameboard[i];
            History::record(&mut self.impact_history, e.name.as_str(), e.impact);
            i = i + 1;
        }
        proof {
            assert(board.take(i as int) =~= board);
        }
        let mut k: usize = 0;
        while k < report.culprits.len()
            invariant
                k <= report.culprits@.len(),
                culprits == report.culprits.deep_view(),
                self.deep_view() == (StateView {
                    impact_history: HistoryView::after_board(start.impact_history, board),
                    load_history: HistoryView::after_culprits(
                        start.load_history,
                        culprits.take(k as int),
                    ),
                    ..start
                }),
            decreases report.culprits@.len() - k,
        {
            proof {
                assert(culprits.take(k + 1).drop_last() =~= culprits.take(k as int));
            }
            let c = &report.culprits[k];
            History::record(&mut self.load_history, c.label, c.score);
            k = k + 1;
        }
        proof {
            assert(culprits.take(k as int) =~= culprits);
        }
    }

    /// Takes a new report in, after `current`.
    pub fn adopt(&mut self, current: Option<Report>, report: &Report)
        ensures
            final(self).deep_view() == (StateView {
                prev_report: match current {
                    Some(r) => Some(r.deep_view()),
                    None => old(self).deep_view().prev_report,
                },
                ..old(self).deep_view()
            }).ingested(report.deep_view()),
    {
        if let Some(prev) = current {
            self.prev_report = Some(prev);
        }
        self.ingest(report);
    }

    /// Selects the first entry, where none is selected.
    pub fn select_first(&mut self, report: &Report)
        ensures
            final(self).deep_view() == old(self).deep_view().with_selection(
                report.deep_view().blameboard,
            ),
    {
        if self.selected_name.is_none() && report.blameboard.len() > 0 {
            self.selected_name = Some(report.blameboard[0].name.clone());
        }
    }

    /// The selected entry, where it is on the board.
    pub fn selected_entry(&self, report: &Report) -> (r: Option<usize>)
        ensures
            r matches Some(i) ==> i < report.blameboard@.len(),
            match r {
                Some(i) => Some(i as int),
                None => None,
            } == self.deep_view().selected(report.deep_view().blameboard),
    {
        match &self.selected_name {
            Some(name) => {
                let i = BlameEntry::find(&report.blameboard, name);
                if i < report.blameboard.len() {
                    Some(i)
                } else {
                    None
                }
            },
            None => None,
        }
    }

    /// The entry that actions and details are about.
    pub fn target_entry(&self, report: &Report) -> (r: Option<usize>)
        ensures
            r matches Some(i) ==> i < report.blameboard@.len(),
            match r {
                Some(i) => Some(i as int),
                None => None,
            } == self.deep_view().target(report.deep_view().blameboard),
    {
        match self.selected_entry(report) {
            Some(i) => Some(i),
            None => {
                if report.blameboard.len() > 0 {
                    Some(0)
                } else {
                    None
                }
            },
        }
    }

    /// The row of the selection among the first `visible` entries.
    pub fn selected_row(&self, report: &Report, visible: usize) -> (r: usize)
        ensures
            r == self.deep_view().row(report.deep_view().blameboard, visible as nat),
            visible > 0 ==> r < visible,
    {
        match self.selected_entry(report) {
            Some(i) => {
                if i < visible {
                    i
                } else {
                    0
                }
            },
            None => 0,
        }
    }
}

/// Moves the selection by `delta` rows, within the visible ones.
pub fn move_selection(state: &mut UiState, report: &Report, visible: usize, delta: i32)
    ensures
        final(state).deep_view() == old(state).deep_view().moved(
            report.deep_view().blameboard,
            visible as nat,
            delta as int,
        ),
{
    if visible == 0 {
        return;
    }
    let row = state.selected_row(report, visible);
    let wanted: i128 = row as i128 + delta as i128;
    let new: usize = if wanted < 0 {
        0
    } else if wanted > (visible - 1) as i128 {
        visible - 1
    } else {
        wanted as usize
    };
    if new < report.blameboard.len() {
        state.selected_name = Some(report.blameboard[new].name.clone());
    }
}

// ---------------------------------------------------------------------------
// Keys
// ---------------------------------------------------------------------------

#[derive(Debug, Clone, Copy, PartialEq, Eq, Structural)]
pub enum Key {
    Char(char),
    Enter,
    Esc,
    Up,
    Down,
    Other,
}

/// What a key asks for, besides a change of the state.
#[derive(Debug, Clone, Copy, PartialEq, Eq, Structural)]
pub enum Request {
    /// Leave the program.
    Quit,
    /// Nothing more.
    Stay,
    /// Apply the action to the selected program.
    Run(Action),
}

impl StateView {
    /// The state after a key, and what the key asks for.
    pub open spec fn after_key(
        self,
        key: Key,
        ctrl: bool,
        board: Seq<EntryView>,
        visible: nat,
        platform: Platform,
    ) -> (StateView, Request) {
        match key {
            Key::Char(c) => if c == 'q' || (c == 'c' && ctrl) {
                (self, Request::Quit)
            } else {
                (
                    self,
                    match Action::for_key(Action::listed(platform), c) {
                        Some(action) => Request::Run(action),
                        None => Request::Stay,
                    },
                )
            },
            Key::Esc => if self.mode == ViewMode::ProcessDetail {
                (self.with_mode(ViewMode::Dashboard), Request::Stay)
            } else {
                (self, Request::Quit)
            },
            Key::Enter => if self.mode == ViewMode::Dashboard {
                (self.with_mode(ViewMode::ProcessDetail), Request::Stay)
            } else {
                (self.with_mode(ViewMode::Dashboard), Request::Stay)
            },
            Key::Up => (self.moved(board, visible, -1), Request::Stay),
            Key::Down => (self.moved(board, visible, 1), Request::Stay),
            Key::Other => (self, Request::Stay),
        }
    }
}

/// Changes the state as the key says, and says what else it asks for.
pub fn handle_key(
    key: Key,
    ctrl: bool,
    state: &mut UiState,
    report: &Report,
    visible: usize,
    platform: Platform,
) -> (r: Request)
    ensures
        (final(state).deep_view(), r) == old(state).deep_view().after_key(
            key,
            ctrl,
            report.deep_view().blameboard,
            visible as nat,
            platform,
        ),
{
    match key {
        Key::Char(c) => {
            if c == 'q' || (c == 'c' && ctrl) {
                return Request::Quit;
            }
            match Action::from_key(platform, c) {
                Some(action) => Request::Run(action),
                None => Request::Stay,
            }
        },
        Key::Esc => {
            if state.mode == ViewMode::ProcessDetail {
                state.mode = ViewMode::Dashboard;
                Request::Stay
            } else {
                Request::Quit
            }
        },
        Key::Enter => {
            if state.mode == ViewMode::Dashboard {
                state.mode = ViewMode::ProcessDetail;
            } else {
                state.mode = ViewMode::Dashboard;
            }
            Request::Stay
        },
        Key::Up => {
            move_selection(state, report, visible, -1);
            Request::Stay
        },
        Key::Down => {
            move_selection(state, report, visible, 1);
            Request::Stay
        },
        Key::Other => Request::Stay,
    }
}

/// Whether a key ends the program while there is no report yet.
pub fn quits_splash(key: Key, ctrl: bool) -> (r: bool)
    ensures
        r == (key == Key::Char('q') || key == Key::Esc || (key == Key::Char('c') && ctrl)),
{
    match key {
        Key::Char(c) => c == 'q' || (c == 'c' && ctrl),
        Key::Esc => true,
        _ => false,
    }
}

/// What an action on the selected program asks for; where there is no program,
/// nothing but to tell the user.
pub fn run_selected_action(
    action: Action,
    state: &mut UiState,
    report: &Report,
    platform: Platform,
    now: u64,
) -> (r: Option<(usize, Task)>)
    ensures
        ({
            let board = report.deep_view().blameboard;
            match old(state).deep_view().target(board) {
                Some(i) => {
                    &&& final(state).deep_view() == old(state).deep_view()
                    &&& r matches Some(t) && t.0 == i && t.0 < report.blameboard@.len()
                        && t.1.deep_view() == TaskView::of(
                        action,
                        board[i].name,
                        board[i].all_pids,
                        platform,
                    )
                },
                None => {
                    &&& r is None
                    &&& final(state).deep_view() == old(state).deep_view().with_status(
                        "No process selected"@,
                        now,
                        false,
                    )
                },
            }
        }),
{
    match state.target_entry(report) {
        Some(i) => {
            let e = &report.blameboard[i];
            Some((i, apply(action, e.name.as_str(), e.all_pids.as_slice(), platform)))
        },
        None => {
            state.set_status("No process selected".to_owned(), false, now);
            None
        },
    }
}

/// Shows what an action on the program of this name came to.
pub fn finish_action(state: &mut UiState, name: &str, result: &ActionResult, now: u64)
    ensures
        final(state).deep_view() == old(state).deep_view().with_status(
            name@ + ": "@ + result.message@,
            now,
            result.ok,
        ),
{
    let mut s = name.to_owned();
    s.append(": ");
    s.append(result.message.as_str());
    state.set_status(s, result.ok, now);
}

// ---------------------------------------------------------------------------
// Refreshing
// ---------------------------------------------------------------------------

impl CulpritView {
    /// The highest score, 0 where there is none.
    pub open spec fn worst(culprits: Seq<CulpritView>) -> u8
        decreases culprits.len(),
    {
        if culprits.len() == 0 {
            0
        } else {
            let w = CulpritView::worst(culprits.drop_last());
            if culprits.last().score > w {
                culprits.last().score
            } else {
                w
            }
        }
    }
}

impl ReportView {
    /// How long to wait before the next reading, in milliseconds.
    pub open spec fn pause(self, interval_secs: u64) -> int {
        let worst = CulpritView::worst(self.culprits);
        if worst >= 70 {
            250
        } else if worst >= 40 {
            1_000
        } else if interval_secs == 0 {
            2_000
        } else {
            interval_secs * 1_000
        }
    }
}

/// How long to wait before the next reading: the worse things are, the shorter.
pub fn refresh_ms(report: &Report, interval_secs: u64) -> (r: u64)
    requires
        interval_secs * 1_000 <= u64::MAX,
    ensures
        r == report.deep_view().pause(interval_secs),
{
    let ghost culprits = report.culprits.deep_view();
    let mut worst: u8 = 0;
    let mut i: usize = 0;
    while i < report.culprits.len()
        invariant
            i <= report.culprits@.len(),
            culprits == report.culprits.deep_view(),
            worst == CulpritView::worst(culprits.take(i as int)),
        decreases report.culprits@.len() - i,
    {
        proof {
            assert(culprits.take(i + 1).drop_last() =~= culprits.take(i as int));
        }
        if report.culprits[i].score > worst {
            worst = report.culprits[i].score;
        }
        i = i + 1;
    }
    proof {
        assert(culprits.take(i as int) =~= culprits);
    }
    if worst >= 70 {
        250
    } else if worst >= 40 {
        1_000
    } else if interval_secs == 0 {
        2_000
    } else {
        interval_secs * 1_000
    }
}

/// How long to wait before the first refresh, in milliseconds.
pub fn initial_ms(interval_secs: u64) -> (r: u64)
    requires
        interval_secs * 1_000 <= u64::MAX,
    ensures
        r == if interval_secs == 0 {
            1_000
        } else {
            interval_secs * 1_000
        },
{
    if interval_secs == 0 {
        1_000
    } else {
        interval_secs * 1_000
    }
}

/// How many programs can be selected.
pub fn selectable(report: &Report) -> (r: usize)
    ensures
        r == if report.blameboard@.len() < MAX_VISIBLE {
            report.blameboard@.len()
        } else {
            MAX_VISIBLE as nat
        },
{
    if report.blameboard.len() < MAX_VISIBLE {
        report.blameboard.len()
    } else {
        MAX_VISIBLE
    }
}

// ---------------------------------------------------------------------------
// What holds of every state
// ---------------------------------------------------------------------------

impl HistoryView {
    /// No two histories have the same name, and none remembers too much.
    pub open spec fn sound(list: Seq<HistoryView>) -> bool {
        &&& forall|i: int, j: int|
            0 <= i < j < list.len() ==> (#[trigger] list[i]).name != (#[trigger] list[j]).name
        &&& forall|i: int|
            0 <= i < list.len() ==> (#[trigger] list[i]).scores.len() <= HISTORY_LEN
    }
}

impl StateView {
    pub open spec fn sound(self) -> bool {
        HistoryView::sound(self.impact_history) && HistoryView::sound(self.load_history)
    }
}

proof fn lemma_record_sound(list: Seq<HistoryView>, name: Seq<char>, score: u8)
    requires
        HistoryView::sound(list),
    ensures
        HistoryView::sound(HistoryView::record(list, name, score)),
{
    lemma_find(list, name, 0);
    let at = HistoryView::find(list, name, 0);
    let new = HistoryView::record(list, name, score);
    assert forall|i: int, j: int| 0 <= i < j < new.len() implies (#[trigger] new[i]).name != (
    #[trigger] new[j]).name by {
        if j < list.len() {
            assert(list[i].name != list[j].name);
        }
    }
}

proof fn lemma_board_sound(list: Seq<HistoryView>, board: Seq<EntryView>)
    requires
        HistoryView::sound(list),
    ensures
        HistoryView::sound(HistoryView::after_board(list, board)),
    decreases board.len(),
{
    if board.len() > 0 {
        lemma_board_sound(list, board.drop_last());
        lemma_record_sound(
            HistoryView::after_board(list, board.drop_last()),
            board.last().name,
            board.last().impact,
        );
    }
}

proof fn lemma_culprits_sound(list: Seq<HistoryView>, culprits: Seq<CulpritView>)
    requires
        HistoryView::sound(list),
    ensures
        HistoryView::sound(HistoryView::after_culprits(list, culprits)),
    decreases culprits.len(),
{
    if culprits.len() > 0 {
        lemma_culprits_sound(list, culprits.drop_last());
        lemma_record_sound(
            HistoryView::after_culprits(list, culprits.drop_last()),
            culprits.last().label,
            culprits.last().score,
        );
    }
}

/// Whatever reports come and whatever keys are pressed, the histories stay sound: one
/// for each name, of at most the last 24 scores.
pub proof fn states_stay_sound(
    state: StateView,
    report: ReportView,
    key: Key,
    ctrl: bool,
    visible: nat,
    platform: Platform,
)
    requires
        state.sound(),
    ensures
        state.ingested(report).sound(),
        state.with_selection(report.blameboard).sound(),
        state.after_key(key, ctrl, report.blameboard, visible, platform).0.sound(),
{
    lemma_board_sound(state.impact_history, report.blameboard);
    lemma_culprits_sound(state.load_history, report.culprits);
}

/// A new score is remembered under its name, after those before it, and under no other
/// name.
pub proof fn record_adds_one_score(
    list: Seq<HistoryView>,
    name: Seq<char>,
    score: u8,
    other: Seq<char>,
)
    ensures
        HistoryView::scores_of(HistoryView::record(list, name, score), other) == if other == name {
            last_of(HistoryView::scores_of(list, name).push(score), HISTORY_LEN as nat)
        } else {
            HistoryView::scores_of(list, other)
        },
{
    let new = HistoryView::record(list, name, score);
    let at = HistoryView::find(list, name, 0);
    let was = HistoryView::find(list, other, 0);
    let is = HistoryView::find(new, other, 0);
    lemma_find(list, name, 0);
    lemma_find(list, other, 0);
    lemma_find(new, other, 0);
    if other == name {
        assert(new[at].name == name);
        assert(is <= at);
        if is < at {
            assert(new[is] == list[is]);
        }
        assert(Seq::<u8>::empty().push(score) =~= seq![score]);
    } else {
        if was < list.len() {
            assert(new[was].name == other);
            assert(is <= was);
            if is < was {
                assert(new[is].name == list[is].name);
            }
        } else if is < new.len() {
            if is < list.len() {
                assert(new[is].name == list[is].name);
                assert(list[is].name != other);
            }
        }
    }
}

proof fn lemma_scores_after_board(list: Seq<HistoryView>, board: Seq<EntryView>, name: Seq<char>)
    requires
        EntryView::one_each(board),
    ensures
        forall|i: int|
            0 <= i < board.len() && (#[trigger] board[i]).name == name ==> HistoryView::scores_of(
                HistoryView::after_board(list, board),
                name,
            ) == last_of(
                HistoryView::scores_of(list, name).push(board[i].impact),
                HISTORY_LEN as nat,
            ),
        !EntryView::lists(board, name) ==> HistoryView::scores_of(
            HistoryView::after_board(list, board),
            name,
        ) == HistoryView::scores_of(list, name),
    decreases board.len(),
{
    if board.len() > 0 {
        let rest = board.drop_last();
        let e = board.last();
        assert forall|i: int, j: int| 0 <= i < j < rest.len() implies (#[trigger] rest[i]).name != (
        #[trigger] rest[j]).name by {
            assert(board[i].name != board[j].name);
        }
        lemma_scores_after_board(list, rest, name);
        record_adds_one_score(HistoryView::after_board(list, rest), e.name, e.impact, name);
        assert forall|i: int| 0 <= i < board.len() && (#[trigger] board[i]).name
            == name implies HistoryView::scores_of(HistoryView::after_board(list, board), name)
            == last_of(
            HistoryView::scores_of(list, name).push(board[i].impact),
            HISTORY_LEN as nat,
        ) by {
            if i < rest.len() {
                assert(rest[i] == board[i]);
                assert(board[i].name != board[board.len() - 1].name);
            } else {
                assert forall|k: int| 0 <= k < rest.len() implies (#[trigger] rest[k]).name
                    != name by {
                    assert(board[k].name != board[board.len() - 1].name);
                }
            }
        }
        if !EntryView::lists(board, name) {
            assert(board[board.len() - 1].name != name);
            assert forall|k: int| 0 <= k < rest.len() implies (#[trigger] rest[k]).name != name by {
                assert(board[k].name != name);
            }
        }
    }
}

proof fn lemma_scores_after_culprits(
    list: Seq<HistoryView>,
    culprits: Seq<CulpritView>,
    label: Seq<char>,
)
    requires
        CulpritView::one_each(culprits),
    ensures
        forall|i: int|
            0 <= i < culprits.len() && (#[trigger] culprits[i]).label == label
                ==> HistoryView::scores_of(HistoryView::after_culprits(list, culprits), label)
                == last_of(
                HistoryView::scores_of(list, label).push(culprits[i].score),
                HISTORY_LEN as nat,
            ),
        !CulpritView::lists(culprits, label) ==> HistoryView::scores_of(
            HistoryView::after_culprits(list, culprits),
            label,
        ) == HistoryView::scores_of(list, label),
    decreases culprits.len(),
{
    if culprits.len() > 0 {
        let rest = culprits.drop_last();
        let c = culprits.last();
        assert forall|i: int, j: int| 0 <= i < j < rest.len() implies (#[trigger] rest[i]).label != (
        #[trigger] rest[j]).label by {
            assert(culprits[i].label != culprits[j].label);
        }
        lemma_scores_after_culprits(list, rest, label);
        record_adds_one_score(HistoryView::after_culprits(list, rest), c.label, c.score, label);
        assert forall|i: int| 0 <= i < culprits.len() && (#[trigger] culprits[i]).label
            == label implies HistoryView::scores_of(
            HistoryView::after_culprits(list, culprits),
            label,
        ) == last_of(
            HistoryView::scores_of(list, label).push(culprits[i].score),
            HISTORY_LEN as nat,
        ) by {
            if i < rest.len() {
                assert(rest[i] == culprits[i]);
                assert(culprits[i].label != culprits[culprits.len() - 1].label);
            } else {
                assert forall|k: int| 0 <= k < rest.len() implies (#[trigger] rest[k]).label
                    != label by {
                    assert(culprits[k].label != culprits[culprits.len() - 1].label);
                }
            }
        }
        if !CulpritView::lists(culprits, label) {
            assert(culprits[culprits.len() - 1].label != label);
            assert forall|k: int| 0 <= k < rest.len() implies (#[trigger] rest[k]).label
                != label by {
                assert(culprits[k].label != label);
            }
        }
    }
}

/// After a report, the newest score under the name of each entry of its board is that
/// entry's impact, the newest under the label of each of its subsystems is that
/// subsystem's score, and under other names and labels nothing changed.
pub proof fn reports_are_remembered(state: StateView, report: ReportView, name: Seq<char>)
    requires
        EntryView::one_each(report.blameboard),
        CulpritView::one_each(report.culprits),
    ensures
        forall|i: int|
            0 <= i < report.blameboard.len() && (#[trigger] report.blameboard[i]).name == name
                ==> HistoryView::scores_of(state.ingested(report).impact_history, name) == last_of(
                HistoryView::scores_of(state.impact_history, name).push(
                    report.blameboard[i].impact,
                ),
                HISTORY_LEN as nat,
            ),
        !EntryView::lists(report.blameboard, name) ==> HistoryView::scores_of(
            state.ingested(report).impact_history,
            name,
        ) == HistoryView::scores_of(state.impact_history, name),
        forall|i: int|
            0 <= i < report.culprits.len() && (#[trigger] report.culprits[i]).label == name
                ==> HistoryView::scores_of(state.ingested(report).load_history, name) == last_of(
                HistoryView::scores_of(state.load_history, name).push(report.culprits[i].score),
                HISTORY_LEN as nat,
            ),
        !CulpritView::lists(report.culprits, name) ==> HistoryView::scores_of(
            state.ingested(report).load_history,
            name,
        ) == HistoryView::scores_of(state.load_history, name),
{
    lemma_scores_after_board(state.impact_history, report.blameboard, name);
    lemma_scores_after_culprits(state.load_history, report.culprits, name);
}

/// Enter opens the process detail and closes it again; what closes it changes nothing
/// else. Esc closes it too, and leaves the program from the dashboard.
pub proof fn enter_undoes_enter(
    state: StateView,
    ctrl: bool,
    board: Seq<EntryView>,
    visible: nat,
    platform: Platform,
)
    ensures
        ({
            let open = state.after_key(Key::Enter, ctrl, board, visible, platform);
            let back = open.0.after_key(Key::Enter, ctrl, board, visible, platform);
            let esc = open.0.after_key(Key::Esc, ctrl, board, visible, platform);
            &&& open.0.mode != state.mode
            &&& open.1 == Request::Stay
            &&& back == (state, Request::Stay)
            &&& state.mode == ViewMode::Dashboard ==> esc == back
            &&& state.mode == ViewMode::ProcessDetail ==> esc == (open.0, Request::Quit)
        }),
{
}

/// The program is left by q and by Ctrl-C everywhere, by Esc from the dashboard, and by
/// no other key.
pub proof fn only_these_keys_quit(
    state: StateView,
    key: Key,
    ctrl: bool,
    board: Seq<EntryView>,
    visible: nat,
    platform: Platform,
)
    ensures
        state.after_key(key, ctrl, board, visible, platform).1 == Request::Quit <==> key
            == Key::Char('q') || (key == Key::Char('c') && ctrl) || (key == Key::Esc && state.mode
            == ViewMode::Dashboard),
{
}

/// The key of an action on the menu asks for that action, and changes nothing itself.
pub proof fn action_keys_run_actions(
    state: StateView,
    action: Action,
    board: Seq<EntryView>,
    visible: nat,
    platform: Platform,
)
    requires
        Action::listed(platform).contains(action),
    ensures
        state.after_key(Key::Char(action.key_of()), false, board, visible, platform) == (
            state,
            Request::Run(action),
        ),
{
    crate::actions::keys_stand_for_actions(platform, action, action.key_of());
    crate::actions::keys_are_distinct(action, action);
}

/// Moving the selection selects a visible entry, as many rows on as was asked for, or
/// the first or last visible one.
pub proof fn selection_stays_visible(
    state: StateView,
    board: Seq<EntryView>,
    visible: nat,
    delta: int,
)
    requires
        EntryView::one_each(board),
        0 < visible <= board.len(),
    ensures
        ({
            let wanted = state.row(board, visible) + delta;
            let row = state.moved(board, visible, delta).row(board, visible);
            &&& 0 <= row < visible
            &&& state.moved(board, visible, delta).selected(board) == Some(row)
            &&& 0 <= wanted < visible ==> row == wanted
            &&& wanted < 0 ==> row == 0
            &&& wanted >= visible ==> row == visible - 1
        }),
{
    match state.selected_name {
        Some(name) => blameboard::lemma_find(board, name, 0),
        None => {},
    }
    let wanted = state.row(board, visible) + delta;
    let row = if wanted < 0 {
        0
    } else if wanted > visible - 1 {
        visible - 1
    } else {
        wanted
    };
    let name = board[row].name;
    blameboard::lemma_find(board, name, 0);
    let i = EntryView::find(board, name, 0);
    if i < row {
        assert(board[i].name != board[row].name);
    }
}

/// Up takes back what Down did, unless the last visible entry was selected.
pub proof fn up_undoes_down(state: StateView, board: Seq<EntryView>, visible: nat)
    requires
        EntryView::one_each(board),
        0 < visible <= board.len(),
        state.row(board, visible) + 1 < visible,
    ensures
        state.moved(board, visible, 1).moved(board, visible, -1).row(board, visible) == state.row(
            board,
            visible,
        ),
{
    match state.selected_name {
        Some(name) => blameboard::lemma_find(board, name, 0),
        None => {},
    }
    selection_stays_visible(state, board, visible, 1);
    selection_stays_visible(state.moved(board, visible, 1), board, visible, -1);
}

/// There is something to act on whenever the board has an entry.
pub proof fn there_is_a_target(state: StateView, board: Seq<EntryView>)
    ensures
        board.len() > 0 ==> (state.target(board) matches Some(i) && 0 <= i < board.len()),
        board.len() == 0 ==> state.target(board) is None,
{
    match state.selected_name {
        Some(name) => blameboard::lemma_find(board, name, 0),
        None => {},
    }
}

/// What an action came to is shown for five seconds.
pub proof fn status_lasts_five_seconds(
    state: StateView,
    message: Seq<char>,
    at: u64,
    ok: bool,
    now: u64,
)
    requires
        at <= now,
    ensures
        state.with_status(message, at, ok).shown_status(now) == if now < at + 5_000_000_000 {
            Some((message, ok))
        } else {
            None
        },
{
}

proof fn lemma_worst(culprits: Seq<CulpritView>)
    ensures
        forall|i: int|
            0 <= i < culprits.len() ==> (#[trigger] culprits[i]).score <= CulpritView::worst(
                culprits,
            ),
        CulpritView::worst(culprits) > 0 ==> exists|i: int|
            0 <= i < culprits.len() && (#[trigger] culprits[i]).score == CulpritView::worst(
                culprits,
            ),
    decreases culprits.len(),
{
    if culprits.len() > 0 {
        let rest = culprits.drop_last();
        lemma_worst(rest);
        assert forall|i: int| 0 <= i < culprits.len() implies (#[trigger] culprits[i]).score
            <= CulpritView::worst(culprits) by {
            if i < rest.len() {
                assert(rest[i] == culprits[i]);
            }
        }
        if CulpritView::worst(culprits) > 0 {
            if culprits.last().score > CulpritView::worst(rest) {
                assert(culprits[culprits.len() - 1].score == CulpritView::worst(culprits));
            } else {
                let i = choose|i: int|
                    0 <= i < rest.len() && (#[trigger] rest[i]).score == CulpritView::worst(rest);
                assert(culprits[i].score == CulpritView::worst(culprits));
            }
        }
    }
}

/// The screen is refreshed every 250 ms when some subsystem is critical, and only then,
/// every second when some is under stress, and as often as the user wants when none is.
pub proof fn refresh_adapts(report: ReportView, interval_secs: u64)
    ensures
        report.pause(interval_secs) == 250 <==> exists|i: int|
            0 <= i < report.culprits.len() && (#[trigger] report.culprits[i]).score >= 70,
        (exists|i: int|
            0 <= i < report.culprits.len() && (#[trigger] report.culprits[i]).score >= 40) && (
        forall|i: int|
            0 <= i < report.culprits.len() ==> (#[trigger] report.culprits[i]).score < 70)
            ==> report.pause(interval_secs) == 1_000,
        interval_secs >= 1 && (forall|i: int|
            0 <= i < report.culprits.len() ==> (#[trigger] report.culprits[i]).score < 40)
            ==> report.pause(interval_secs) == interval_secs * 1_000,
{
    lemma_worst(report.culprits);
    let worst = CulpritView::worst(report.culprits);
    if worst >= 40 {
        let i = choose|i: int|
            0 <= i < report.culprits.len() && (#[trigger] report.culprits[i]).score == worst;
        assert(report.culprits[i].score == worst);
    }
}

/// Down moves the selection one row on and Up one row back, within the visible rows, and
/// neither changes anything else.
pub proof fn arrow_keys_move_the_selection(
    state: StateView,
    ctrl: bool,
    board: Seq<EntryView>,
    visible: nat,
    platform: Platform,
)
    requires
        EntryView::one_each(board),
        0 < visible <= board.len(),
    ensures
        ({
            let row = state.row(board, visible);
            let down = state.after_key(Key::Down, ctrl, board, visible, platform);
            let up = state.after_key(Key::Up, ctrl, board, visible, platform);
            let below = if row + 1 < visible {
                row + 1
            } else {
                visible - 1
            };
            let above = if row > 0 {
                row - 1
            } else {
                0
            };
            &&& down == (
                StateView { selected_name: Some(board[below].name), ..state },
                Request::Stay,
            )
            &&& up == (StateView { selected_name: Some(board[above].name), ..state }, Request::Stay)
        }),
{
    match state.selected_name {
        Some(name) => blameboard::lemma_find(board, name, 0),
        None => {},
    }
}

/// The row of the selection is that of the entry of the selected name, where that is
/// visible, and the first row otherwise.
pub proof fn the_selected_row_is_that_of_the_name(
    state: StateView,
    board: Seq<EntryView>,
    visible: nat,
    i: int,
)
    requires
        EntryView::one_each(board),
        0 <= i < board.len(),
        state.selected_name == Some(board[i].name),
    ensures
        state.selected(board) == Some(i),
        state.target(board) == Some(i),
        state.row(board, visible) == if i < visible {
            i
        } else {
            0
        },
{
    blameboard::lemma_find(board, board[i].name, 0);
    let k = EntryView::find(board, board[i].name, 0);
    if k < i {
        assert(board[k].name != board[i].name);
    }
}

/// A program stays selected, whatever reports come; where none is, the first one of the
/// board is, and nothing else changes.
pub proof fn selections_last(state: StateView, board: Seq<EntryView>)
    ensures
        state.selected_name is Some ==> state.with_selection(board) == state,
        state.selected_name is None && board.len() > 0 ==> state.with_selection(board) == (
        StateView { selected_name: Some(board[0].name), ..state }),
        board.len() == 0 ==> state.with_selection(board) == state,
{
}

/// A report changes the histories and nothing else.
pub proof fn reports_only_add_to_the_histories(state: StateView, report: ReportView)
    ensures
        state.ingested(report) == (StateView {
            impact_history: state.ingested(report).impact_history,
            load_history: state.ingested(report).load_history,
            ..state
        }),
{
}

/// Of a history the last scores are kept, 24 at most, in their order.
pub proof fn histories_keep_the_last_scores(scores: Seq<u8>, score: u8)
    requires
        scores.len() <= 24,
    ensures
        ({
            let after = last_of(scores.push(score), HISTORY_LEN as nat);
            &&& after.len() == if scores.len() < 24 {
                scores.len() + 1
            } else {
                24
            }
            &&& after.last() == score
            &&& scores.len() < 24 ==> after.take(scores.len() as int) == scores
            &&& scores.len() == 24 ==> after.take(23) == scores.skip(1)
        }),
{
    let after = last_of(scores.push(score), HISTORY_LEN as nat);
    if scores.len() < 24 {
        assert(after.take(scores.len() as int) =~= scores);
    } else {
        assert(after.take(23) =~= scores.skip(1));
    }
}

/// Without an interval the screen is refreshed every two seconds while nothing is under
/// stress.
pub proof fn idle_screens_refresh_every_two_seconds(report: ReportView)
    requires
        forall|i: int|
            0 <= i < report.culprits.len() ==> (#[trigger] report.culprits[i]).score < 40,
    ensures
        report.pause(0) == 2_000,
{
    lemma_worst(report.culprits);
}

/// Letters and other keys leave the state as it is, and what is not the key of an action
/// on the menu asks for nothing.
pub proof fn other_keys_change_nothing(
    state: StateView,
    c: char,
    ctrl: bool,
    board: Seq<EntryView>,
    visible: nat,
    platform: Platform,
)
    ensures
        state.after_key(Key::Char(c), ctrl, board, visible, platform).0 == state,
        state.after_key(Key::Other, ctrl, board, visible, platform) == (state, Request::Stay),
        (forall|a: Action|
            Action::listed(platform).contains(a) ==> #[trigger] a.key_of() != c) && c != 'q' && !(c
            == 'c' && ctrl) ==> state.after_key(Key::Char(c), ctrl, board, visible, platform).1
            == Request::Stay,
{
    crate::actions::keys_stand_for_actions(platform, Action::Term, c);
}

} // verus!
