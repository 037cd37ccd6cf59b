//! The program between the outside events: reports come in, keys are pressed,
//! and each time it is known what to show, what to do and how long to wait.
use crate::actions::{Action, ActionResult, Platform, ResultView, Task, TaskView};
use crate::diagnose::{Report, ReportView};
use crate::display;
use crate::display::{draw, draw_splash};
use crate::layout::Area;
use crate::panels;
use crate::panels::{Live, LiveView, Panel, PanelView};
use crate::state::{
    finish_action, handle_key, quits_splash, refresh_ms, run_selected_action, selectable, Key,
    Request, StateView, UiState, ViewMode, MAX_VISIBLE,
};
use vstd::prelude::*;

verus! {

/// The state of the screen, the report that it shows, and how often the user wants
/// to see a new one.
#[derive(Debug)]
pub struct Watch {
    pub state: UiState,
    pub report: Option<Report>,
    pub interval_secs: u64,
}

/// What a `Watch` says.
pub struct WatchView {
    pub state: StateView,
    pub report: Option<ReportView>,
    pub interval_secs: u64,
}

impl DeepView for Watch {
    type V = WatchView;

    open spec fn deep_view(&self) -> WatchView {
        WatchView {
            state: self.state.deep_view(),
            report: match self.report {
                Some(r) => Some(r.deep_view()),
                None => None,
            },
            interval_secs: self.interval_secs,
        }
    }
}

/// What a key asks for.
#[derive(Debug)]
pub enum Answer {
    /// Leave the program.
    Quit,
    /// Nothing more.
    Stay,
    /// Do this to the processes of the entry at `index`, for `action`.
    Run { index: usize, action: Action, task: Task },
}

/// What an `Answer` says.
pub enum AnswerView {
    Quit,
    Stay,
    Run { index: int, action: Action, task: TaskView },
}

impl DeepView for Answer {
    type V = AnswerView;

    open spec fn deep_view(&self) -> AnswerView {
        match *self {
            Answer::Quit => AnswerView::Quit,
            Answer::Stay => AnswerView::Stay,
            Answer::Run { index, action, task } => AnswerView::Run {
                index: index as int,
                action,
                task: task.deep_view(),
            },
        }
    }
}

impl WatchView {
    /// After one more report: what was shown becomes the report before it.
    pub open spec fn received(self, report: ReportView) -> WatchView {
        let state = StateView {
            prev_report: match self.report {
                Some(shown) => Some(shown),
                None => self.state.prev_report,
            },
            ..self.state
        };
        WatchView { state: state.ingested(report), report: Some(report), ..self }
    }

    /// After these reports, one by one.
    pub open spec fn received_all(self, reports: Seq<ReportView>) -> WatchView
        decreases reports.len(),
    {
        if reports.len() == 0 {
            self
        } else {
            self.received_all(reports.drop_last()).received(reports.last())
        }
    }

    /// With something selected, where there is something to select.
    pub open spec fn ready(self) -> WatchView {
        match self.report {
            Some(r) => WatchView { state: self.state.with_selection(r.blameboard), ..self },
            None => self,
        }
    }

    /// The entries that can be selected.
    pub open spec fn visible(self) -> nat {
        match self.report {
            Some(r) => if r.blameboard.len() < MAX_VISIBLE {
                r.blameboard.len()
            } else {
                MAX_VISIBLE as nat
            },
            None => 0,
        }
    }

    /// After a key, and what it asks for.
    pub open spec fn pressed(self, key: Key, ctrl: bool, platform: Platform, now: u64) -> (
        WatchView,
        AnswerView,
    ) {
        match self.report {
            Some(r) => {
                let (state, request) = self.state.after_key(
                    key,
                    ctrl,
                    r.blameboard,
                    self.visible(),
                    platform,
                );
                let next = WatchView { state, ..self };
                match request {
                    Request::Quit => (next, AnswerView::Quit),
                    Request::Stay => (next, AnswerView::Stay),
                    Request::Run(action) => match state.target(r.blameboard) {
                        Some(index) => {
                            let e = r.blameboard[index];
                            let task = TaskView::of(action, e.name, e.all_pids, platform);
                            (next, AnswerView::Run { index, action, task })
                        },
                        None => (
                            WatchView {
                                state: state.with_status("No process selected"@, now, false),
                                ..next
                            },
                            AnswerView::Stay,
                        ),
                    },
                }
            },
            None => (
                self,
                if key == Key::Char('q') || key == Key::Esc || (key == Key::Char('c') && ctrl) {
                    AnswerView::Quit
                } else {
                    AnswerView::Stay
                },
            ),
        }
    }

    /// After an action on the entry at `index` came to this.
    pub open spec fn finished(self, index: int, result: ResultView, now: u64) -> WatchView {
        match self.report {
            Some(r) => WatchView {
                state: self.state.with_status(
                    r.blameboard[index].name + ": "@ + result.message,
                    now,
                    result.ok,
                ),
                ..self
            },
            None => self,
        }
    }

    /// The screen can be drawn on this area.
    pub open spec fn drawable(self, live: LiveView, area: Area) -> bool {
        match self.report {
            Some(r) => self.state.mode == ViewMode::Dashboard ==> self.state.drawable(
                r,
                live,
                area.width,
            ),
            None => area.x + 1 <= u16::MAX && area.y + panels::less((area.height / 2) as int, 3)
                <= u16::MAX,
        }
    }

    /// The panels are what there is to show.
    pub open spec fn shows(
        self,
        live: LiveView,
        area: Area,
        shown: Seq<PanelView>,
        rows: Seq<Area>,
        halves: Seq<Area>,
    ) -> bool {
        match self.report {
            Some(r) => if self.state.mode == ViewMode::Dashboard {
                self.state.dashboard_on(r, live, area, shown, rows, halves)
            } else {
                self.state.process_detail_on(r, live.now, area, shown, rows, halves)
            },
            None => shown == display::splash(area),
        }
    }
}

impl Watch {
    /// Before the first report, for the user of this id and name.
    pub fn new(current_uid: u32, current_username: Option<String>, interval_secs: u64) -> (r: Watch)
        ensures
            r.report is None,
            r.interval_secs == interval_secs,
            r.state.deep_view() == StateView::initial(
                current_uid,
                crate::state::text_of(current_username),
            ),
    {
        Watch { state: UiState::new(current_uid, current_username), report: None, interval_secs }
    }

    /// Takes reports in, and says how long to wait for the next one, where there is
    /// news.
    pub fn receive(&mut self, reports: Vec<Report>) -> (r: Option<u64>)
        requires
            old(self).interval_secs * 1_000 <= u64::MAX,
        ensures
            final(self).deep_view() == old(self).deep_view().received_all(
                reports.deep_view(),
            ).ready(),
            r is Some <==> reports@.len() > 0,
            r matches Some(ms) ==> ms == reports.deep_view().last().pause(old(self).interval_secs),
    {
        let ghost all = reports.deep_view();
        let ghost start = self.deep_view();
        let mut rest = reports;
        let mut pause: Option<u64> = None;
        let ghost mut done: nat = 0;
        proof {
            assert(all.take(0) =~= Seq::empty());
            assert(rest.deep_view() =~= all.skip(0));
        }
        while rest.len() > 0
            invariant
                done + rest@.len() == all.len(),
                rest.deep_view() == all.skip(done as int),
                self.deep_view() == start.received_all(all.take(done as int)),
                self.interval_secs == start.interval_secs,
                start.interval_secs * 1_000 <= u64::MAX,
                pause is Some <==> done > 0,
                pause matches Some(ms) ==> ms == all[done - 1].pause(start.interval_secs),
            decreases rest@.len(),
        {
            let ghost before = self.deep_view();
            let ghost old_rest = rest.deep_view();
            let next = rest.remove(0);
            let ghost nv = next.deep_view();
            proof {
                assert(old_rest[0] == nv);
                assert(rest.deep_view() =~= old_rest.skip(1));
                assert(old_rest.skip(1) =~= all.skip(done as int + 1));
                assert(all.take(done as int + 1).drop_last() =~= all.take(done as int));
                assert(all.take(done as int + 1).last() == nv);
            }
            pause = Some(refresh_ms(&next, self.interval_secs));
            let shown = self.report.take();
            self.state.adopt(shown, &next);
            self.report = Some(next);
            proof {
                assert(self.deep_view() == before.received(nv));
                done = done + 1;
            }
        }
        proof {
            assert(all.take(all.len() as int) =~= all);
        }
        if let Some(report) = &self.report {
            self.state.select_first(report);
        }
        pause
    }

    /// Changes what the key says, and says what else it asks for.
    pub fn press(&mut self, key: Key, ctrl: bool, platform: Platform, now: u64) -> (r: Answer)
        ensures
            (final(self).deep_view(), r.deep_view()) == old(self).deep_view().pressed(
                key,
                ctrl,
                platform,
                now,
            ),
            final(self).report == old(self).report,
            r matches Answer::Run { index, .. } ==> old(self).report is Some && index < old(
                self,
            ).report->0.blameboard@.len(),
    {
        match &self.report {
            Some(report) => {
                let visible = selectable(report);
                match handle_key(key, ctrl, &mut self.state, report, visible, platform) {
                    Request::Quit => Answer::Quit,
                    Request::Stay => Answer::Stay,
                    Request::Run(action) => {
                        match run_selected_action(action, &mut self.state, report, platform, now) {
                            Some((index, task)) => Answer::Run { index, action, task },
                            None => Answer::Stay,
                        }
                    },
                }
            },
            None => {
                if quits_splash(key, ctrl) {
                    Answer::Quit
                } else {
                    Answer::Stay
                }
            },
        }
    }

    /// Shows what an action on the entry at `index` came to.
    pub fn finish(&mut self, index: usize, result: &ActionResult, now: u64)
        requires
            old(self).report matches Some(r) ==> index < r.blameboard@.len(),
        ensures
            final(self).deep_view() == old(self).deep_view().finished(
                index as int,
                result.deep_view(),
                now,
            ),
    {
        if let Some(report) = &self.report {
            finish_action(
                &mut self.state,
                report.blameboard[index].name.as_str(),
                result,
                now,
            );
        }
    }

    /// The processes whose reach decides what the actions can do.
    pub fn target_pids(&self) -> (r: Vec<u32>)
        ensures
            r@ == match self.deep_view().report {
                Some(report) => self.deep_view().state.target_pids(report),
                None => Seq::empty(),
            },
    {
        if let Some(report) = &self.report {
            if let Some(i) = self.state.target_entry(report) {
                assert(report.deep_view().blameboard[i as int]
                    == report.blameboard@[i as int].deep_view());
                return crate::collect::copy_all(&report.blameboard[i].all_pids);
            }
        }
        Vec::new()
    }

    /// Whether the screen can be drawn on this area.
    pub fn can_draw(&self, live: &Live, area: Area) -> (r: bool)
        ensures
            r == self.deep_view().drawable(live.deep_view(), area),
    {
        match &self.report {
            Some(report) => self.state.mode != ViewMode::Dashboard || display::can_draw(
                report,
                &self.state,
                live,
                area.width,
            ),
            None => {
                let half: u16 = area.height / 2;
                let down: u16 = if half > 3 {
                    half - 3
                } else {
                    0
                };
                area.x < u16::MAX && area.y <= u16::MAX - down
            },
        }
    }

    /// What there is to show.
    pub fn draw(&self, live: &Live, area: Area) -> (r: Vec<Panel>)
        requires
            self.deep_view().drawable(live.deep_view(), area),
        ensures
            exists|rows: Seq<Area>, halves: Seq<Area>|
                self.deep_view().shows(live.deep_view(), area, r.deep_view(), rows, halves),
            self.report is Some || area.width > 0 ==> PanelView::all_within(r.deep_view(), area),
    {
        match &self.report {
            Some(report) => {
                let r = draw(report, &self.state, live, area);
                proof {
                    let sv = self.state.deep_view();
                    let rv = report.deep_view();
                    let lv = live.deep_view();
                    let pv = r.deep_view();
                    let (rows, halves) = if self.state.mode == ViewMode::Dashboard {
                        choose|rows: Seq<Area>, halves: Seq<Area>|
                            sv.dashboard_on(rv, lv, area, pv, rows, halves)
                    } else {
                        choose|rows: Seq<Area>, halves: Seq<Area>|
                            sv.process_detail_on(rv, lv.now, area, pv, rows, halves)
                    };
                    assert(self.deep_view().shows(lv, area, pv, rows, halves));
                }
                r
            },
            None => {
                let r = draw_splash(area);
                proof {
                    if area.width > 0 {
                        display::splashes_stay_on_the_screen(area);
                    }
                    assert(self.deep_view().shows(
                        live.deep_view(),
                        area,
                        r.deep_view(),
                        Seq::empty(),
                        Seq::empty(),
                    ));
                }
                r
            },
        }
    }
}

// ---------------------------------------------------------------------------
// What holds of every run
// ---------------------------------------------------------------------------

/// The latest report is shown, and compared with the one before it.
pub proof fn the_latest_report_is_shown(watch: WatchView, reports: Seq<ReportView>)
    requires
        reports.len() > 0,
    ensures
        watch.received_all(reports).ready().report == Some(reports.last()),
        reports.len() >= 2 ==> watch.received_all(reports).ready().state.prev_report == Some(
            reports[reports.len() - 2],
        ),
        reports.len() == 1 && watch.report is Some ==> watch.received_all(
            reports,
        ).ready().state.prev_report == watch.report,
{
    let rest = reports.drop_last();
    if rest.len() > 0 {
        let before = watch.received_all(rest);
        assert(before == watch.received_all(rest.drop_last()).received(rest.last()));
        assert(before.report == Some(rest.last()));
    }
}

/// It makes no difference whether reports come together or one after the other.
pub proof fn reports_can_come_apart(watch: WatchView, a: Seq<ReportView>, b: Seq<ReportView>)
    ensures
        watch.received_all(a).received_all(b) == watch.received_all(a + b),
    decreases b.len(),
{
    if b.len() == 0 {
        assert(a + b =~= a);
    } else {
        reports_can_come_apart(watch, a, b.drop_last());
        assert((a + b).drop_last() =~= a + b.drop_last());
    }
}

/// Some program is selected as soon as there is one.
pub proof fn something_is_selected(watch: WatchView, reports: Seq<ReportView>)
    requires
        reports.len() > 0,
        reports.last().blameboard.len() > 0,
    ensures
        watch.received_all(reports).ready().state.selected_name is Some,
{
}

/// The histories stay sound, whatever reports come.
pub proof fn runs_stay_sound(watch: WatchView, reports: Seq<ReportView>)
    requires
        watch.state.sound(),
    ensures
        watch.received_all(reports).ready().state.sound(),
    decreases reports.len(),
{
    if reports.len() > 0 {
        let before = watch.received_all(reports.drop_last());
        runs_stay_sound(watch, reports.drop_last());
        assert(before.state.sound());
        let state = StateView {
            prev_report: match before.report {
                Some(shown) => Some(shown),
                None => before.state.prev_report,
            },
            ..before.state
        };
        crate::state::states_stay_sound(state, reports.last(), Key::Other, false, 0, Platform::Other);
    }
}

/// The key of an action on the menu asks for its task on the processes of the target,
/// whenever there is one.
pub proof fn action_keys_reach_the_target(
    watch: WatchView,
    action: Action,
    platform: Platform,
    now: u64,
)
    requires
        Action::listed(platform).contains(action),
        watch.report matches Some(r) && r.blameboard.len() > 0,
    ensures
        ({
            let board = watch.report->0.blameboard;
            let index = watch.state.target(board)->0;
            &&& 0 <= index < board.len()
            &&& watch.pressed(Key::Char(action.key_of()), false, platform, now) == (
                watch,
                AnswerView::Run {
                    index,
                    action,
                    task: TaskView::of(
                        action,
                        board[index].name,
                        board[index].all_pids,
                        platform,
                    ),
                },
            )
        }),
{
    let board = watch.report->0.blameboard;
    crate::state::there_is_a_target(watch.state, board);
    crate::state::action_keys_run_actions(watch.state, action, board, watch.visible(), platform);
}

/// Once an action was carried out, the footer tells of it for five seconds, with the name
/// of the program that it was carried out on; nothing else changes.
pub proof fn outcomes_are_told_with_the_name(
    watch: WatchView,
    index: int,
    result: ResultView,
    at: u64,
    now: u64,
)
    requires
        watch.report matches Some(r) && 0 <= index < r.blameboard.len(),
        at <= now,
    ensures
        ({
            let after = watch.finished(index, result, at);
            let name = watch.report->0.blameboard[index].name;
            &&& after.state.shown_status(now) == if now < at + 5_000_000_000 {
                Some((name + ": "@ + result.message, result.ok))
            } else {
                None
            }
            &&& after == (WatchView {
                state: StateView { status: after.state.status, ..watch.state },
                ..watch
            })
        }),
{
}

/// Ten programs at most can be selected.
pub proof fn ten_programs_can_be_selected(watch: WatchView)
    ensures
        watch.visible() <= 10,
        watch.report matches Some(r) ==> watch.visible() <= r.blameboard.len() && (watch.visible()
            == 10 || watch.visible() == r.blameboard.len()),
        watch.report is None ==> watch.visible() == 0,
{
}

/// Before the first report only the keys that quit do something; after it, keys act on the
/// report that is shown, and never change it.
pub proof fn keys_leave_the_report(watch: WatchView, key: Key, ctrl: bool, platform: Platform, now: u64)
    ensures
        watch.pressed(key, ctrl, platform, now).0.report == watch.report,
        watch.pressed(key, ctrl, platform, now).0.interval_secs == watch.interval_secs,
        watch.report is None ==> watch.pressed(key, ctrl, platform, now).0 == watch,
        watch.report is None ==> (watch.pressed(key, ctrl, platform, now).1 is Quit <==> key
            == Key::Char('q') || key == Key::Esc || (key == Key::Char('c') && ctrl)),
        watch.report matches Some(r) ==> (watch.pressed(key, ctrl, platform, now).1 is Quit <==> key
            == Key::Char('q') || (key == Key::Char('c') && ctrl) || (key == Key::Esc
            && watch.state.mode == ViewMode::Dashboard)),
{
}

/// An action without a program to act on is told, and runs nothing.
pub proof fn actions_need_a_program(
    watch: WatchView,
    action: Action,
    platform: Platform,
    now: u64,
)
    requires
        Action::listed(platform).contains(action),
        watch.report matches Some(r) && r.blameboard.len() == 0,
    ensures
        watch.pressed(Key::Char(action.key_of()), false, platform, now) == (
            WatchView {
                state: watch.state.with_status("No process selected"@, now, false),
                ..watch
            },
            AnswerView::Stay,
        ),
{
    let board = watch.report->0.blameboard;
    crate::state::there_is_a_target(watch.state, board);
    crate::state::action_keys_run_actions(watch.state, action, board, watch.visible(), platform);
}

/// The screen can be drawn on any terminal before the first report, and in the process
/// detail.
pub proof fn terminals_can_be_drawn_on(watch: WatchView, live: LiveView, area: Area)
    requires
        area.x == 0,
        area.y == 0,
        watch.report is None || watch.state.mode == ViewMode::ProcessDetail,
    ensures
        watch.drawable(live, area),
{
}

} // verus!
