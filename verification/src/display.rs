//! The screens: which panels there are, and how they share the terminal.
use crate::actions::{Action, Platform};
use crate::blameboard::EntryView;
use crate::collect::MetricsView;
use crate::decimal;
use crate::diagnose;
use crate::diagnose::{Report, ReportView};
use crate::float::Double;
use crate::layout;
use crate::layout::{split, Area, Constraint, Direction};
use crate::panels;
use crate::panels::{
    draw_action_hint, draw_actions_bar, draw_blameboard, draw_details, draw_footer, draw_process,
    draw_system_load, draw_system_load_collapsed, footer_constraints, Body, BodyView, Live, LiveView,
    Panel, PanelView,
};
use crate::state::{StateView, UiState, ViewMode};
use crate::style::{Color, Line, LineView, Span, SpanView, Style};
use crate::widgets;
use vstd::prelude::*;

verus! {

// ---------------------------------------------------------------------------
// Splash
// ---------------------------------------------------------------------------

/// The middle of the screen, within its frame.
pub open spec fn splash_area(area: Area) -> Area {
    Area {
        x: (area.x + 1) as u16,
        y: (area.y + panels::less((area.height / 2) as int, 3)) as u16,
        width: panels::less(area.width as int, 2) as u16,
        height: if panels::less(area.height as int, 2) < 5 {
            panels::less(area.height as int, 2) as u16
        } else {
            5
        },
    }
}

pub open spec fn splash_lines() -> Seq<LineView> {
    seq![
        LineView::blank(),
        LineView::centered(SpanView::of("stop"@, Style::strong(Color::White))),
        LineView::centered(SpanView::of("why is your computer slow?"@, Style::of(Color::Gray))),
        LineView::blank(),
        LineView::centered(
            SpanView::of("sampling system metrics, one moment…"@, Style::of(Color::DarkGray)),
        ),
    ]
}

/// What is shown before the first report.
pub open spec fn splash(area: Area) -> Seq<PanelView> {
    seq![
        PanelView { area, bordered: true, title: Seq::empty(), body: BodyView::Frame },
        PanelView::bare(splash_area(area), splash_lines()),
    ]
}

/// What is shown before the first report.
pub fn draw_splash(area: Area) -> (r: Vec<Panel>)
    requires
        area.x + 1 <= u16::MAX,
        area.y + panels::less((area.height / 2) as int, 3) <= u16::MAX,
    ensures
        r.deep_view() == splash(area),
{
    let mut lines: Vec<Line> = Vec::new();
    lines.push(Line::blank());
    lines.push(Line::centered(Span::fixed("stop", Style::bold(Color::White))));
    lines.push(Line::centered(Span::fixed("why is your computer slow?", Style::fg(Color::Gray))));
    lines.push(Line::blank());
    lines.push(
        Line::centered(
            Span::fixed("sampling system metrics, one moment…", Style::fg(Color::DarkGray)),
        ),
    );
    proof {
        assert(lines.deep_view() =~= splash_lines());
    }
    let half: u16 = area.height / 2;
    let room: u16 = if area.height > 2 {
        area.height - 2
    } else {
        0
    };
    let inner = Area {
        x: area.x + 1,
        y: area.y + if half > 3 {
            half - 3
        } else {
            0
        },
        width: if area.width > 2 {
            area.width - 2
        } else {
            0
        },
        height: if room < 5 {
            room
        } else {
            5
        },
    };
    let mut r: Vec<Panel> = Vec::new();
    let title: Vec<Span> = Vec::new();
    proof {
        assert(title.deep_view() =~= Seq::empty());
    }
    r.push(Panel { area, bordered: true, title, body: Body::Frame });
    r.push(Panel::bare(inner, lines));
    proof {
        assert(r.deep_view() =~= splash(area));
    }
    r
}

// ---------------------------------------------------------------------------
// Dashboard
// ---------------------------------------------------------------------------

impl ReportView {
    /// No subsystem is under stress, so that the load panel collapses.
    pub open spec fn quiet(self) -> bool {
        forall|i: int| 0 <= i < self.culprits.len() ==> (#[trigger] self.culprits[i]).score < 40
    }

    /// Some program is to blame, so that there is room for advice.
    pub open spec fn blames(self) -> bool {
        exists|i: int|
            0 <= i < self.blameboard.len() && (#[trigger] self.blameboard[i]).is_culprit()
    }

    /// The rows that the load panel asks for.
    pub open spec fn load_height(self) -> nat {
        if self.quiet() {
            3
        } else {
            self.culprits.len() % 65536 + 2
        }
    }

    /// How the dashboard is divided: the board gets what the others leave.
    pub open spec fn dashboard_split(self, platform: Platform) -> Seq<Constraint> {
        seq![
            Constraint::Min(5),
            Constraint::Length(
                if self.blames() {
                    1
                } else {
                    0
                },
            ),
            Constraint::Length(11),
            Constraint::Length(self.load_height() as u16),
            Constraint::Length((Action::listed(platform).len() + 3) as u16),
            Constraint::Length(1),
        ]
    }
}

/// Whether no subsystem is under stress.
pub fn load_collapsed(report: &Report) -> (r: bool)
    ensures
        r == report.deep_view().quiet(),
{
    let ghost cv = report.deep_view().culprits;
    let mut i: usize = 0;
    while i < report.culprits.len()
        invariant
            cv == report.culprits.deep_view(),
            i <= report.culprits@.len(),
            forall|k: int| 0 <= k < i ==> (#[trigger] cv[k]).score < 40,
        decreases report.culprits@.len() - i,
    {
        assert(cv[i as int].score == report.culprits@[i as int].score);
        if report.culprits[i].score >= 40 {
            assert(!(report.deep_view().culprits[i as int].score < 40));
            return false;
        }
        i = i + 1;
    }
    true
}

/// Whether some program is to blame.
pub fn has_culprit(report: &Report) -> (r: bool)
    ensures
        r == report.deep_view().blames(),
{
    let ghost bv = report.deep_view().blameboard;
    let mut i: usize = 0;
    while i < report.blameboard.len()
        invariant
            bv == report.blameboard.deep_view(),
            i <= report.blameboard@.len(),
            forall|k: int| 0 <= k < i ==> !(#[trigger] bv[k]).is_culprit(),
        decreases report.blameboard@.len() - i,
    {
        assert(bv[i as int].impact == report.blameboard@[i as int].impact);
        if report.blameboard[i].impact >= 40 {
            assert(report.deep_view().blameboard[i as int].is_culprit());
            return true;
        }
        i = i + 1;
    }
    false
}

/// How the dashboard is divided.
pub fn dashboard_constraints(report: &Report, platform: Platform) -> (r: Vec<Constraint>)
    requires
        report.deep_view().load_height() <= u16::MAX,
    ensures
        r@ == report.deep_view().dashboard_split(platform),
{
    let load_height: u16 = if load_collapsed(report) {
        3
    } else {
        (report.culprits.len() % 65536) as u16 + 2
    };
    let hint_height: u16 = if has_culprit(report) {
        1
    } else {
        0
    };
    let menu = Action::menu(platform);
    let mut c: Vec<Constraint> = Vec::new();
    c.push(Constraint::Min(5));
    c.push(Constraint::Length(hint_height));
    c.push(Constraint::Length(11));
    c.push(Constraint::Length(load_height));
    c.push(Constraint::Length(menu.len() as u16 + 3));
    c.push(Constraint::Length(1));
    proof {
        assert(c@ =~= report.deep_view().dashboard_split(platform));
    }
    c
}

impl StateView {
    /// The dashboard can be drawn this wide.
    pub open spec fn drawable(self, report: ReportView, live: LiveView, width: u16) -> bool {
        &&& report.load_height() <= u16::MAX
        &&& self.target_of(report) matches Some(e) ==> e.cmd_cuttable(width)
        &&& report.quiet() ==> report.compact()
        &&& live.answers(self.target_pids(report).len())
    }

    /// The panels of the dashboard, whose rows are `rows` and whose last row is
    /// divided into `halves`.
    pub open spec fn dashboard(
        self,
        report: ReportView,
        live: LiveView,
        rows: Seq<Area>,
        halves: Seq<Area>,
    ) -> Seq<PanelView> {
        seq![self.board_panel(report, rows[0])] + (if report.blames() {
            report.hint_panels(rows[1])
        } else {
            Seq::empty()
        }) + seq![
            self.details_panel(report, rows[2]),
            if report.quiet() {
                report.collapsed_panel(rows[3])
            } else {
                self.load_panel(report, rows[3])
            },
            self.actions_panel(report, live, rows[4]),
        ] + self.footer_panels(live.now, halves[0], halves[1])
    }

    /// The panels are those of the dashboard, on rows into which this area was divided.
    pub open spec fn dashboard_on(
        self,
        report: ReportView,
        live: LiveView,
        area: Area,
        shown: Seq<PanelView>,
        rows: Seq<Area>,
        halves: Seq<Area>,
    ) -> bool {
        &&& layout::solves(
            area,
            Direction::Vertical,
            report.dashboard_split(live.platform),
            rows,
        )
        &&& layout::solves(
            rows[5],
            Direction::Horizontal,
            panels::footer_split(self.mode),
            halves,
        )
        &&& shown == self.dashboard(report, live, rows, halves)
    }

    /// The panels of the process detail, above a last row that is divided into
    /// `halves`.
    pub open spec fn process_detail(
        self,
        report: ReportView,
        now: u64,
        rows: Seq<Area>,
        halves: Seq<Area>,
    ) -> Seq<PanelView> {
        seq![self.process_panel(report, rows[0])] + self.footer_panels(now, halves[0], halves[1])
    }

    /// The panels are those of the process detail, on rows into which this area was divided.
    pub open spec fn process_detail_on(
        self,
        report: ReportView,
        now: u64,
        area: Area,
        shown: Seq<PanelView>,
        rows: Seq<Area>,
        halves: Seq<Area>,
    ) -> bool {
        &&& layout::solves(area, Direction::Vertical, process_detail_split(), rows)
        &&& layout::solves(
            rows[1],
            Direction::Horizontal,
            panels::footer_split(self.mode),
            halves,
        )
        &&& shown == self.process_detail(report, now, rows, halves)
    }
}

/// Whether the dashboard can be drawn this wide.
pub fn can_draw(report: &Report, state: &UiState, live: &Live, width: u16) -> (r: bool)
    ensures
        r == state.deep_view().drawable(report.deep_view(), live.deep_view(), width),
{
    let collapsed = load_collapsed(report);
    if !collapsed && report.culprits.len() % 65536 > 65533 {
        return false;
    }
    if collapsed && !panels::can_compact(report) {
        return false;
    }
    match state.target_entry(report) {
        Some(i) => {
            let e = &report.blameboard[i];
            assert(report.deep_view().blameboard[i as int] == e.deep_view());
            panels::can_cut_cmd(e, width) && (live.is_root || live.reachable.len()
                == e.all_pids.len())
        },
        None => live.is_root || live.reachable.len() == 0,
    }
}

/// The panels of the dashboard, on the given parts of the screen.
pub fn dashboard_panels(
    report: &Report,
    state: &UiState,
    live: &Live,
    rows: &Vec<Area>,
    halves: &Vec<Area>,
) -> (r: Vec<Panel>)
    requires
        rows@.len() == 6,
        halves@.len() == 2,
        state.deep_view().drawable(report.deep_view(), live.deep_view(), rows@[2].width),
    ensures
        r.deep_view() == state.deep_view().dashboard(
            report.deep_view(),
            live.deep_view(),
            rows@,
            halves@,
        ),
{
    let mut r: Vec<Panel> = Vec::new();
    r.push(draw_blameboard(report, state, rows[0]));
    if has_culprit(report) {
        match draw_action_hint(report, rows[1]) {
            Some(p) => r.push(p),
            None => {},
        }
    }
    let ghost head = r.deep_view();
    proof {
        assert(head =~= seq![state.deep_view().board_panel(report.deep_view(), rows@[0])] + (
        if report.deep_view().blames() {
            report.deep_view().hint_panels(rows@[1])
        } else {
            Seq::empty()
        }));
    }
    r.push(draw_details(report, state, rows[2]));
    if load_collapsed(report) {
        r.push(draw_system_load_collapsed(report, rows[3]));
    } else {
        r.push(draw_system_load(report, state, rows[3]));
    }
    r.push(draw_actions_bar(report, state, live, rows[4]));
    let ghost body = r.deep_view();
    let mut footer = draw_footer(state, live.now, halves[0], halves[1]);
    let ghost tail = footer.deep_view();
    r.append(&mut footer);
    proof {
        assert(r.deep_view() =~= body + tail);
        assert(r.deep_view() =~= state.deep_view().dashboard(
            report.deep_view(),
            live.deep_view(),
            rows@,
            halves@,
        ));
    }
    r
}

/// The dashboard on an area, divided as `dashboard_constraints` and
/// `footer_constraints` ask.
pub fn draw_dashboard(report: &Report, state: &UiState, live: &Live, area: Area) -> (r: Vec<Panel>)
    requires
        state.deep_view().drawable(report.deep_view(), live.deep_view(), area.width),
    ensures
        exists|rows: Seq<Area>, halves: Seq<Area>|
            state.deep_view().dashboard_on(
                report.deep_view(),
                live.deep_view(),
                area,
                r.deep_view(),
                rows,
                halves,
            ),
        PanelView::all_within(r.deep_view(), area),
{
    let constraints = dashboard_constraints(report, live.platform);
    let rows = split(area, Direction::Vertical, &constraints);
    let halves = split(rows[5], Direction::Horizontal, &footer_constraints(state.mode));
    proof {
        assert(rows@[2].width == area.width);
    }
    let r = dashboard_panels(report, state, live, &rows, &halves);
    proof {
        assert(state.deep_view().dashboard_on(
            report.deep_view(),
            live.deep_view(),
            area,
            r.deep_view(),
            rows@,
            halves@,
        ));
        dashboards_stay_on_the_screen(
            state.deep_view(),
            report.deep_view(),
            live.deep_view(),
            area,
            r.deep_view(),
            rows@,
            halves@,
        );
    }
    r
}

// ---------------------------------------------------------------------------
// Process detail
// ---------------------------------------------------------------------------

/// The panels of the process detail, on the given parts of the screen.
pub fn process_detail_panels(
    report: &Report,
    state: &UiState,
    now: u64,
    rows: &Vec<Area>,
    halves: &Vec<Area>,
) -> (r: Vec<Panel>)
    requires
        rows@.len() == 2,
        halves@.len() == 2,
    ensures
        r.deep_view() == state.deep_view().process_detail(
            report.deep_view(),
            now,
            rows@,
            halves@,
        ),
{
    let mut r: Vec<Panel> = Vec::new();
    r.push(draw_process(report, state, rows[0]));
    let ghost head = r.deep_view();
    let mut footer = draw_footer(state, now, halves[0], halves[1]);
    let ghost tail = footer.deep_view();
    r.append(&mut footer);
    proof {
        assert(r.deep_view() =~= head + tail);
        assert(r.deep_view() =~= state.deep_view().process_detail(
            report.deep_view(),
            now,
            rows@,
            halves@,
        ));
    }
    r
}

/// The process detail takes what the footer leaves.
pub open spec fn process_detail_split() -> Seq<Constraint> {
    seq![Constraint::Min(5), Constraint::Length(1)]
}

/// How the process detail is divided.
pub fn process_detail_constraints() -> (r: Vec<Constraint>)
    ensures
        r@ == process_detail_split(),
{
    let mut c: Vec<Constraint> = Vec::new();
    c.push(Constraint::Min(5));
    c.push(Constraint::Length(1));
    proof {
        assert(c@ =~= process_detail_split());
    }
    c
}

/// The process detail on an area, divided as `process_detail_constraints` and
/// `footer_constraints` ask.
pub fn draw_process_detail_fullscreen(report: &Report, state: &UiState, now: u64, area: Area) -> (r:
    Vec<Panel>)
    ensures
        exists|rows: Seq<Area>, halves: Seq<Area>|
            state.deep_view().process_detail_on(
                report.deep_view(),
                now,
                area,
                r.deep_view(),
                rows,
                halves,
            ),
        PanelView::all_within(r.deep_view(), area),
{
    let rows = split(area, Direction::Vertical, &process_detail_constraints());
    let halves = split(rows[1], Direction::Horizontal, &footer_constraints(state.mode));
    let r = process_detail_panels(report, state, now, &rows, &halves);
    proof {
        assert(state.deep_view().process_detail_on(
            report.deep_view(),
            now,
            area,
            r.deep_view(),
            rows@,
            halves@,
        ));
        process_details_stay_on_the_screen(
            state.deep_view(),
            report.deep_view(),
            now,
            area,
            r.deep_view(),
            rows@,
            halves@,
        );
    }
    r
}

/// The screen in the mode it is in.
pub fn draw(report: &Report, state: &UiState, live: &Live, area: Area) -> (r: Vec<Panel>)
    requires
        state.mode == ViewMode::Dashboard ==> state.deep_view().drawable(
            report.deep_view(),
            live.deep_view(),
            area.width,
        ),
    ensures
        state.mode == ViewMode::ProcessDetail ==> exists|rows: Seq<Area>, halves: Seq<Area>|
            state.deep_view().process_detail_on(
                report.deep_view(),
                live.now,
                area,
                r.deep_view(),
                rows,
                halves,
            ),
        state.mode == ViewMode::Dashboard ==> exists|rows: Seq<Area>, halves: Seq<Area>|
            state.deep_view().dashboard_on(
                report.deep_view(),
                live.deep_view(),
                area,
                r.deep_view(),
                rows,
                halves,
            ),
        PanelView::all_within(r.deep_view(), area),
{
    if state.mode == ViewMode::ProcessDetail {
        draw_process_detail_fullscreen(report, state, live.now, area)
    } else {
        draw_dashboard(report, state, live, area)
    }
}

// ---------------------------------------------------------------------------
// What holds of every screen
// ---------------------------------------------------------------------------

proof fn lemma_halves(area: Area, row: Area, halves: Seq<Area>)
    requires
        row.within(area),
        layout::divides(row, Direction::Horizontal, halves, 2),
    ensures
        halves[0].within(area),
        halves[1].within(area),
{
}

/// No panel of the dashboard reaches beyond the area that it was drawn on.
pub proof fn dashboards_stay_on_the_screen(
    state: StateView,
    report: ReportView,
    live: LiveView,
    area: Area,
    shown: Seq<PanelView>,
    rows: Seq<Area>,
    halves: Seq<Area>,
)
    requires
        state.dashboard_on(report, live, area, shown, rows, halves),
    ensures
        PanelView::all_within(shown, area),
{
    assert(rows.len() == 6 && halves.len() == 2);
    assert forall|i: int| 0 <= i < rows.len() implies (#[trigger] rows[i]).within(area) by {}
    lemma_halves(area, rows[5], halves);
    let board = seq![state.board_panel(report, rows[0])];
    let hint = if report.blames() {
        report.hint_panels(rows[1])
    } else {
        Seq::empty()
    };
    let middle = seq![
        state.details_panel(report, rows[2]),
        if report.quiet() {
            report.collapsed_panel(rows[3])
        } else {
            state.load_panel(report, rows[3])
        },
        state.actions_panel(report, live, rows[4]),
    ];
    let footer = state.footer_panels(live.now, halves[0], halves[1]);
    assert(PanelView::all_within(board, area));
    assert(PanelView::all_within(hint, area));
    assert(PanelView::all_within(middle, area));
    assert(PanelView::all_within(footer, area));
    assert(shown == board + hint + middle + footer);
}

/// No panel of the process detail reaches beyond the area that it was drawn on.
pub proof fn process_details_stay_on_the_screen(
    state: StateView,
    report: ReportView,
    now: u64,
    area: Area,
    shown: Seq<PanelView>,
    rows: Seq<Area>,
    halves: Seq<Area>,
)
    requires
        state.process_detail_on(report, now, area, shown, rows, halves),
    ensures
        PanelView::all_within(shown, area),
{
    assert(rows.len() == 2 && halves.len() == 2);
    assert(rows[0].within(area) && rows[1].within(area));
    lemma_halves(area, rows[1], halves);
    let footer = state.footer_panels(now, halves[0], halves[1]);
    assert(PanelView::all_within(footer, area));
    assert(PanelView::all_within(seq![state.process_panel(report, rows[0])], area));
}

/// Before the first report nothing reaches beyond the area either, where it has a
/// column.
pub proof fn splashes_stay_on_the_screen(area: Area)
    requires
        area.width > 0,
        area.x + 1 <= u16::MAX,
        area.y + panels::less((area.height / 2) as int, 3) <= u16::MAX,
    ensures
        PanelView::all_within(splash(area), area),
{
}

proof fn lemma_words()
    ensures
        vstd::utf8::is_ascii_chars("% used"@),
        vstd::utf8::is_ascii_chars(", "@),
        vstd::utf8::is_ascii_chars("load "@),
        vstd::utf8::is_ascii_chars(" on "@),
        vstd::utf8::is_ascii_chars(" cores: queue congested"@),
        vstd::utf8::is_ascii_chars(": slightly oversubscribed"@),
        vstd::utf8::is_ascii_chars("/"@),
        vstd::utf8::is_ascii_chars(" GB"@),
        vstd::utf8::is_ascii_chars("  swap: "@),
        vstd::utf8::is_ascii_chars(" (PAGING)"@),
        vstd::utf8::is_ascii_chars("R: "@),
        vstd::utf8::is_ascii_chars("  W: "@),
        vstd::utf8::is_ascii_chars("in: "@),
        vstd::utf8::is_ascii_chars("  out: "@),
        vstd::utf8::is_ascii_chars("  err: "@),
        vstd::utf8::is_ascii_chars("  drop: "@),
        vstd::utf8::is_ascii_chars(" GB/s"@),
        vstd::utf8::is_ascii_chars(" MB/s"@),
        vstd::utf8::is_ascii_chars(" KB/s"@),
        vstd::utf8::is_ascii_chars(" B/s"@),
        vstd::utf8::is_ascii_chars("inf"@),
{
    reveal_strlit("% used");
    reveal_strlit(", ");
    reveal_strlit("load ");
    reveal_strlit(" on ");
    reveal_strlit(" cores: queue congested");
    reveal_strlit(": slightly oversubscribed");
    reveal_strlit("/");
    reveal_strlit(" GB");
    reveal_strlit("  swap: ");
    reveal_strlit(" (PAGING)");
    reveal_strlit("R: ");
    reveal_strlit("  W: ");
    reveal_strlit("in: ");
    reveal_strlit("  out: ");
    reveal_strlit("  err: ");
    reveal_strlit("  drop: ");
    reveal_strlit(" GB/s");
    reveal_strlit(" MB/s");
    reveal_strlit(" KB/s");
    reveal_strlit(" B/s");
    reveal_strlit("inf");
}

proof fn lemma_dec(n: nat)
    ensures
        vstd::utf8::is_ascii_chars(decimal::dec(n)),
    decreases n,
{
    if n >= 10 {
        lemma_dec(n / 10);
    }
}

proof fn lemma_tenths(n: nat)
    ensures
        vstd::utf8::is_ascii_chars(decimal::tenths(n)),
{
    lemma_dec(n / 10);
    lemma_dec(n % 10);
}

proof fn lemma_numbers(x: Double)
    ensures
        vstd::utf8::is_ascii_chars(x.text0()),
        vstd::utf8::is_ascii_chars(x.text1()),
        vstd::utf8::is_ascii_chars(x.bps_text()),
{
    lemma_words();
    lemma_number(x);
    lemma_number(x.over(Double::of(diagnose::GIB as nat)));
    lemma_number(x.over(Double::of(diagnose::MIB as nat)));
    lemma_number(x.over(Double::of(diagnose::KIB as nat)));
}

proof fn lemma_number(x: Double)
    ensures
        vstd::utf8::is_ascii_chars(x.text0()),
        vstd::utf8::is_ascii_chars(x.text1()),
{
    lemma_words();
    lemma_dec(x.scaled(1));
    lemma_tenths(x.scaled(10));
}

proof fn lemma_details(m: MetricsView)
    ensures
        vstd::utf8::is_ascii_chars(m.cpu_detail()),
        vstd::utf8::is_ascii_chars(m.mem_detail()),
        vstd::utf8::is_ascii_chars(m.disk_detail()),
        vstd::utf8::is_ascii_chars(m.net_detail()),
{
    lemma_words();
    lemma_dec(m.cpu.usage_pct.scaled(1));
    lemma_dec(m.cpu.logical_cores as nat);
    lemma_dec(m.net.errors as nat);
    lemma_dec(m.net.drops as nat);
    lemma_numbers(m.cpu.load1);
    lemma_numbers(m.disk.read_bps);
    lemma_numbers(m.disk.write_bps);
    lemma_numbers(m.net.rx_bps);
    lemma_numbers(m.net.tx_bps);
    lemma_numbers(Double::gigabytes(m.mem.used));
    lemma_numbers(Double::gigabytes(m.mem.total));
    lemma_numbers(Double::gigabytes(m.mem.swap_used));
}

/// A text of ASCII characters can be cut anywhere.
proof fn lemma_cut_anywhere(s: Seq<char>, n: nat)
    requires
        vstd::utf8::is_ascii_chars(s),
        n <= s.len(),
    ensures
        widgets::cuttable(s, n),
        vstd::utf8::encode_utf8(s).len() == s.len(),
{
    let b = vstd::utf8::encode_utf8(s);
    vstd::utf8::is_ascii_chars_encode_utf8(s);
    vstd::utf8::encode_utf8_valid_utf8(s);
    if n < s.len() {
        vstd::utf8::is_char_boundary_iff_not_is_continuation_byte(b, n as int);
        assert(s[n as int] as u8 == b[n as int]);
    } else {
        vstd::utf8::is_char_boundary_start_end_of_seq(b);
    }
}

/// The load panel of a diagnosis can always be collapsed.
pub proof fn diagnoses_are_compact(m: MetricsView)
    ensures
        m.report().compact(),
{
    diagnose::culprits_are_ranked(m);
    lemma_details(m);
    let culprits = m.report().culprits;
    assert forall|i: int| 0 <= i < culprits.len() implies (#[trigger] culprits[i]).compact() by {
        assert(m.subsystems().contains(culprits[i]));
        let s = culprits[i].detail;
        assert(vstd::utf8::is_ascii_chars(s));
        if s.len() > 30 {
            lemma_cut_anywhere(s, 29);
        } else {
            lemma_cut_anywhere(s, 0);
        }
    }
}

/// The dashboard of a diagnosis can be drawn at any width, where the command line of
/// the target can be cut to it and it is known which of its processes can be reached.
pub proof fn diagnoses_can_be_drawn(m: MetricsView, state: StateView, live: LiveView, width: u16)
    requires
        state.target_of(m.report()) matches Some(e) ==> e.cmd_cuttable(width),
        live.answers(state.target_pids(m.report()).len()),
    ensures
        state.drawable(m.report(), live, width),
{
    diagnoses_are_compact(m);
    diagnose::culprits_are_ranked(m);
}

/// A command line of ASCII characters can be cut to any width.
pub proof fn plain_command_lines_fit(e: EntryView, width: u16)
    requires
        vstd::utf8::is_ascii_chars(e.cmd),
    ensures
        e.cmd_cuttable(width),
{
    lemma_cut_anywhere(e.cmd, 0);
    let room = EntryView::cmd_room(width);
    if e.cmd.len() > room {
        lemma_cut_anywhere(e.cmd, panels::less(room as int, 1));
    }
}

/// The dashboard shows the board, advice where its first program is to blame, the details,
/// the load in full or in short, the actions and the footer, each on its own row; the process
/// detail shows the program above the footer.
pub proof fn screens_show_their_panels(
    state: StateView,
    report: ReportView,
    live: LiveView,
    rows: Seq<Area>,
    halves: Seq<Area>,
)
    requires
        rows.len() == 6,
        halves.len() == 2,
    ensures
        ({
            let shown = state.dashboard(report, live, rows, halves);
            let stressed = exists|k: int|
                0 <= k < report.culprits.len() && (#[trigger] report.culprits[k]).score >= 40;
            let footer = state.footer_panels(live.now, halves[0], halves[1]);
            let n = shown.len() - footer.len();
            &&& n >= 4
            &&& shown.skip(n) == footer
            &&& shown[0] == state.board_panel(report, rows[0])
            &&& shown[n - 3] == state.details_panel(report, rows[2])
            &&& stressed ==> shown[n - 2] == state.load_panel(report, rows[3])
            &&& !stressed ==> shown[n - 2] == report.collapsed_panel(rows[3])
            &&& shown[n - 1] == state.actions_panel(report, live, rows[4])
            &&& report.blameboard.len() > 0 && report.blameboard[0].impact >= 40 ==> n == 5
                && shown.subrange(1, 2) == report.hint_panels(rows[1])
            &&& report.blameboard.len() == 0 || report.blameboard[0].impact < 40 ==> n == 4
        }),
        ({
            let shown = state.process_detail(report, live.now, rows, halves);
            let footer = state.footer_panels(live.now, halves[0], halves[1]);
            &&& shown[0] == state.process_panel(report, rows[0])
            &&& shown.skip(1) == footer
        }),
{
    let shown = state.dashboard(report, live, rows, halves);
    let footer = state.footer_panels(live.now, halves[0], halves[1]);
    let n = shown.len() - footer.len();
    let hint = if report.blames() {
        report.hint_panels(rows[1])
    } else {
        Seq::empty()
    };
    if report.blameboard.len() > 0 && report.blameboard[0].impact >= 40 {
        assert(report.blameboard[0].is_culprit());
        assert(hint.len() == 1);
        assert(shown[1] == hint[0]);
        assert(shown.subrange(1, 2) =~= hint);
    } else {
        assert(hint.len() == 0);
    }
    assert(shown.skip(n) =~= footer);
    let detail = state.process_detail(report, live.now, rows, halves);
    assert(detail.skip(1) =~= footer);
}

/// The dashboard asks for five rows at least for the board, one for advice where some
/// program is to blame, eleven for the details, three for a calm load panel and two more
/// than there are subsystems for another, three more than there are actions for those, and
/// one for the footer.
pub proof fn dashboards_ask_for_their_rows(report: ReportView, platform: Platform)
    requires
        report.culprits.len() < 65_000,
    ensures
        ({
            let asked = report.dashboard_split(platform);
            let stressed = exists|k: int|
                0 <= k < report.culprits.len() && (#[trigger] report.culprits[k]).score >= 40;
            let blamed = exists|k: int|
                0 <= k < report.blameboard.len() && (#[trigger] report.blameboard[k]).impact >= 40;
            &&& asked.len() == 6
            &&& asked[0] == Constraint::Min(5)
            &&& asked[1] == Constraint::Length(
                if blamed {
                    1
                } else {
                    0
                },
            )
            &&& asked[2] == Constraint::Length(11)
            &&& asked[3] == Constraint::Length(
                if stressed {
                    (report.culprits.len() + 2) as u16
                } else {
                    3
                },
            )
            &&& asked[4] == Constraint::Length(
                if platform == Platform::MacOs {
                    15
                } else {
                    13
                },
            )
            &&& asked[5] == Constraint::Length(1)
        }),
{
    let blamed = exists|k: int|
        0 <= k < report.blameboard.len() && (#[trigger] report.blameboard[k]).impact >= 40;
    assert(blamed == report.blames()) by {
        if blamed {
            let k = choose|k: int|
                0 <= k < report.blameboard.len() && (#[trigger] report.blameboard[k]).impact >= 40;
            assert(report.blameboard[k].is_culprit());
        }
    }
    assert(Action::listed(platform).len() == if platform == Platform::MacOs {
        12nat
    } else {
        10nat
    });
}

} // verus!
