//! The panels of the screen: what each says, and where it stands.
use crate::actions::{availability, Action, Availability, AvailabilityView, Platform};
use crate::blameboard::{BlameEntry, EntryView};
use crate::collect::ProcSample;
use crate::decimal;
use crate::diagnose;
use crate::diagnose::{Culprit, CulpritView, Report, ReportView};
use crate::float::Double;
use crate::layout::{Area, Constraint};
use crate::state::{History, HistoryView, StateView, UiState, ViewMode};
use crate::style::{Color, Line, LineView, Rgb, Span, SpanView, Style};
use crate::text;
use crate::widgets;
use crate::widgets::{Cell, CellView};
use vstd::prelude::*;

verus! {

/// What stands in a panel.
#[derive(Debug)]
pub enum Body {
    /// Nothing: the panel is a frame.
    Frame,
    /// Lines of text, those too long wrapped or cut.
    Text { lines: Vec<Line>, wrap: bool },
    /// A table. The selected row is bold and has the background `highlight`, where
    /// there is one.
    Table {
        header: Vec<Cell>,
        rows: Vec<Vec<Cell>>,
        widths: Vec<Constraint>,
        highlight: Option<Rgb>,
        selected: Option<usize>,
    },
}

/// What a `Body` says.
pub enum BodyView {
    Frame,
    Text { lines: Seq<LineView>, wrap: bool },
    Table {
        header: Seq<CellView>,
        rows: Seq<Seq<CellView>>,
        widths: Seq<Constraint>,
        highlight: Option<Rgb>,
        selected: Option<usize>,
    },
}

impl DeepView for Body {
    type V = BodyView;

    open spec fn deep_view(&self) -> BodyView {
        match *self {
            Body::Frame => BodyView::Frame,
            Body::Text { lines, wrap } => BodyView::Text { lines: lines.deep_view(), wrap },
            Body::Table { header, rows, widths, highlight, selected } => BodyView::Table {
                header: header.deep_view(),
                rows: rows.deep_view(),
                widths: widths@,
                highlight,
                selected,
            },
        }
    }
}

/// One part of the screen.
#[derive(Debug)]
pub struct Panel {
    pub area: Area,
    pub bordered: bool,
    pub title: Vec<Span>,
    pub body: Body,
}

/// What a `Panel` says.
pub struct PanelView {
    pub area: Area,
    pub bordered: bool,
    pub title: Seq<SpanView>,
    pub body: BodyView,
}

impl DeepView for Panel {
    type V = PanelView;

    open spec fn deep_view(&self) -> PanelView {
        PanelView {
            area: self.area,
            bordered: self.bordered,
            title: self.title.deep_view(),
            body: self.body.deep_view(),
        }
    }
}

impl PanelView {
    /// Nothing of these panels lies outside of the area.
    pub open spec fn all_within(panels: Seq<PanelView>, area: Area) -> bool {
        forall|i: int| 0 <= i < panels.len() ==> (#[trigger] panels[i]).area.within(area)
    }

    /// Lines in a frame with a title.
    pub open spec fn framed(area: Area, title: SpanView, lines: Seq<LineView>, wrap: bool) -> PanelView {
        PanelView {
            area,
            bordered: true,
            title: seq![title],
            body: BodyView::Text { lines, wrap },
        }
    }

    /// Lines without a frame.
    pub open spec fn bare(area: Area, lines: Seq<LineView>) -> PanelView {
        PanelView {
            area,
            bordered: false,
            title: Seq::empty(),
            body: BodyView::Text { lines, wrap: false },
        }
    }
}

impl Panel {
    pub(crate) fn framed(area: Area, title: Span, lines: Vec<Line>, wrap: bool) -> (r: Panel)
        ensures
            r.deep_view() == PanelView::framed(area, title.deep_view(), lines.deep_view(), wrap),
    {
        let ghost t = title.deep_view();
        let mut spans: Vec<Span> = Vec::new();
        spans.push(title);
        proof {
            assert(spans.deep_view() =~= seq![t]);
        }
        Panel { area, bordered: true, title: spans, body: Body::Text { lines, wrap } }
    }

    pub(crate) fn bare(area: Area, lines: Vec<Line>) -> (r: Panel)
        ensures
            r.deep_view() == PanelView::bare(area, lines.deep_view()),
    {
        let spans: Vec<Span> = Vec::new();
        proof {
            assert(spans.deep_view() =~= Seq::empty());
        }
        Panel { area, bordered: false, title: spans, body: Body::Text { lines, wrap: false } }
    }

    fn single(area: Area, line: Line) -> (r: Panel)
        ensures
            r.deep_view() == PanelView::bare(area, seq![line.deep_view()]),
    {
        let ghost l = line.deep_view();
        let mut lines: Vec<Line> = Vec::new();
        lines.push(line);
        proof {
            assert(lines.deep_view() =~= seq![l]);
        }
        Panel::bare(area, lines)
    }
}

// ---------------------------------------------------------------------------
// Without color
// ---------------------------------------------------------------------------

impl BodyView {
    /// The same body without colors.
    pub open spec fn uncolored(self) -> BodyView {
        match self {
            BodyView::Frame => BodyView::Frame,
            BodyView::Text { lines, wrap } => BodyView::Text {
                lines: lines.map_values(|l: LineView| l.uncolored()),
                wrap,
            },
            BodyView::Table { header, rows, widths, selected, .. } => BodyView::Table {
                header: CellView::all_uncolored(header),
                rows: rows.map_values(|row: Seq<CellView>| CellView::all_uncolored(row)),
                widths,
                highlight: None,
                selected,
            },
        }
    }
}

impl PanelView {
    /// The same panel without colors.
    pub open spec fn uncolored(self) -> PanelView {
        PanelView {
            title: SpanView::all_uncolored(self.title),
            body: self.body.uncolored(),
            ..self
        }
    }
}

fn colorless_lines(lines: &Vec<Line>) -> (r: Vec<Line>)
    ensures
        r.deep_view() == lines.deep_view().map_values(|l: LineView| l.uncolored()),
{
    let ghost wanted = lines.deep_view().map_values(|l: LineView| l.uncolored());
    let mut r: Vec<Line> = Vec::new();
    let mut i: usize = 0;
    while i < lines.len()
        invariant
            i <= lines@.len(),
            wanted == lines.deep_view().map_values(|l: LineView| l.uncolored()),
            r.deep_view() =~= wanted.take(i as int),
        decreases lines@.len() - i,
    {
        let ghost before = r.deep_view();
        let l = lines[i].colorless();
        let ghost lv = l.deep_view();
        r.push(l);
        proof {
            assert(lv == wanted[i as int]);
            assert(r.deep_view() =~= before.push(lv));
        }
        i = i + 1;
    }
    r
}

fn colorless_rows(rows: &Vec<Vec<Cell>>) -> (r: Vec<Vec<Cell>>)
    ensures
        r.deep_view() == rows.deep_view().map_values(
            |row: Seq<CellView>| CellView::all_uncolored(row),
        ),
{
    let ghost wanted = rows.deep_view().map_values(
        |row: Seq<CellView>| CellView::all_uncolored(row),
    );
    let mut r: Vec<Vec<Cell>> = Vec::new();
    let mut i: usize = 0;
    while i < rows.len()
        invariant
            i <= rows@.len(),
            wanted == rows.deep_view().map_values(
                |row: Seq<CellView>| CellView::all_uncolored(row),
            ),
            r.deep_view() =~= wanted.take(i as int),
        decreases rows@.len() - i,
    {
        let ghost before = r.deep_view();
        let row = widgets::colorless_cells(&rows[i]);
        let ghost rv = row.deep_view();
        r.push(row);
        proof {
            assert(rv == wanted[i as int]);
            assert(r.deep_view() =~= before.push(rv));
        }
        i = i + 1;
    }
    r
}

impl Panel {
    /// The same panel without colors.
    pub fn colorless(&self) -> (r: Panel)
        ensures
            r.deep_view() == self.deep_view().uncolored(),
    {
        let body = match &self.body {
            Body::Frame => Body::Frame,
            Body::Text { lines, wrap } => Body::Text { lines: colorless_lines(lines), wrap: *wrap },
            Body::Table { header, rows, widths, selected, .. } => Body::Table {
                header: widgets::colorless_cells(header),
                rows: colorless_rows(rows),
                widths: crate::collect::copy_all(widths),
                highlight: None,
                selected: *selected,
            },
        };
        Panel {
            area: self.area,
            bordered: self.bordered,
            title: crate::style::colorless_spans(&self.title),
            body,
        }
    }
}

/// The panels as they are shown to a user who wants no color, or who does.
pub fn colored(panels: Vec<Panel>, no_color: bool) -> (r: Vec<Panel>)
    ensures
        r.deep_view() == if no_color {
            panels.deep_view().map_values(|p: PanelView| p.uncolored())
        } else {
            panels.deep_view()
        },
{
    if !no_color {
        return panels;
    }
    let ghost wanted = panels.deep_view().map_values(|p: PanelView| p.uncolored());
    let mut r: Vec<Panel> = Vec::new();
    let mut i: usize = 0;
    while i < panels.len()
        invariant
            i <= panels@.len(),
            wanted == panels.deep_view().map_values(|p: PanelView| p.uncolored()),
            r.deep_view() =~= wanted.take(i as int),
        decreases panels@.len() - i,
    {
        let ghost before = r.deep_view();
        let p = panels[i].colorless();
        let ghost pv = p.deep_view();
        r.push(p);
        proof {
            assert(pv == wanted[i as int]);
            assert(r.deep_view() =~= before.push(pv));
        }
        i = i + 1;
    }
    r
}

/// The difference, or nothing where there is none.
pub open spec fn less(a: int, b: int) -> nat {
    if a > b {
        (a - b) as nat
    } else {
        0
    }
}

// ---------------------------------------------------------------------------
// Blameboard
// ---------------------------------------------------------------------------

/// The last entry of this name.
pub open spec fn last_named(board: Seq<EntryView>, name: Seq<char>) -> Option<EntryView>
    decreases board.len(),
{
    if board.len() == 0 {
        None
    } else if board.last().name == name {
        Some(board.last())
    } else {
        last_named(board.drop_last(), name)
    }
}

fn find_last<'a>(board: &'a Vec<BlameEntry>, name: &str) -> (r: Option<&'a BlameEntry>)
    ensures
        widgets::view_of(r) == last_named(board.deep_view(), name@),
{
    let ghost all = board.deep_view();
    let mut i: usize = board.len();
    assert(all.take(all.len() as int) =~= all);
    while i > 0
        invariant
            all == board.deep_view(),
            i <= board@.len(),
            last_named(all, name@) == last_named(all.take(i as int), name@),
        decreases i,
    {
        proof {
            assert(all.take(i as int).drop_last() =~= all.take(i - 1));
            assert(all.take(i as int).last() == board@[i - 1].deep_view());
        }
        if text::same(board[i - 1].name.as_str(), name) {
            return Some(&board[i - 1]);
        }
        i = i - 1;
    }
    None
}

/// The title of the board sorted by `basis`, which is `lower` in small letters.
pub open spec fn basis_title(basis: Seq<char>, lower: Seq<char>) -> Seq<char> {
    if basis == "IMPACT"@ {
        " BLAMEBOARD — who is making your computer slow "@
    } else if basis == "CPU"@ {
        " BLAMEBOARD — sorted by CPU usage (the bottleneck) "@
    } else if basis == "MEMORY"@ {
        " BLAMEBOARD — sorted by memory use (the bottleneck) "@
    } else if basis == "DISK"@ {
        " BLAMEBOARD — sorted by disk I/O (the bottleneck) "@
    } else {
        " BLAMEBOARD — sorted by "@ + lower + " "@
    }
}

/// The title of the board sorted by `basis`, which is `lower` in small letters.
pub fn title_for(basis: &str, lower: &str) -> (r: String)
    ensures
        r@ == basis_title(basis@, lower@),
{
    if text::same(basis, "IMPACT") {
        " BLAMEBOARD — who is making your computer slow ".to_owned()
    } else if text::same(basis, "CPU") {
        " BLAMEBOARD — sorted by CPU usage (the bottleneck) ".to_owned()
    } else if text::same(basis, "MEMORY") {
        " BLAMEBOARD — sorted by memory use (the bottleneck) ".to_owned()
    } else if text::same(basis, "DISK") {
        " BLAMEBOARD — sorted by disk I/O (the bottleneck) ".to_owned()
    } else {
        let mut s = " BLAMEBOARD — sorted by ".to_owned();
        s.append(lower);
        s.append(" ");
        s
    }
}

pub open spec fn board_header() -> Seq<CellView> {
    seq![
        CellView::of(" # "@, Style::heading_spec()),
        CellView::of("Process"@, Style::heading_spec()),
        CellView::of("Why"@, Style::heading_spec()),
        CellView::of(" CPU%"@, Style::heading_spec()),
        CellView::of("  Memory"@, Style::heading_spec()),
        CellView::of("  Disk"@, Style::heading_spec()),
        CellView::of("Trend"@, Style::heading_spec()),
    ]
}

fn header_row() -> (r: Vec<Cell>)
    ensures
        r.deep_view() == board_header(),
{
    let s = Style::heading();
    let mut cells: Vec<Cell> = Vec::new();
    cells.push(Cell::of(" # ", s));
    cells.push(Cell::of("Process", s));
    cells.push(Cell::of("Why", s));
    cells.push(Cell::of(" CPU%", s));
    cells.push(Cell::of("  Memory", s));
    cells.push(Cell::of("  Disk", s));
    cells.push(Cell::of("Trend", s));
    proof {
        assert(cells.deep_view() =~= board_header());
    }
    cells
}

pub open spec fn board_widths() -> Seq<Constraint> {
    seq![
        Constraint::Length(4),
        Constraint::Length(24),
        Constraint::Length(10),
        Constraint::Length(13),
        Constraint::Length(18),
        Constraint::Length(11),
        Constraint::Fill(1),
    ]
}

fn column_widths() -> (r: Vec<Constraint>)
    ensures
        r@ == board_widths(),
{
    let mut w: Vec<Constraint> = Vec::new();
    w.push(Constraint::Length(4));
    w.push(Constraint::Length(24));
    w.push(Constraint::Length(10));
    w.push(Constraint::Length(13));
    w.push(Constraint::Length(18));
    w.push(Constraint::Length(11));
    w.push(Constraint::Fill(1));
    proof {
        assert(w@ =~= board_widths());
    }
    w
}

impl ReportView {
    /// How many entries have room in this height.
    pub open spec fn rows_in(self, height: u16) -> nat {
        let room = less(height as int, 3);
        let most = if room < 10 {
            room
        } else {
            10
        };
        if self.blameboard.len() < most {
            self.blameboard.len()
        } else {
            most
        }
    }
}

impl StateView {
    /// The board of the report before this one.
    pub open spec fn prev_board(self) -> Seq<EntryView> {
        match self.prev_report {
            Some(r) => r.blameboard,
            None => Seq::empty(),
        }
    }

    pub open spec fn board_row(self, report: ReportView, i: int) -> Seq<CellView> {
        let e = report.blameboard[i];
        e.cells(
            (i + 1) as nat,
            last_named(self.prev_board(), e.name),
            HistoryView::scores_of(self.impact_history, e.name),
            report.total_mem,
            text::uppercase(e.why),
        )
    }

    /// The Blameboard.
    pub open spec fn board_panel(self, report: ReportView, area: Area) -> PanelView {
        let visible = report.rows_in(area.height);
        PanelView {
            area,
            bordered: true,
            title: seq![
                SpanView::of(
                    basis_title(report.sort_basis, text::lowercase(report.sort_basis)),
                    Style::strong(Color::White),
                ),
            ],
            body: BodyView::Table {
                header: board_header(),
                rows: Seq::new(visible, |i: int| self.board_row(report, i)),
                widths: board_widths(),
                highlight: Some(Rgb { red: 50, green: 50, blue: 80 }),
                selected: if visible > 0 {
                    Some(self.row(report.blameboard, visible) as usize)
                } else {
                    None
                },
            },
        }
    }
}

fn visible_rows(report: &Report, height: u16) -> (r: usize)
    ensures
        r == report.deep_view().rows_in(height),
        r <= report.blameboard@.len(),
{
    let room: usize = if height > 3 {
        (height - 3) as usize
    } else {
        0
    };
    let most: usize = if room < 10 {
        room
    } else {
        10
    };
    if report.blameboard.len() < most {
        report.blameboard.len()
    } else {
        most
    }
}

fn previous_entry<'a>(state: &'a UiState, name: &str) -> (r: Option<&'a BlameEntry>)
    ensures
        widgets::view_of(r) == last_named(state.deep_view().prev_board(), name@),
{
    match &state.prev_report {
        Some(p) => find_last(&p.blameboard, name),
        None => None,
    }
}

/// The Blameboard.
pub fn draw_blameboard(report: &Report, state: &UiState, area: Area) -> (r: Panel)
    ensures
        r.deep_view() == state.deep_view().board_panel(report.deep_view(), area),
{
    let ghost sv = state.deep_view();
    let ghost rv = report.deep_view();
    let visible = visible_rows(report, area.height);
    let mut rows: Vec<Vec<Cell>> = Vec::new();
    let mut i: usize = 0;
    while i < visible
        invariant
            i <= visible <= report.blameboard@.len(),
            sv == state.deep_view(),
            rv == report.deep_view(),
            rows@.len() == i,
            forall|k: int| 0 <= k < i ==> rows.deep_view()[k] == #[trigger] sv.board_row(rv, k),
        decreases visible - i,
    {
        let e = &report.blameboard[i];
        let prev = previous_entry(state, e.name.as_str());
        let history = History::scores(&state.impact_history, e.name.as_str());
        let row = widgets::blame_entry_row(i + 1, e, prev, &history, report.total_mem);
        let ghost before = rows.deep_view();
        let ghost new = row.deep_view();
        proof {
            assert(rv.blameboard[i as int] == e.deep_view());
            assert(new == sv.board_row(rv, i as int));
        }
        rows.push(row);
        proof {
            assert(rows.deep_view() =~= before.push(new));
        }
        i = i + 1;
    }
    proof {
        assert(rows.deep_view() =~= Seq::new(visible as nat, |k: int| sv.board_row(rv, k)));
    }
    let lower: String = report.sort_basis.to_lowercase();
    let mut title: Vec<Span> = Vec::new();
    title.push(
        Span::styled(title_for(report.sort_basis, lower.as_str()), Style::bold(Color::White)),
    );
    let selected: Option<usize> = if visible > 0 {
        Some(state.selected_row(report, visible))
    } else {
        None
    };
    proof {
        assert(title.deep_view() =~= sv.board_panel(rv, area).title);
    }
    Panel {
        area,
        bordered: true,
        title,
        body: Body::Table {
            header: header_row(),
            rows,
            widths: column_widths(),
            highlight: Some(Rgb { red: 50, green: 50, blue: 80 }),
            selected,
        },
    }
}

// ---------------------------------------------------------------------------
// Action hint: a single line under the Blameboard with actionable advice
// ---------------------------------------------------------------------------

impl ReportView {
    /// The advice on the first entry, where that is a culprit.
    pub open spec fn hint_panels(self, area: Area) -> Seq<PanelView> {
        if self.blameboard.len() > 0 && self.blameboard[0].is_culprit() {
            let e = self.blameboard[0];
            seq![
                PanelView::bare(
                    area,
                    seq![
                        LineView::of(
                            seq![
                                SpanView::of("  → "@, Style::strong(Color::Yellow)),
                                SpanView::of(
                                    e.advice(self.total_mem, text::uppercase(e.why)),
                                    Style::of(Color::White),
                                ),
                            ],
                        ),
                    ],
                ),
            ]
        } else {
            Seq::empty()
        }
    }
}

/// The advice on the first entry, where that is a culprit.
pub fn draw_action_hint(report: &Report, area: Area) -> (r: Option<Panel>)
    ensures
        match r {
            Some(p) => seq![p.deep_view()],
            None => Seq::empty(),
        } == report.deep_view().hint_panels(area),
{
    if report.blameboard.len() > 0 && report.blameboard[0].impact >= 40 {
        let hint = widgets::build_action_hint(&report.blameboard[0], report.total_mem);
        let ghost h = hint@;
        let mut spans: Vec<Span> = Vec::new();
        spans.push(Span::fixed("  → ", Style::bold(Color::Yellow)));
        spans.push(Span::styled(hint, Style::fg(Color::White)));
        proof {
            assert(spans.deep_view() =~= seq![
                SpanView::of("  → "@, Style::strong(Color::Yellow)),
                SpanView::of(h, Style::of(Color::White)),
            ]);
        }
        Some(Panel::single(area, Line::of(spans)))
    } else {
        None
    }
}

// ---------------------------------------------------------------------------
// Details
// ---------------------------------------------------------------------------

/// The ending of "process" after this number.
pub open spec fn es(n: usize) -> Seq<char> {
    if n == 1 {
        ""@
    } else {
        "es"@
    }
}

fn es_ending(n: usize) -> (r: &'static str)
    ensures
        r@ == es(n),
{
    if n == 1 {
        ""
    } else {
        "es"
    }
}

/// A rate worth telling, or what stands for a lower one.
pub open spec fn rate_or(bps: Double, idle: Seq<char>) -> Seq<char> {
    if bps.ge(Double::of(1024)) {
        bps.bps_text()
    } else {
        idle
    }
}

fn rate_text(bps: Double, idle: &str) -> (r: String)
    ensures
        r@ == rate_or(bps, idle@),
{
    if bps.at_least(Double::from_int(1024)) {
        diagnose::fmt_bps(bps)
    } else {
        idle.to_owned()
    }
}

/// The line of one process, its number `pid_width` wide.
pub open spec fn sample_line(s: ProcSample, pid_width: nat) -> LineView {
    LineView::of(
        seq![
            SpanView::of(
                "    "@ + text::right(decimal::dec(s.pid as nat), pid_width),
                Style::of(Color::DarkGray),
            ),
            SpanView::raw("   "@),
            SpanView::of(text::right(Double::bytes_text(s.mem), 9), Style::of(Color::Magenta)),
            SpanView::raw("   "@),
            SpanView::of(text::right(s.cpu.text1(), 5) + "% CPU"@, Style::of(Color::Cyan)),
            SpanView::raw("   "@),
            SpanView::of(rate_or(s.disk_bps, ""@), Style::of(Color::Yellow)),
        ],
    )
}

fn line_of_sample(s: ProcSample, pid_width: usize) -> (r: Line)
    ensures
        r.deep_view() == sample_line(s, pid_width as nat),
{
    let mut pid = "    ".to_owned();
    pid.append(text::pad_left(decimal::decimal(s.pid as u64).as_str(), pid_width).as_str());
    let mut cpu = text::pad_left(s.cpu.fixed1().as_str(), 5);
    cpu.append("% CPU");
    let mut spans: Vec<Span> = Vec::new();
    spans.push(Span::styled(pid, Style::fg(Color::DarkGray)));
    spans.push(Span::raw("   "));
    spans.push(
        Span::styled(
            text::pad_left(diagnose::fmt_bytes(s.mem).as_str(), 9),
            Style::fg(Color::Magenta),
        ),
    );
    spans.push(Span::raw("   "));
    spans.push(Span::styled(cpu, Style::fg(Color::Cyan)));
    spans.push(Span::raw("   "));
    spans.push(Span::styled(rate_text(s.disk_bps, ""), Style::fg(Color::Yellow)));
    proof {
        assert(spans.deep_view() =~= sample_line(s, pid_width as nat).spans);
    }
    Line::of(spans)
}

pub open spec fn sample_lines(samples: Seq<ProcSample>, pid_width: nat) -> Seq<LineView> {
    samples.map_values(|s: ProcSample| sample_line(s, pid_width))
}

/// Adds the lines of the first `n` processes.
fn push_samples(lines: &mut Vec<Line>, samples: &Vec<ProcSample>, n: usize, pid_width: usize)
    requires
        n <= samples@.len(),
    ensures
        final(lines).deep_view() == old(lines).deep_view() + sample_lines(
            samples@.take(n as int),
            pid_width as nat,
        ),
{
    let ghost start = lines.deep_view();
    let mut i: usize = 0;
    proof {
        assert(lines.deep_view() =~= start + sample_lines(samples@.take(0), pid_width as nat));
    }
    while i < n
        invariant
            i <= n <= samples@.len(),
            lines.deep_view() == start + sample_lines(samples@.take(i as int), pid_width as nat),
        decreases n - i,
    {
        let ghost before = lines.deep_view();
        let l = line_of_sample(samples[i], pid_width);
        let ghost lv = l.deep_view();
        lines.push(l);
        proof {
            assert(lines.deep_view() =~= before.push(lv));
            assert(lines.deep_view() =~= start + sample_lines(
                samples@.take(i + 1),
                pid_width as nat,
            ));
        }
        i = i + 1;
    }
}

impl EntryView {
    /// The memory in use, and its part of the whole.
    pub open spec fn mem_text(self, total: u64) -> Seq<char> {
        Double::bytes_text(self.mem) + " ("@ + widgets::mem_share(self.mem, total).text1() + "% of "@
            + Double::bytes_text(total) + ")"@
    }

    pub open spec fn process_count(self) -> Seq<char> {
        decimal::dec(self.count as nat) + " process"@ + es(self.count)
    }

    /// How many bytes of the command line have room in a panel of this width.
    pub open spec fn cmd_room(width: u16) -> nat {
        less(less(width as int, 4) as int, 8)
    }

    /// The command line can be cut to the room in a panel of this width.
    pub open spec fn cmd_cuttable(self, width: u16) -> bool {
        vstd::utf8::encode_utf8(self.cmd).len() > EntryView::cmd_room(width) ==> widgets::cuttable(
            self.cmd,
            less(EntryView::cmd_room(width) as int, 1),
        )
    }

    /// The command line, cut to the room in a panel of this width.
    pub open spec fn cmd_text(self, width: u16) -> Seq<char> {
        if self.cmd.len() == 0 {
            "(no command line available)"@
        } else {
            widgets::shortened(
                self.cmd,
                EntryView::cmd_room(width),
                less(EntryView::cmd_room(width) as int, 1),
            )
        }
    }

    pub open spec fn summary_line(self, total_mem: u64) -> LineView {
        LineView::of(
            seq![
                SpanView::raw("  "@),
                SpanView::of(self.process_count(), Style::strong(Color::White)),
                SpanView::raw("   "@),
                SpanView::of("RAM: "@, Style::of(Color::DarkGray)),
                SpanView::of(self.mem_text(total_mem), Style::strong(Color::Magenta)),
                SpanView::raw("   "@),
                SpanView::of("CPU: "@, Style::of(Color::DarkGray)),
                SpanView::of(self.cpu.text1() + "%"@, Style::strong(Color::Cyan)),
                SpanView::raw("   "@),
                SpanView::of("Disk: "@, Style::of(Color::DarkGray)),
                SpanView::of(rate_or(self.disk_bps, "idle"@), Style::of(Color::Yellow)),
                SpanView::raw("   "@),
                SpanView::of("Up: "@, Style::of(Color::DarkGray)),
                SpanView::of(widgets::uptime(self.max_uptime_secs), Style::of(Color::Yellow)),
            ],
        )
    }

    /// How many processes are listed in the details.
    pub open spec fn shown(self) -> nat {
        if self.samples.len() < 5 {
            self.samples.len()
        } else {
            5
        }
    }

    pub open spec fn detail_head(self, total_mem: u64, width: u16) -> Seq<LineView> {
        seq![
            self.summary_line(total_mem),
            LineView::of(
                seq![
                    SpanView::of("  cmd:  "@, Style::of(Color::DarkGray)),
                    SpanView::of(self.cmd_text(width), Style::of(Color::Gray)),
                ],
            ),
            LineView::blank(),
            LineView::of(seq![SpanView::of("  TOP PIDS BY MEMORY"@, Style::section_spec())]),
        ]
    }

    pub open spec fn detail_lines(self, total_mem: u64, width: u16) -> Seq<LineView> {
        let listed = self.detail_head(total_mem, width) + sample_lines(
            self.samples.take(self.shown() as int),
            7,
        );
        if self.count > self.shown() {
            listed.push(
                LineView::of(
                    seq![
                        SpanView::of(
                            "    … and "@ + decimal::dec((self.count - self.shown()) as nat)
                                + " more process(es) — press Enter to expand"@,
                            Style::of(Color::DarkGray),
                        ),
                    ],
                ),
            )
        } else {
            listed
        }
    }
}

fn mem_text(e: &BlameEntry, total: u64) -> (r: String)
    ensures
        r@ == e.deep_view().mem_text(total),
{
    let mut s = diagnose::fmt_bytes(e.mem);
    s.append(" (");
    s.append(widgets::memory_share(e.mem, total).fixed1().as_str());
    s.append("% of ");
    s.append(diagnose::fmt_bytes(total).as_str());
    s.append(")");
    s
}

fn process_count(e: &BlameEntry) -> (r: String)
    ensures
        r@ == e.deep_view().process_count(),
{
    let mut s = decimal::decimal(e.count as u64);
    s.append(" process");
    s.append(es_ending(e.count));
    s
}

fn room_for_cmd(width: u16) -> (r: (usize, usize))
    ensures
        r.0 == EntryView::cmd_room(width),
        r.1 == less(EntryView::cmd_room(width) as int, 1),
{
    let room: usize = if width > 12 {
        (width - 12) as usize
    } else {
        0
    };
    let keep: usize = if room > 1 {
        room - 1
    } else {
        0
    };
    (room, keep)
}

/// Whether the command line can be cut to the room in a panel of this width.
pub(crate) fn can_cut_cmd(e: &BlameEntry, width: u16) -> (r: bool)
    ensures
        r == e.deep_view().cmd_cuttable(width),
{
    let (room, keep) = room_for_cmd(width);
    widgets::can_shorten(e.cmd.as_str(), room, keep)
}

fn cmd_text(e: &BlameEntry, width: u16) -> (r: String)
    requires
        e.deep_view().cmd_cuttable(width),
    ensures
        r@ == e.deep_view().cmd_text(width),
{
    if e.cmd.as_str().unicode_len() == 0 {
        "(no command line available)".to_owned()
    } else {
        let (room, keep) = room_for_cmd(width);
        widgets::shorten(e.cmd.as_str(), room, keep)
    }
}

fn summary_line(e: &BlameEntry, total_mem: u64) -> (r: Line)
    ensures
        r.deep_view() == e.deep_view().summary_line(total_mem),
{
    let mut spans: Vec<Span> = Vec::new();
    spans.push(Span::raw("  "));
    spans.push(Span::styled(process_count(e), Style::bold(Color::White)));
    spans.push(Span::raw("   "));
    spans.push(Span::fixed("RAM: ", Style::fg(Color::DarkGray)));
    spans.push(Span::styled(mem_text(e, total_mem), Style::bold(Color::Magenta)));
    spans.push(Span::raw("   "));
    spans.push(Span::fixed("CPU: ", Style::fg(Color::DarkGray)));
    spans.push(Span::styled(e.cpu.fixed1().concat("%"), Style::bold(Color::Cyan)));
    spans.push(Span::raw("   "));
    spans.push(Span::fixed("Disk: ", Style::fg(Color::DarkGray)));
    spans.push(Span::styled(rate_text(e.disk_bps, "idle"), Style::fg(Color::Yellow)));
    spans.push(Span::raw("   "));
    spans.push(Span::fixed("Up: ", Style::fg(Color::DarkGray)));
    spans.push(Span::styled(widgets::fmt_uptime(e.max_uptime_secs), Style::fg(Color::Yellow)));
    proof {
        assert(spans.deep_view() =~= e.deep_view().summary_line(total_mem).spans);
    }
    Line::of(spans)
}

/// A line of a label and what it names.
fn pair_line(label: &str, value: String, style: Style) -> (r: Line)
    ensures
        r.deep_view() == LineView::of(
            seq![
                SpanView::of(label@, Style::of(Color::DarkGray)),
                SpanView::of(value@, style),
            ],
        ),
{
    let ghost v = value@;
    let mut spans: Vec<Span> = Vec::new();
    spans.push(Span::fixed(label, Style::fg(Color::DarkGray)));
    spans.push(Span::styled(value, style));
    proof {
        assert(spans.deep_view() =~= seq![
            SpanView::of(label@, Style::of(Color::DarkGray)),
            SpanView::of(v, style),
        ]);
    }
    Line::of(spans)
}

fn detail_lines(e: &BlameEntry, total_mem: u64, width: u16) -> (r: Vec<Line>)
    requires
        e.deep_view().cmd_cuttable(width),
    ensures
        r.deep_view() == e.deep_view().detail_lines(total_mem, width),
{
    let mut lines: Vec<Line> = Vec::new();
    lines.push(summary_line(e, total_mem));
    lines.push(pair_line("  cmd:  ", cmd_text(e, width), Style::fg(Color::Gray)));
    lines.push(Line::blank());
    lines.push(Line::single(Span::fixed("  TOP PIDS BY MEMORY", Style::section())));
    proof {
        assert(lines.deep_view() =~= e.deep_view().detail_head(total_mem, width));
    }
    let shown: usize = if e.samples.len() < 5 {
        e.samples.len()
    } else {
        5
    };
    push_samples(&mut lines, &e.samples, shown, 7);
    if e.count > shown {
        let mut s = "    … and ".to_owned();
        s.append(decimal::decimal((e.count - shown) as u64).as_str());
        s.append(" more process(es) — press Enter to expand");
        lines.push(Line::single(Span::styled(s, Style::fg(Color::DarkGray))));
    }
    proof {
        assert(lines.deep_view() =~= e.deep_view().detail_lines(total_mem, width));
    }
    lines
}

impl StateView {
    /// The entry that actions and details are about.
    pub open spec fn target_of(self, report: ReportView) -> Option<EntryView> {
        match self.target(report.blameboard) {
            Some(i) => Some(report.blameboard[i]),
            None => None,
        }
    }

    /// The details of the target.
    pub open spec fn details_panel(self, report: ReportView, area: Area) -> PanelView {
        match self.target_of(report) {
            Some(e) => PanelView::framed(
                area,
                SpanView::of(" DETAILS: "@ + e.name + " "@, Style::strong(Color::White)),
                e.detail_lines(report.total_mem, area.width),
                false,
            ),
            None => PanelView::framed(
                area,
                SpanView::of(" DETAILS "@, Style::strong(Color::White)),
                seq![
                    LineView::of(
                        seq![
                            SpanView::of("  No process selected"@, Style::of(Color::DarkGray)),
                        ],
                    ),
                ],
                false,
            ),
        }
    }
}

/// The details of the target.
pub fn draw_details(report: &Report, state: &UiState, area: Area) -> (r: Panel)
    requires
        state.deep_view().target_of(report.deep_view()) matches Some(e) ==> e.cmd_cuttable(
            area.width,
        ),
    ensures
        r.deep_view() == state.deep_view().details_panel(report.deep_view(), area),
{
    match state.target_entry(report) {
        Some(i) => {
            let e = &report.blameboard[i];
            assert(report.deep_view().blameboard[i as int] == e.deep_view());
            let lines = detail_lines(e, report.total_mem, area.width);
            let mut title = " DETAILS: ".to_owned();
            title.append(e.name.as_str());
            title.append(" ");
            Panel::framed(area, Span::styled(title, Style::bold(Color::White)), lines, false)
        },
        None => {
            let mut lines: Vec<Line> = Vec::new();
            lines.push(
                Line::single(Span::fixed("  No process selected", Style::fg(Color::DarkGray))),
            );
            proof {
                assert(lines.deep_view() =~= seq![
                    LineView::of(
                        seq![
                            SpanView::of("  No process selected"@, Style::of(Color::DarkGray)),
                        ],
                    ),
                ]);
            }
            Panel::framed(area, Span::fixed(" DETAILS ", Style::bold(Color::White)), lines, false)
        },
    }
}

// ---------------------------------------------------------------------------
// Process detail
// ---------------------------------------------------------------------------

pub open spec fn pair(label: Seq<char>, value: Seq<char>, style: Style) -> LineView {
    LineView::of(
        seq![SpanView::of(label, Style::of(Color::DarkGray)), SpanView::of(value, style)],
    )
}

impl EntryView {
    pub open spec fn full_head(self, total_mem: u64, upper: Seq<char>) -> Seq<LineView> {
        seq![
            LineView::of(
                seq![
                    SpanView::of("  "@ + self.name + " "@, Style::strong(Color::White)),
                    SpanView::of("("@ + self.process_count() + ")"@, Style::of(Color::Gray)),
                ],
            ),
            LineView::blank(),
            pair("  Total RAM:    "@, self.mem_text(total_mem), Style::strong(Color::Magenta)),
            pair("  Total CPU:    "@, self.cpu.text1() + "%"@, Style::strong(Color::Cyan)),
            pair("  Disk I/O:     "@, rate_or(self.disk_bps, "idle"@), Style::of(Color::Yellow)),
            pair(
                "  Oldest PID:   "@,
                widgets::uptime(self.max_uptime_secs),
                Style::of(Color::Yellow),
            ),
            pair("  Why:          "@, upper, Style::strong(Color::White)),
            LineView::blank(),
            LineView::of(seq![SpanView::of("  COMMAND LINE"@, Style::section_spec())]),
            LineView::of(
                seq![
                    SpanView::of(
                        "    "@ + if self.cmd.len() == 0 {
                            "(unavailable)"@
                        } else {
                            self.cmd
                        },
                        Style::of(Color::Gray),
                    ),
                ],
            ),
            LineView::blank(),
            LineView::of(seq![SpanView::of("  ALL PIDS"@, Style::section_spec())]),
        ]
    }

    /// Everything about an entry, whose guilt is `upper` in capitals.
    pub open spec fn full_lines(self, total_mem: u64, upper: Seq<char>) -> Seq<LineView> {
        let listed = self.full_head(total_mem, upper) + sample_lines(self.samples, 8);
        if self.count > self.samples.len() {
            listed.push(
                LineView::of(
                    seq![
                        SpanView::of(
                            "    … "@ + decimal::dec((self.count - self.samples.len()) as nat)
                                + " additional PIDs not sampled"@,
                            Style::of(Color::DarkGray),
                        ),
                    ],
                ),
            )
        } else {
            listed
        }
    }
}

fn full_head(e: &BlameEntry, total_mem: u64, upper: &str) -> (r: Vec<Line>)
    ensures
        r.deep_view() == e.deep_view().full_head(total_mem, upper@),
{
    let mut name = "  ".to_owned();
    name.append(e.name.as_str());
    name.append(" ");
    let mut count = "(".to_owned();
    count.append(process_count(e).as_str());
    count.append(")");
    let mut first: Vec<Span> = Vec::new();
    first.push(Span::styled(name, Style::bold(Color::White)));
    first.push(Span::styled(count, Style::fg(Color::Gray)));
    proof {
        assert(first.deep_view() =~= e.deep_view().full_head(total_mem, upper@)[0].spans);
    }
    let mut cmd = "    ".to_owned();
    if e.cmd.as_str().unicode_len() == 0 {
        cmd.append("(unavailable)");
    } else {
        cmd.append(e.cmd.as_str());
    }
    let mut lines: Vec<Line> = Vec::new();
    lines.push(Line::of(first));
    lines.push(Line::blank());
    lines.push(
        pair_line("  Total RAM:    ", mem_text(e, total_mem), Style::bold(Color::Magenta)),
    );
    lines.push(
        pair_line("  Total CPU:    ", e.cpu.fixed1().concat("%"), Style::bold(Color::Cyan)),
    );
    lines.push(
        pair_line("  Disk I/O:     ", rate_text(e.disk_bps, "idle"), Style::fg(Color::Yellow)),
    );
    lines.push(
        pair_line(
            "  Oldest PID:   ",
            widgets::fmt_uptime(e.max_uptime_secs),
            Style::fg(Color::Yellow),
        ),
    );
    lines.push(pair_line("  Why:          ", upper.to_owned(), Style::bold(Color::White)));
    lines.push(Line::blank());
    lines.push(Line::single(Span::fixed("  COMMAND LINE", Style::section())));
    lines.push(Line::single(Span::styled(cmd, Style::fg(Color::Gray))));
    lines.push(Line::blank());
    lines.push(Line::single(Span::fixed("  ALL PIDS", Style::section())));
    proof {
        assert(lines.deep_view() =~= e.deep_view().full_head(total_mem, upper@));
    }
    lines
}

/// Everything about an entry, whose guilt is `upper` in capitals.
pub fn process_lines(e: &BlameEntry, total_mem: u64, upper: &str) -> (r: Vec<Line>)
    ensures
        r.deep_view() == e.deep_view().full_lines(total_mem, upper@),
{
    let ghost head = e.deep_view().full_head(total_mem, upper@);
    let mut lines = full_head(e, total_mem, upper);
    push_samples(&mut lines, &e.samples, e.samples.len(), 8);
    proof {
        assert(e.samples@.take(e.samples@.len() as int) =~= e.samples@);
    }
    if e.count > e.samples.len() {
        let mut s = "    … ".to_owned();
        s.append(decimal::decimal((e.count - e.samples.len()) as u64).as_str());
        s.append(" additional PIDs not sampled");
        lines.push(Line::single(Span::styled(s, Style::fg(Color::DarkGray))));
    }
    proof {
        assert(lines.deep_view() =~= e.deep_view().full_lines(total_mem, upper@));
    }
    lines
}

impl StateView {
    /// Everything about the selected entry.
    pub open spec fn process_panel(self, report: ReportView, area: Area) -> PanelView {
        match self.selected(report.blameboard) {
            Some(i) => {
                let e = report.blameboard[i];
                PanelView::framed(
                    area,
                    SpanView::of(
                        " PROCESS DETAIL: "@ + e.name + "  (Esc / Enter to return) "@,
                        Style::strong(Color::White),
                    ),
                    e.full_lines(report.total_mem, text::uppercase(e.why)),
                    true,
                )
            },
            None => PanelView::framed(
                area,
                SpanView::of(" PROCESS DETAIL "@, Style::strong(Color::White)),
                seq![LineView::of(seq![SpanView::raw("  No process selected"@)])],
                true,
            ),
        }
    }
}

/// Everything about the selected entry.
pub fn draw_process(report: &Report, state: &UiState, area: Area) -> (r: Panel)
    ensures
        r.deep_view() == state.deep_view().process_panel(report.deep_view(), area),
{
    match state.selected_entry(report) {
        Some(i) => {
            let e = &report.blameboard[i];
            assert(report.deep_view().blameboard[i as int] == e.deep_view());
            let upper: String = e.why.to_uppercase();
            let lines = process_lines(e, report.total_mem, upper.as_str());
            let mut title = " PROCESS DETAIL: ".to_owned();
            title.append(e.name.as_str());
            title.append("  (Esc / Enter to return) ");
            Panel::framed(area, Span::styled(title, Style::bold(Color::White)), lines, true)
        },
        None => {
            let mut lines: Vec<Line> = Vec::new();
            lines.push(Line::single(Span::raw("  No process selected")));
            proof {
                assert(lines.deep_view() =~= seq![
                    LineView::of(seq![SpanView::raw("  No process selected"@)]),
                ]);
            }
            Panel::framed(
                area,
                Span::fixed(" PROCESS DETAIL ", Style::bold(Color::White)),
                lines,
                true,
            )
        },
    }
}

// ---------------------------------------------------------------------------
// System load, in full and collapsed
// ---------------------------------------------------------------------------

/// How wide the bars are in a panel of this width.
pub open spec fn bar_width(width: u16) -> nat {
    let room = less(width as int, 48);
    if room < 8 {
        8
    } else if room > 40 {
        40
    } else {
        room
    }
}

impl StateView {
    pub open spec fn load_lines(self, culprits: Seq<CulpritView>, width: u16) -> Seq<LineView> {
        culprits.map_values(
            |c: CulpritView|
                c.load_line(bar_width(width), HistoryView::scores_of(self.load_history, c.label)),
        )
    }

    /// The load of each subsystem.
    pub open spec fn load_panel(self, report: ReportView, area: Area) -> PanelView {
        PanelView::framed(
            area,
            SpanView::of(" SYSTEM LOAD "@, Style::emphasis_spec()),
            self.load_lines(report.culprits, area.width),
            false,
        )
    }
}

/// The load of each subsystem.
pub fn draw_system_load(report: &Report, state: &UiState, area: Area) -> (r: Panel)
    ensures
        r.deep_view() == state.deep_view().load_panel(report.deep_view(), area),
{
    let ghost sv = state.deep_view();
    let ghost cv = report.deep_view().culprits;
    let room: usize = if area.width > 48 {
        (area.width - 48) as usize
    } else {
        0
    };
    let bars: usize = if room < 8 {
        8
    } else if room > 40 {
        40
    } else {
        room
    };
    let mut lines: Vec<Line> = Vec::new();
    let mut i: usize = 0;
    proof {
        assert(lines.deep_view() =~= sv.load_lines(cv.take(0), area.width));
    }
    while i < report.culprits.len()
        invariant
            sv == state.deep_view(),
            cv == report.culprits.deep_view(),
            bars == bar_width(area.width),
            i <= report.culprits@.len(),
            lines.deep_view() == sv.load_lines(cv.take(i as int), area.width),
        decreases report.culprits@.len() - i,
    {
        let c = &report.culprits[i];
        let history = History::scores(&state.load_history, c.label);
        proof {
            assert(c.score * bars <= 255 * 40) by (nonlinear_arith)
                requires
                    0 <= c.score <= 255,
                    0 <= bars <= 40,
            ;
            assert(cv[i as int] == c.deep_view());
        }
        let ghost before = lines.deep_view();
        let l = widgets::load_row(c, bars, &history);
        let ghost lv = l.deep_view();
        lines.push(l);
        proof {
            assert(lines.deep_view() =~= before.push(lv));
            assert(lines.deep_view() =~= sv.load_lines(cv.take(i + 1), area.width));
        }
        i = i + 1;
    }
    proof {
        assert(cv.take(cv.len() as int) =~= cv);
    }
    Panel::framed(area, Span::fixed(" SYSTEM LOAD ", Style::emphasis()), lines, false)
}

impl CulpritView {
    /// A subsystem in short, its label being `lower` in small letters.
    pub open spec fn in_short(self, lower: Seq<char>) -> Seq<char> {
        lower + " "@ + self.short()
    }
}

/// A subsystem in short, its label being `lower` in small letters.
pub fn in_short(c: &Culprit, lower: &str) -> (r: String)
    requires
        c.deep_view().compact(),
    ensures
        r@ == c.deep_view().in_short(lower@),
{
    let mut s = lower.to_owned();
    s.append(" ");
    s.append(widgets::short_metric(c).as_str());
    s
}

impl ReportView {
    /// Every detail can be cut to fit the collapsed panel.
    pub open spec fn compact(self) -> bool {
        forall|i: int| 0 <= i < self.culprits.len() ==> (#[trigger] self.culprits[i]).compact()
    }

    pub open spec fn load_parts(culprits: Seq<CulpritView>) -> Seq<Seq<char>> {
        culprits.map_values(|c: CulpritView| c.in_short(text::lowercase(c.label)))
    }

    /// A compact one-line summary.
    pub open spec fn collapsed_panel(self, area: Area) -> PanelView {
        PanelView::framed(
            area,
            SpanView::of(" SYSTEM LOAD "@, Style::emphasis_spec()),
            seq![
                LineView::of(
                    seq![
                        SpanView::of("  ✓ "@, Style::strong(Color::Green)),
                        SpanView::of("System load OK "@, Style::strong(Color::Green)),
                        SpanView::of(
                            "· "@ + text::join(ReportView::load_parts(self.culprits), "  ·  "@),
                            Style::of(Color::Gray),
                        ),
                    ],
                ),
            ],
            false,
        )
    }
}

/// Whether every detail can be cut to fit the collapsed panel.
pub(crate) fn can_compact(report: &Report) -> (r: bool)
    ensures
        r == report.deep_view().compact(),
{
    let ghost cv = report.deep_view().culprits;
    let mut i: usize = 0;
    while i < report.culprits.len()
        invariant
            cv == report.culprits.deep_view(),
            i <= report.culprits@.len(),
            forall|k: int| 0 <= k < i ==> (#[trigger] cv[k]).compact(),
        decreases report.culprits@.len() - i,
    {
        let ok = widgets::can_shorten(report.culprits[i].detail.as_str(), 30, 29);
        assert(cv[i as int].compact() == ok);
        if !ok {
            assert(!report.deep_view().culprits[i as int].compact());
            return false;
        }
        i = i + 1;
    }
    true
}

/// A compact one-line summary.
pub fn draw_system_load_collapsed(report: &Report, area: Area) -> (r: Panel)
    requires
        report.deep_view().compact(),
    ensures
        r.deep_view() == report.deep_view().collapsed_panel(area),
{
    let ghost cv = report.deep_view().culprits;
    let mut parts: Vec<String> = Vec::new();
    let mut i: usize = 0;
    proof {
        assert(text::texts(parts@) =~= ReportView::load_parts(cv.take(0)));
    }
    while i < report.culprits.len()
        invariant
            cv == report.culprits.deep_view(),
            forall|k: int| 0 <= k < cv.len() ==> (#[trigger] cv[k]).compact(),
            i <= report.culprits@.len(),
            text::texts(parts@) == ReportView::load_parts(cv.take(i as int)),
        decreases report.culprits@.len() - i,
    {
        let c = &report.culprits[i];
        assert(cv[i as int] == c.deep_view());
        let lower: String = c.label.to_lowercase();
        let ghost before = text::texts(parts@);
        let part = in_short(c, lower.as_str());
        let ghost pv = part@;
        parts.push(part);
        proof {
            assert(text::texts(parts@) =~= before.push(pv));
            assert(text::texts(parts@) =~= ReportView::load_parts(cv.take(i + 1)));
        }
        i = i + 1;
    }
    proof {
        assert(cv.take(cv.len() as int) =~= cv);
    }
    let mut rest = "· ".to_owned();
    rest.append(text::joined(&parts, "  ·  ").as_str());
    let mut spans: Vec<Span> = Vec::new();
    spans.push(Span::fixed("  ✓ ", Style::bold(Color::Green)));
    spans.push(Span::fixed("System load OK ", Style::bold(Color::Green)));
    spans.push(Span::styled(rest, Style::fg(Color::Gray)));
    let ghost wanted = seq![
        SpanView::of("  ✓ "@, Style::strong(Color::Green)),
        SpanView::of("System load OK "@, Style::strong(Color::Green)),
        SpanView::of(
            "· "@ + text::join(ReportView::load_parts(cv), "  ·  "@),
            Style::of(Color::Gray),
        ),
    ];
    proof {
        assert(spans.deep_view() =~= wanted);
    }
    let mut lines: Vec<Line> = Vec::new();
    lines.push(Line::of(spans));
    proof {
        assert(lines.deep_view() =~= seq![LineView::of(wanted)]);
    }
    Panel::framed(area, Span::fixed(" SYSTEM LOAD ", Style::emphasis()), lines, false)
}

// ---------------------------------------------------------------------------
// Footer hint line
// ---------------------------------------------------------------------------

/// Which keys there are in this mode.
pub open spec fn key_hint(mode: ViewMode) -> Seq<char> {
    match mode {
        ViewMode::Dashboard => " ↑/↓ inspect · Enter expand · q quit "@,
        ViewMode::ProcessDetail => " Esc / Enter return · q quit "@,
    }
}

fn key_hint_text(mode: ViewMode) -> (r: &'static str)
    ensures
        r@ == key_hint(mode),
        r@.len() <= 40,
{
    match mode {
        ViewMode::Dashboard => {
            proof {
                reveal_strlit(" ↑/↓ inspect · Enter expand · q quit ");
            }
            " ↑/↓ inspect · Enter expand · q quit "
        },
        ViewMode::ProcessDetail => {
            proof {
                reveal_strlit(" Esc / Enter return · q quit ");
            }
            " Esc / Enter return · q quit "
        },
    }
}

/// The hint has the room it needs, the status the rest.
pub open spec fn footer_split(mode: ViewMode) -> Seq<Constraint> {
    seq![Constraint::Fill(1), Constraint::Length((key_hint(mode).len() + 2) as u16)]
}

/// How the footer is divided.
pub fn footer_constraints(mode: ViewMode) -> (r: Vec<Constraint>)
    ensures
        r@ == footer_split(mode),
{
    let n: usize = key_hint_text(mode).unicode_len();
    let mut c: Vec<Constraint> = Vec::new();
    c.push(Constraint::Fill(1));
    c.push(Constraint::Length(n as u16 + 2));
    proof {
        assert(c@ =~= footer_split(mode));
    }
    c
}

impl StateView {
    /// What a recent action came to, where there is one, and the keys.
    pub open spec fn footer_panels(self, now: u64, left: Area, right: Area) -> Seq<PanelView> {
        let hint = PanelView::bare(
            right,
            seq![
                LineView::righted(
                    SpanView::of(
                        key_hint(self.mode),
                        (Style { dim: true, ..Style::of(Color::DarkGray) }),
                    ),
                ),
            ],
        );
        match self.shown_status(now) {
            Some(s) => seq![
                PanelView::bare(
                    left,
                    seq![
                        LineView::of(
                            seq![
                                SpanView::of(
                                    "  "@ + s.0,
                                    Style::strong(
                                        if s.1 {
                                            Color::Green
                                        } else {
                                            Color::Red
                                        },
                                    ),
                                ),
                            ],
                        ),
                    ],
                ),
                hint,
            ],
            None => seq![hint],
        }
    }
}

/// What a recent action came to, where there is one, and the keys.
pub fn draw_footer(state: &UiState, now: u64, left: Area, right: Area) -> (r: Vec<Panel>)
    ensures
        r.deep_view() == state.deep_view().footer_panels(now, left, right),
{
    let mut panels: Vec<Panel> = Vec::new();
    match state.current_status(now) {
        Some((message, ok)) => {
            let mut s = "  ".to_owned();
            s.append(message);
            let style = if ok {
                Style::bold(Color::Green)
            } else {
                Style::bold(Color::Red)
            };
            panels.push(Panel::single(left, Line::single(Span::styled(s, style))));
        },
        None => {},
    }
    let mut style = Style::fg(Color::DarkGray);
    style.dim = true;
    let hint = Span::fixed(key_hint_text(state.mode), style);
    panels.push(Panel::single(right, Line::righted(hint)));
    proof {
        assert(panels.deep_view() =~= state.deep_view().footer_panels(now, left, right));
    }
    panels
}

// ---------------------------------------------------------------------------
// Persistent actions bar: all shortcuts visible, applied to selected
// ---------------------------------------------------------------------------

/// What the machine is asked for each time the screen is drawn.
#[derive(Debug)]
pub struct Live {
    pub platform: Platform,
    /// In nanoseconds of the clock that stamps the outcomes of actions
    pub now: u64,
    pub is_root: bool,
    /// Of each process of the target, whether the kernel lets us signal it
    pub reachable: Vec<bool>,
}

/// What a `Live` says.
pub struct LiveView {
    pub platform: Platform,
    pub now: u64,
    pub is_root: bool,
    pub reachable: Seq<bool>,
}

impl DeepView for Live {
    type V = LiveView;

    open spec fn deep_view(&self) -> LiveView {
        LiveView {
            platform: self.platform,
            now: self.now,
            is_root: self.is_root,
            reachable: self.reachable@,
        }
    }
}

impl LiveView {
    /// There is an answer for each of so many processes, where one is needed.
    pub open spec fn answers(self, pids: nat) -> bool {
        self.is_root || self.reachable.len() == pids
    }
}

impl Action {
    /// The line of an action in the bar.
    pub open spec fn bar_line(self, availability: AvailabilityView) -> LineView {
        let blocked = availability is Blocked;
        let key_style = if blocked {
            Style { dim: true, ..Style::of(Color::DarkGray) }
        } else {
            Style { reversed: true, ..Style::strong(self.tier()) }
        };
        let sentence_style = if blocked {
            Style { dim: true, crossed_out: true, ..Style::of(Color::DarkGray) }
        } else {
            Style::of(Color::White)
        };
        let head = seq![
            SpanView::raw("  "@),
            SpanView::of(" "@ + seq![self.key_of()] + " "@, key_style),
            SpanView::raw("  "@),
            SpanView::of(self.sentence(), sentence_style),
        ];
        match availability.tag() {
            Some(t) => LineView::of(
                head + seq![
                    SpanView::raw("  "@),
                    SpanView::of("●"@, Style::strong(t.0)),
                    SpanView::raw(" "@),
                    SpanView::of(t.1, Style::strong(t.0)),
                ],
            ),
            None => LineView::of(head),
        }
    }
}

/// The line of an action in the bar. The key and the sentence are dim when the
/// action is unavailable, and a tag follows when it will not reach everything.
pub fn action_line(a: Action, avail: Availability) -> (r: Line)
    ensures
        r.deep_view() == a.bar_line(avail.deep_view()),
{
    let blocked = match avail {
        Availability::Blocked { .. } => true,
        _ => false,
    };
    let mut key_style = Style::bold(a.color());
    let mut sentence_style = Style::fg(Color::White);
    if blocked {
        key_style = Style::fg(Color::DarkGray);
        key_style.dim = true;
        sentence_style = Style::fg(Color::DarkGray);
        sentence_style.dim = true;
        sentence_style.crossed_out = true;
    } else {
        key_style.reversed = true;
    }
    let mut key = " ".to_owned();
    key.push(a.key());
    key.append(" ");
    proof {
        assert(key@ =~= " "@ + seq![a.key_of()] + " "@);
    }
    let mut spans: Vec<Span> = Vec::new();
    spans.push(Span::raw("  "));
    spans.push(Span::styled(key, key_style));
    spans.push(Span::raw("  "));
    spans.push(Span::fixed(widgets::action_sentence(a), sentence_style));
    match widgets::avail_indicator(avail) {
        Some((color, t)) => {
            spans.push(Span::raw("  "));
            spans.push(Span::fixed("●", Style::bold(color)));
            spans.push(Span::raw(" "));
            spans.push(Span::styled(t, Style::bold(color)));
        },
        None => {},
    }
    proof {
        assert(spans.deep_view() =~= a.bar_line(avail.deep_view()).spans);
    }
    Line::of(spans)
}

impl StateView {
    /// The processes of the target.
    pub open spec fn target_pids(self, report: ReportView) -> Seq<u32> {
        match self.target_of(report) {
            Some(e) => e.all_pids,
            None => Seq::empty(),
        }
    }

    pub open spec fn target_text(self, report: ReportView) -> Seq<char> {
        match self.target_of(report) {
            Some(e) => "→ "@ + e.name + " ("@ + decimal::dec(e.all_pids.len()) + " PID"@
                + diagnose::plural(e.all_pids.len() as usize) + ")"@,
            None => "→ (no process selected)"@,
        }
    }

    /// Who runs this.
    pub open spec fn who(self) -> Seq<char> {
        match self.current_username {
            Some(name) => name + " (uid "@ + decimal::dec(self.current_uid as nat) + ")"@,
            None => "uid "@ + decimal::dec(self.current_uid as nat),
        }
    }

    pub open spec fn identity_line(self) -> LineView {
        let root = self.current_uid == 0;
        LineView::centered(
            SpanView::of(
                if root {
                    "✓ Running as "@ + self.who() + "."@
                } else {
                    "ⓘ Running as "@ + self.who() + "."@
                },
                Style {
                    italic: true,
                    ..Style::of(
                        if root {
                            Color::Green
                        } else {
                            Color::DarkGray
                        },
                    )
                },
            ),
        )
    }

    pub open spec fn action_lines(menu: Seq<Action>, pids: nat, live: LiveView) -> Seq<LineView> {
        menu.map_values(
            |a: Action|
                a.bar_line(AvailabilityView::of(a, pids, live.is_root, live.reachable)),
        )
    }

    /// The actions that the target can be subjected to.
    pub open spec fn actions_panel(self, report: ReportView, live: LiveView, area: Area) -> PanelView {
        PanelView {
            area,
            bordered: true,
            title: seq![
                SpanView::of(" ACTIONS "@, Style::strong(Color::White)),
                SpanView::of(self.target_text(report), Style::strong(Color::Cyan)),
                SpanView::raw(" "@),
            ],
            body: BodyView::Text {
                lines: StateView::action_lines(
                    Action::listed(live.platform),
                    self.target_pids(report).len(),
                    live,
                ).push(self.identity_line()),
                wrap: false,
            },
        }
    }
}

fn target_text(report: &Report, state: &UiState) -> (r: String)
    ensures
        r@ == state.deep_view().target_text(report.deep_view()),
{
    match state.target_entry(report) {
        Some(i) => {
            let e = &report.blameboard[i];
            assert(report.deep_view().blameboard[i as int] == e.deep_view());
            let mut s = "→ ".to_owned();
            s.append(e.name.as_str());
            s.append(" (");
            s.append(decimal::decimal(e.all_pids.len() as u64).as_str());
            s.append(" PID");
            s.append(diagnose::plural_ending(e.all_pids.len()));
            s.append(")");
            s
        },
        None => "→ (no process selected)".to_owned(),
    }
}

fn identity_line(state: &UiState) -> (r: Line)
    ensures
        r.deep_view() == state.deep_view().identity_line(),
{
    let uid = decimal::decimal(state.current_uid as u64);
    let who: String = match &state.current_username {
        Some(name) => {
            let mut s = name.clone();
            s.append(" (uid ");
            s.append(uid.as_str());
            s.append(")");
            s
        },
        None => {
            let mut s = "uid ".to_owned();
            s.append(uid.as_str());
            s
        },
    };
    let mut line = if state.is_root() {
        "✓ Running as ".to_owned()
    } else {
        "ⓘ Running as ".to_owned()
    };
    line.append(who.as_str());
    line.append(".");
    let mut style = if state.is_root() {
        Style::fg(Color::Green)
    } else {
        Style::fg(Color::DarkGray)
    };
    style.italic = true;
    Line::centered(Span::styled(line, style))
}

fn action_lines(platform: Platform, pids: &[u32], live: &Live) -> (r: Vec<Line>)
    requires
        live.deep_view().answers(pids@.len()),
    ensures
        r.deep_view() == StateView::action_lines(
            Action::listed(platform),
            pids@.len(),
            live.deep_view(),
        ),
{
    let ghost lv = live.deep_view();
    let menu = Action::menu(platform);
    let mut lines: Vec<Line> = Vec::new();
    let mut i: usize = 0;
    proof {
        assert(lines.deep_view() =~= StateView::action_lines(menu@.take(0), pids@.len(), lv));
    }
    while i < menu.len()
        invariant
            lv == live.deep_view(),
            lv.answers(pids@.len()),
            i <= menu@.len(),
            lines.deep_view() == StateView::action_lines(menu@.take(i as int), pids@.len(), lv),
        decreases menu@.len() - i,
    {
        let a = menu[i];
        let avail = availability(a, pids, live.is_root, &live.reachable);
        let ghost before = lines.deep_view();
        let l = action_line(a, avail);
        let ghost new = l.deep_view();
        lines.push(l);
        proof {
            assert(lines.deep_view() =~= before.push(new));
            assert(lines.deep_view() =~= StateView::action_lines(
                menu@.take(i + 1),
                pids@.len(),
                lv,
            ));
        }
        i = i + 1;
    }
    proof {
        assert(menu@.take(menu@.len() as int) =~= menu@);
    }
    lines
}

/// The actions that the target can be subjected to.
pub fn draw_actions_bar(report: &Report, state: &UiState, live: &Live, area: Area) -> (r: Panel)
    requires
        live.deep_view().answers(state.deep_view().target_pids(report.deep_view()).len()),
    ensures
        r.deep_view() == state.deep_view().actions_panel(
            report.deep_view(),
            live.deep_view(),
            area,
        ),
{
    let ghost wanted = state.deep_view().actions_panel(report.deep_view(), live.deep_view(), area);
    let mut lines: Vec<Line> = match state.target_entry(report) {
        Some(i) => {
            assert(report.deep_view().blameboard[i as int] == report.blameboard@[i as int].deep_view());
            action_lines(live.platform, report.blameboard[i].all_pids.as_slice(), live)
        },
        None => {
            let none: Vec<u32> = Vec::new();
            action_lines(live.platform, none.as_slice(), live)
        },
    };
    let ghost before = lines.deep_view();
    lines.push(identity_line(state));
    proof {
        assert(lines.deep_view() =~= before.push(state.deep_view().identity_line()));
    }
    let mut title: Vec<Span> = Vec::new();
    title.push(Span::fixed(" ACTIONS ", Style::bold(Color::White)));
    title.push(Span::styled(target_text(report, state), Style::bold(Color::Cyan)));
    title.push(Span::raw(" "));
    proof {
        assert(title.deep_view() =~= wanted.title);
    }
    Panel { area, bordered: true, title, body: Body::Text { lines, wrap: false } }
}

// ---------------------------------------------------------------------------
// What every panel says
// ---------------------------------------------------------------------------

impl PanelView {
    /// The lines of a panel of text.
    pub open spec fn lines(self) -> Seq<LineView> {
        match self.body {
            BodyView::Text { lines, .. } => lines,
            _ => Seq::empty(),
        }
    }
}

impl StateView {
    /// The entry at `i` is the one of the selected name: the first of it.
    pub open spec fn has_selected(self, board: Seq<EntryView>, i: int) -> bool {
        &&& 0 <= i < board.len()
        &&& self.selected_name == Some(board[i].name)
        &&& forall|k: int| 0 <= k < i ==> (#[trigger] board[k]).name != board[i].name
    }

    /// No entry has the selected name.
    pub open spec fn has_none_selected(self, board: Seq<EntryView>) -> bool {
        self.selected_name matches Some(name) ==> forall|k: int|
            0 <= k < board.len() ==> (#[trigger] board[k]).name != name
    }
}

proof fn lemma_selected(state: StateView, board: Seq<EntryView>, i: int)
    ensures
        state.has_selected(board, i) ==> state.selected(board) == Some(i),
        state.has_none_selected(board) ==> state.selected(board) is None,
{
    match state.selected_name {
        Some(name) => {
            crate::blameboard::lemma_find(board, name, 0);
            let k = EntryView::find(board, name, 0);
            if k < board.len() {
                assert(board[k].name == name);
            }
            if 0 <= i < k {
                assert(board[i].name != name);
            }
        },
        None => {},
    }
}

/// What is told of a rate: in its unit from 1 KiB/s on, and a word below.
pub open spec fn told_rate(bps: Double, idle: Seq<char>) -> Seq<char> {
    if bps.units() >= 1024 * Double::one() {
        bps.bps_text()
    } else {
        idle
    }
}

proof fn lemma_told_rate(bps: Double, idle: Seq<char>)
    ensures
        rate_or(bps, idle) == told_rate(bps, idle),
{
    crate::exact::double_holds_integers(1024);
}

/// The line tells of one process: its number, the memory that it holds, its share of the
/// CPU and what it reads and writes.
pub open spec fn tells_of_process(line: LineView, s: ProcSample, pid_width: nat) -> bool {
    &&& line.spans.len() == 7
    &&& line.spans[0].text == "    "@ + text::right(decimal::dec(s.pid as nat), pid_width)
    &&& line.spans[2].text == text::right(Double::bytes_text(s.mem), 9)
    &&& line.spans[4].text == text::right(s.cpu.text1(), 5) + "% CPU"@
    &&& line.spans[6].text == told_rate(s.disk_bps, ""@)
}

/// What part of all memory this is, in percent, or nothing where no memory is known.
pub open spec fn told_share(mem: u64, total: u64) -> Seq<char> {
    if total == 0 {
        (Double { bits: 0 }).text1()
    } else {
        Double::of(mem as nat).over(Double::of(total as nat)).times(Double::of(100)).text1()
    }
}

/// How many processes there are.
pub open spec fn told_count(count: usize) -> Seq<char> {
    decimal::dec(count as nat) + " process"@ + if count == 1 {
        ""@
    } else {
        "es"@
    }
}

/// The process detail tells everything about the selected program: the name, how many
/// processes it has, its memory and its part of all memory, its share of the CPU, its own
/// disk rate (idle only below 1 KiB/s), how long it has run, what it is guilty of, its
/// whole command line, each process that is known, and how many are not.
pub proof fn process_details_tell_of_the_program(
    state: StateView,
    report: ReportView,
    area: Area,
    i: int,
)
    requires
        state.has_selected(report.blameboard, i),
    ensures
        ({
            let e = report.blameboard[i];
            let panel = state.process_panel(report, area);
            let lines = panel.lines();
            let n = e.samples.len() as int;
            &&& panel.area == area
            &&& panel.bordered
            &&& panel.body is Text
            &&& panel.title.len() == 1
            &&& panel.title[0].text == " PROCESS DETAIL: "@ + e.name
                + "  (Esc / Enter to return) "@
            &&& lines.len() == 12 + n + if e.count > n {
                1int
            } else {
                0
            }
            &&& lines[0].spans[0].text == "  "@ + e.name + " "@
            &&& lines[0].spans[1].text == "("@ + told_count(e.count) + ")"@
            &&& lines[2].spans[0].text == "  Total RAM:    "@
            &&& lines[2].spans[1].text == Double::bytes_text(e.mem) + " ("@ + told_share(
                e.mem,
                report.total_mem,
            ) + "% of "@ + Double::bytes_text(report.total_mem) + ")"@
            &&& lines[3].spans[0].text == "  Total CPU:    "@
            &&& lines[3].spans[1].text == e.cpu.text1() + "%"@
            &&& lines[4].spans[0].text == "  Disk I/O:     "@
            &&& lines[4].spans[1].text == told_rate(e.disk_bps, "idle"@)
            &&& lines[5].spans[0].text == "  Oldest PID:   "@
            &&& lines[5].spans[1].text == widgets::uptime(e.max_uptime_secs)
            &&& lines[6].spans[0].text == "  Why:          "@
            &&& lines[6].spans[1].text == text::uppercase(e.why)
            &&& lines[8].spans[0].text == "  COMMAND LINE"@
            &&& lines[9].spans[0].text == if e.cmd.len() > 0 {
                "    "@ + e.cmd
            } else {
                "    "@ + "(unavailable)"@
            }
            &&& lines[11].spans[0].text == "  ALL PIDS"@
            &&& forall|k: int|
                0 <= k < n ==> tells_of_process(#[trigger] lines[12 + k], e.samples[k], 8)
            &&& e.count > n ==> lines[12 + n].spans[0].text == "    … "@ + decimal::dec(
                (e.count - n) as nat,
            ) + " additional PIDs not sampled"@
        }),
{
    let e = report.blameboard[i];
    lemma_selected(state, report.blameboard, i);
    let panel = state.process_panel(report, area);
    let lines = panel.lines();
    assert(lines == e.full_lines(report.total_mem, text::uppercase(e.why)));
    lemma_told_rate(e.disk_bps, "idle"@);
    let n = e.samples.len() as int;
    assert forall|k: int| 0 <= k < n implies tells_of_process(
        #[trigger] lines[12 + k],
        e.samples[k],
        8,
    ) by {
        assert(lines[12 + k] == sample_line(e.samples[k], 8));
        lemma_told_rate(e.samples[k].disk_bps, ""@);
    }
}

/// Where nothing that is on the board is selected, the process detail says so.
pub proof fn process_details_need_a_selection(state: StateView, report: ReportView, area: Area)
    requires
        state.has_none_selected(report.blameboard),
    ensures
        state.process_panel(report, area).lines().len() == 1,
        state.process_panel(report, area).lines()[0].spans[0].text == "  No process selected"@,
{
    lemma_selected(state, report.blameboard, 0);
}

/// The details tell of the selected program, or of the first one where none that is on the
/// board is selected: how many processes, memory, CPU, disk rate and uptime, the command
/// line as far as there is room, the five largest processes, and how many there are more.
pub proof fn details_tell_of_the_target(state: StateView, report: ReportView, area: Area, i: int)
    requires
        state.has_selected(report.blameboard, i) || (i == 0 && report.blameboard.len() > 0
            && state.has_none_selected(report.blameboard)),
    ensures
        state.target_of(report) == Some(report.blameboard[i]),
        ({
            let e = report.blameboard[i];
            let panel = state.details_panel(report, area);
            let lines = panel.lines();
            let first = lines[0].spans;
            let n: int = if e.samples.len() < 5 {
                e.samples.len() as int
            } else {
                5
            };
            &&& panel.area == area
            &&& panel.title[0].text == " DETAILS: "@ + e.name + " "@
            &&& lines.len() == 4 + n + if e.count > n {
                1int
            } else {
                0
            }
            &&& first.len() == 14
            &&& first[1].text == told_count(e.count)
            &&& first[3].text == "RAM: "@
            &&& first[4].text == Double::bytes_text(e.mem) + " ("@ + told_share(
                e.mem,
                report.total_mem,
            ) + "% of "@ + Double::bytes_text(report.total_mem) + ")"@
            &&& first[6].text == "CPU: "@
            &&& first[7].text == e.cpu.text1() + "%"@
            &&& first[9].text == "Disk: "@
            &&& first[10].text == told_rate(e.disk_bps, "idle"@)
            &&& first[12].text == "Up: "@
            &&& first[13].text == widgets::uptime(e.max_uptime_secs)
            &&& lines[1].spans[0].text == "  cmd:  "@
            &&& e.cmd.len() == 0 ==> lines[1].spans[1].text == "(no command line available)"@
            &&& e.cmd.len() > 0 && vstd::utf8::encode_utf8(e.cmd).len() + 12 <= area.width
                ==> lines[1].spans[1].text == e.cmd
            &&& area.width > 12 && vstd::utf8::encode_utf8(e.cmd).len() + 12 > area.width
                && e.cmd.len() > 0 ==> lines[1].spans[1].text == widgets::shortened(
                e.cmd,
                (area.width - 12) as nat,
                (area.width - 13) as nat,
            )
            &&& lines[3].spans[0].text == "  TOP PIDS BY MEMORY"@
            &&& forall|k: int|
                0 <= k < n ==> tells_of_process(#[trigger] lines[4 + k], e.samples[k], 7)
            &&& e.count > n ==> lines[4 + n].spans[0].text == "    … and "@ + decimal::dec(
                (e.count - n) as nat,
            ) + " more process(es) — press Enter to expand"@
        }),
{
    let e = report.blameboard[i];
    lemma_selected(state, report.blameboard, i);
    let panel = state.details_panel(report, area);
    let lines = panel.lines();
    assert(lines == e.detail_lines(report.total_mem, area.width));
    lemma_told_rate(e.disk_bps, "idle"@);
    let n = e.shown() as int;
    let shown = e.samples.take(n);
    assert forall|k: int| 0 <= k < n implies tells_of_process(
        #[trigger] lines[4 + k],
        e.samples[k],
        7,
    ) by {
        assert(sample_lines(shown, 7)[k] == sample_line(shown[k], 7));
        assert(lines[4 + k] == sample_line(e.samples[k], 7));
        lemma_told_rate(e.samples[k].disk_bps, ""@);
    }
}

/// Where the board is empty, the details say that nothing is selected, and so does the
/// action bar.
pub proof fn details_need_a_program(state: StateView, report: ReportView, live: LiveView, area: Area)
    requires
        report.blameboard.len() == 0,
    ensures
        state.details_panel(report, area).lines().len() == 1,
        state.details_panel(report, area).lines()[0].spans[0].text == "  No process selected"@,
        state.actions_panel(report, live, area).title[1].text == "→ (no process selected)"@,
        state.target_pids(report).len() == 0,
{
    lemma_selected(state, report.blameboard, 0);
}

/// The Blameboard shows the first entries that have room, ten at most, each in its own
/// row with its rank, with the entry of the same name of the report before, and with its
/// own history. The selected row is that of the selected entry, or the first.
pub proof fn boards_show_the_first_entries(state: StateView, report: ReportView, area: Area)
    ensures
        ({
            let panel = state.board_panel(report, area);
            let room: int = if area.height < 3 {
                0
            } else {
                area.height - 3
            };
            &&& panel.area == area
            &&& panel.title.len() == 1
            &&& match panel.body {
                BodyView::Table { header, rows, selected, .. } => {
                    &&& rows.len() <= 10
                    &&& rows.len() <= room
                    &&& rows.len() <= report.blameboard.len()
                    &&& rows.len() == 10 || rows.len() == room || rows.len()
                        == report.blameboard.len()
                    &&& header.len() == 7
                    &&& forall|i: int|
                        0 <= i < rows.len() ==> #[trigger] rows[i] == report.blameboard[i].cells(
                            (i + 1) as nat,
                            last_named(state.prev_board(), report.blameboard[i].name),
                            HistoryView::scores_of(
                                state.impact_history,
                                report.blameboard[i].name,
                            ),
                            report.total_mem,
                            text::uppercase(report.blameboard[i].why),
                        )
                    &&& rows.len() == 0 ==> selected is None
                    &&& forall|i: int|
                        0 <= i < rows.len() && state.has_selected(report.blameboard, i)
                            ==> selected == Some(i as usize)
                    &&& rows.len() > 0 && state.has_none_selected(report.blameboard) ==> selected
                        == Some(0usize)
                },
                _ => false,
            }
        }),
{
    assert forall|i: int| state.has_selected(report.blameboard, i) implies state.selected(
        report.blameboard,
    ) == Some(i) by {
        lemma_selected(state, report.blameboard, i);
    }
    lemma_selected(state, report.blameboard, 0);
}

/// The entry that a row is compared with is one of the report before, of the same name,
/// and there is one whenever that report has the name.
pub proof fn changes_are_of_the_same_program(board: Seq<EntryView>, name: Seq<char>)
    ensures
        last_named(board, name) matches Some(e) ==> e.name == name && board.contains(e),
        last_named(board, name) is None ==> forall|k: int|
            0 <= k < board.len() ==> (#[trigger] board[k]).name != name,
    decreases board.len(),
{
    if board.len() > 0 {
        let rest = board.drop_last();
        changes_are_of_the_same_program(rest, name);
        let last = board.len() - 1;
        assert(board[last] == board.last());
        if board.last().name != name {
            match last_named(rest, name) {
                Some(e) => {
                    let k = choose|k: int| 0 <= k < rest.len() && rest[k] == e;
                    assert(board[k] == e);
                },
                None => {
                    assert forall|k: int| 0 <= k < board.len() implies (#[trigger] board[k]).name
                        != name by {
                        if k < last {
                            assert(rest[k] == board[k]);
                        }
                    }
                },
            }
        }
    }
}

/// There is advice where the first entry is a culprit, and it is about that entry.
pub proof fn advice_is_on_the_first_culprit(report: ReportView, area: Area)
    ensures
        report.blameboard.len() > 0 && report.blameboard[0].impact >= 40 ==> ({
            let e = report.blameboard[0];
            let panels = report.hint_panels(area);
            &&& panels.len() == 1
            &&& panels[0].area == area
            &&& panels[0].lines()[0].spans[1].text == e.advice(
                report.total_mem,
                text::uppercase(e.why),
            )
        }),
        report.blameboard.len() == 0 || report.blameboard[0].impact < 40 ==> report.hint_panels(
            area,
        ).len() == 0,
{
}

/// The load panel has a row for each subsystem, in their order, with its own history; the
/// collapsed one tells of each in short.
pub proof fn load_panels_tell_of_each_subsystem(state: StateView, report: ReportView, area: Area)
    ensures
        ({
            let lines = state.load_panel(report, area).lines();
            let room: int = if area.width < 48 {
                0
            } else {
                area.width - 48
            };
            &&& lines.len() == report.culprits.len()
            &&& forall|k: int|
                0 <= k < lines.len() ==> #[trigger] lines[k] == report.culprits[k].load_line(
                    (if room < 8 {
                        8
                    } else if room > 40 {
                        40
                    } else {
                        room
                    }) as nat,
                    HistoryView::scores_of(state.load_history, report.culprits[k].label),
                )
        }),
        ({
            let line = report.collapsed_panel(area).lines()[0];
            let parts = report.culprits.map_values(
                |c: CulpritView| text::lowercase(c.label) + " "@ + c.short(),
            );
            line.spans[2].text == "· "@ + text::join(parts, "  ·  "@)
        }),
        forall|k: int|
            0 <= k < report.culprits.len() && vstd::utf8::encode_utf8(
                (#[trigger] report.culprits[k]).detail,
            ).len() <= 30 ==> report.culprits[k].short() == report.culprits[k].detail,
        forall|k: int|
            0 <= k < report.culprits.len() ==> (#[trigger] report.culprits[k]).short()
                == widgets::shortened(report.culprits[k].detail, 30, 29),
{
    let parts = report.culprits.map_values(
        |c: CulpritView| text::lowercase(c.label) + " "@ + c.short(),
    );
    assert(ReportView::load_parts(report.culprits) =~= parts);
}

/// The action bar lists the menu in order, each action with its key, its sentence and what
/// it can reach of the target, and says who runs this.
pub proof fn action_bars_tell_what_can_be_reached(
    state: StateView,
    report: ReportView,
    live: LiveView,
    area: Area,
    k: int,
)
    requires
        0 <= k < Action::listed(live.platform).len(),
    ensures
        ({
            let lines = state.actions_panel(report, live, area).lines();
            let action = Action::listed(live.platform)[k];
            let reach = AvailabilityView::of(
                action,
                state.target_pids(report).len(),
                live.is_root,
                live.reachable,
            );
            &&& lines.len() == Action::listed(live.platform).len() + 1
            &&& lines[k].spans[1].text == " "@ + seq![action.key_of()] + " "@
            &&& lines[k].spans[3].text == action.sentence()
            &&& match reach {
                AvailabilityView::Blocked { reason } => lines[k].spans.len() == 8
                    && lines[k].spans[7].text == reason && lines[k].spans[3].style.crossed_out,
                AvailabilityView::Partial { allowed, total } => lines[k].spans.len() == 8
                    && lines[k].spans[7].text == decimal::dec(allowed) + "/"@ + decimal::dec(total)
                    + " PIDs reachable — sudo for the rest"@
                    && !lines[k].spans[3].style.crossed_out,
                _ => lines[k].spans.len() == 4 && !lines[k].spans[3].style.crossed_out,
            }
        }),
        ({
            let lines = state.actions_panel(report, live, area).lines();
            let mark = if state.current_uid == 0 {
                "✓ Running as "@
            } else {
                "ⓘ Running as "@
            };
            let uid = decimal::dec(state.current_uid as nat);
            &&& state.current_username matches Some(name) ==> lines.last().spans[0].text == mark + (
            name + " (uid "@ + uid + ")"@) + "."@
            &&& state.current_username is None ==> lines.last().spans[0].text == mark + ("uid "@
                + uid) + "."@
        }),
        state.target_of(report) matches Some(e) ==> state.actions_panel(
            report,
            live,
            area,
        ).title[1].text == "→ "@ + e.name + " ("@ + decimal::dec(e.all_pids.len()) + " PID"@ + (
        if e.all_pids.len() as usize == 1 {
            ""@
        } else {
            "s"@
        }) + ")"@ && state.target_pids(report) == e.all_pids,
{
    let menu = Action::listed(live.platform);
    let pids = state.target_pids(report).len();
    let lines = StateView::action_lines(menu, pids, live);
    assert(lines[k] == menu[k].bar_line(
        AvailabilityView::of(menu[k], pids, live.is_root, live.reachable),
    ));
}

/// The footer shows the keys of the mode at the right, and at the left what the last
/// action came to, as long as that is shown.
pub proof fn footers_show_the_outcome(state: StateView, now: u64, left: Area, right: Area)
    ensures
        ({
            let panels = state.footer_panels(now, left, right);
            &&& panels.last().area == right
            &&& state.mode == ViewMode::Dashboard ==> panels.last().lines()[0].spans[0].text
                == " ↑/↓ inspect · Enter expand · q quit "@
            &&& state.mode == ViewMode::ProcessDetail ==> panels.last().lines()[0].spans[0].text
                == " Esc / Enter return · q quit "@
            &&& match state.status {
                Some(s) => if now < s.at + 5_000_000_000 {
                    panels.len() == 2 && panels[0].area == left
                        && panels[0].lines()[0].spans[0].text == "  "@ + s.message
                        && panels[0].lines()[0].spans[0].style.fg == Some(
                        if s.ok {
                            Color::Green
                        } else {
                            Color::Red
                        },
                    )
                } else {
                    panels.len() == 1
                },
                None => panels.len() == 1,
            }
        }),
{
}

/// Without color a panel says the same, and nothing of it has a color.
pub proof fn colorless_panels_say_the_same(panel: PanelView)
    ensures
        panel.uncolored().area == panel.area,
        panel.uncolored().bordered == panel.bordered,
        panel.uncolored().lines().len() == panel.lines().len(),
        forall|i: int, k: int|
            0 <= i < panel.lines().len() && 0 <= k < panel.lines()[i].spans.len() ==> {
                let after = #[trigger] panel.uncolored().lines()[i].spans[k];
                let before = panel.lines()[i].spans[k];
                after.text == before.text && after.style == Style { fg: None, ..before.style }
            },
        panel.uncolored().title.len() == panel.title.len(),
        forall|k: int|
            0 <= k < panel.title.len() ==> (#[trigger] panel.uncolored().title[k]).text
                == panel.title[k].text && panel.uncolored().title[k].style.fg is None,
        panel.uncolored().uncolored() == panel.uncolored(),
{
    let once = panel.uncolored();
    let twice = once.uncolored();
    assert(twice.title =~= once.title);
    match panel.body {
        BodyView::Text { lines, wrap } => {
            let a = once.lines();
            let b = twice.lines();
            assert forall|i: int| 0 <= i < a.len() implies a[i] == b[i] by {
                assert(a[i].spans =~= b[i].spans);
            }
            assert(a =~= b);
        },
        BodyView::Table { header, rows, widths, highlight, selected } => {
            assert forall|cells: Seq<CellView>| #[trigger] CellView::all_uncolored(
                CellView::all_uncolored(cells),
            ) == CellView::all_uncolored(cells) by {
                let x = CellView::all_uncolored(cells);
                let y = CellView::all_uncolored(x);
                assert forall|k: int| 0 <= k < x.len() implies x[k] == y[k] by {
                    assert(x[k].spans =~= y[k].spans);
                }
                assert(x =~= y);
            }
            let r = rows.map_values(|row: Seq<CellView>| CellView::all_uncolored(row));
            assert(r.map_values(|row: Seq<CellView>| CellView::all_uncolored(row)) =~= r);
        },
        BodyView::Frame => {},
    }
}

/// The title of the board says what it is sorted by.
pub proof fn titles_tell_what_the_board_is_sorted_by(
    state: StateView,
    report: ReportView,
    area: Area,
)
    ensures
        ({
            let title = state.board_panel(report, area).title[0].text;
            &&& report.sort_basis == "IMPACT"@ ==> title
                == " BLAMEBOARD — who is making your computer slow "@
            &&& report.sort_basis == "CPU"@ ==> title
                == " BLAMEBOARD — sorted by CPU usage (the bottleneck) "@
            &&& report.sort_basis == "MEMORY"@ ==> title
                == " BLAMEBOARD — sorted by memory use (the bottleneck) "@
            &&& report.sort_basis == "DISK"@ ==> title
                == " BLAMEBOARD — sorted by disk I/O (the bottleneck) "@
        }),
{
    crate::blameboard::lemma_bases_differ();
}

} // verus!
