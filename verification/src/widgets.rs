//! The pieces that panels are made of.
use crate::actions::{Action, Availability, AvailabilityView};
use crate::blameboard::{BlameEntry, EntryView};
use crate::decimal;
use crate::diagnose;
use crate::diagnose::{Culprit, CulpritView};
use crate::float::{Double, Single};
use crate::state;
use crate::style;
use crate::style::{Color, Line, LineView, Span, SpanView, Style};
use crate::text;
use vstd::arithmetic::div_mod::*;
use vstd::arithmetic::power2::*;
use vstd::prelude::*;

verus! {

// ---------------------------------------------------------------------------
// Scores
// ---------------------------------------------------------------------------

pub open spec fn color_of(score: u8) -> Color {
    if score >= 70 {
        Color::Red
    } else if score >= 40 {
        Color::Yellow
    } else {
        Color::Green
    }
}

pub fn score_color(score: u8) -> (r: Color)
    ensures
        r == color_of(score),
{
    if score >= 70 {
        Color::Red
    } else if score >= 40 {
        Color::Yellow
    } else {
        Color::Green
    }
}

/// The icon and the word for a score.
pub open spec fn label_of(score: u8) -> (Seq<char>, Seq<char>) {
    if score >= 70 {
        ("✗"@, "CRITICAL"@)
    } else if score >= 40 {
        ("⚠"@, "MODERATE"@)
    } else {
        ("✓"@, "OK"@)
    }
}

pub fn status_label(score: u8) -> (r: (&'static str, &'static str))
    ensures
        (r.0@, r.1@) == label_of(score),
{
    if score >= 70 {
        ("✗", "CRITICAL")
    } else if score >= 40 {
        ("⚠", "MODERATE")
    } else {
        ("✓", "OK")
    }
}

// ---------------------------------------------------------------------------
// Uptime
// ---------------------------------------------------------------------------

/// A time in seconds, in its two largest units.
pub open spec fn uptime(secs: u64) -> Seq<char> {
    let days = secs / 86_400;
    let hours = (secs % 86_400) / 3600;
    let minutes = (secs % 3600) / 60;
    if days > 0 {
        decimal::dec(days as nat) + "d "@ + decimal::dec(hours as nat) + "h"@
    } else if hours > 0 {
        decimal::dec(hours as nat) + "h "@ + decimal::dec(minutes as nat) + "m"@
    } else if minutes > 0 {
        decimal::dec(minutes as nat) + "m "@ + decimal::dec((secs % 60) as nat) + "s"@
    } else {
        decimal::dec(secs as nat) + "s"@
    }
}

fn two_units(a: u64, first: &str, b: u64, second: &str) -> (r: String)
    ensures
        r@ == decimal::dec(a as nat) + first@ + decimal::dec(b as nat) + second@,
{
    let mut s = decimal::decimal(a);
    s.append(first);
    s.append(decimal::decimal(b).as_str());
    s.append(second);
    s
}

pub fn fmt_uptime(secs: u64) -> (r: String)
    ensures
        r@ == uptime(secs),
{
    let days: u64 = secs / 86_400;
    let hours: u64 = (secs % 86_400) / 3600;
    let minutes: u64 = (secs % 3600) / 60;
    if days > 0 {
        two_units(days, "d ", hours, "h")
    } else if hours > 0 {
        two_units(hours, "h ", minutes, "m")
    } else if minutes > 0 {
        two_units(minutes, "m ", secs % 60, "s")
    } else {
        decimal::decimal(secs).concat("s")
    }
}

// ---------------------------------------------------------------------------
// Deltas
// ---------------------------------------------------------------------------

pub open spec fn arrow(small: bool, grew: bool) -> (Seq<char>, Color) {
    if small {
        ("  "@, Color::DarkGray)
    } else if grew {
        (" ↑"@, Color::Red)
    } else {
        (" ↓"@, Color::Green)
    }
}

fn arrow_for(small: bool, grew: bool) -> (r: (&'static str, Color))
    ensures
        (r.0@, r.1) == arrow(small, grew),
{
    if small {
        ("  ", Color::DarkGray)
    } else if grew {
        (" ↑", Color::Red)
    } else {
        (" ↓", Color::Green)
    }
}

/// The arrow for a CPU share that went from `before` to `after`: none for less
/// than `threshold`.
pub open spec fn cpu_arrow(before: Single, after: Single, threshold: nat) -> (Seq<char>, Color) {
    let both_infinite = before.bits >= crate::float::SINGLE_INFINITY && after.bits
        >= crate::float::SINGLE_INFINITY;
    arrow(
        !both_infinite && !after.apart(before).ge(Single::of(threshold)),
        after.gt(before),
    )
}

/// The arrow for a CPU share that went from `before` to `after`: none for less
/// than `threshold`.
pub fn delta_arrow_cpu(before: Single, after: Single, threshold: u64) -> (r: (&'static str, Color))
    ensures
        (r.0@, r.1) == cpu_arrow(before, after, threshold as nat),
{
    let both_infinite = before.bits >= crate::float::SINGLE_INFINITY as u32 && after.bits
        >= crate::float::SINGLE_INFINITY as u32;
    let small = !both_infinite && !after.distance(before).at_least(Single::from_int(threshold));
    arrow_for(small, after.above(before))
}

/// The arrow for a change of size: none for less than `threshold`.
pub open spec fn size_arrow(delta: int, threshold: int) -> (Seq<char>, Color) {
    arrow(-threshold < delta < threshold, delta > 0)
}

/// The arrow for a change of size: none for less than `threshold`.
pub fn delta_arrow_bytes(delta: i128, threshold: i64) -> (r: (&'static str, Color))
    ensures
        (r.0@, r.1) == size_arrow(delta as int, threshold as int),
{
    let t: i128 = threshold as i128;
    arrow_for(-t < delta && delta < t, delta > 0)
}

// ---------------------------------------------------------------------------
// Sparkline
// ---------------------------------------------------------------------------

pub open spec fn spark_char(level: nat) -> char {
    if level == 0 {
        '▁'
    } else if level == 1 {
        '▂'
    } else if level == 2 {
        '▃'
    } else if level == 3 {
        '▄'
    } else if level == 4 {
        '▅'
    } else if level == 5 {
        '▆'
    } else if level == 6 {
        '▇'
    } else {
        '█'
    }
}

/// The highest score, at least 1.
pub open spec fn peak(scores: Seq<u8>) -> u8
    decreases scores.len(),
{
    if scores.len() == 0 {
        1
    } else {
        let p = peak(scores.drop_last());
        if scores.last() > p {
            scores.last()
        } else {
            p
        }
    }
}

/// How high a score stands below the peak, from 0 to 7.
pub open spec fn level(score: u8, peak: u8) -> nat {
    Single::of(score as nat).over(Single::of(peak as nat)).times(Single::of(7)).rounded()
}

pub open spec fn spark_text(scores: Seq<u8>, peak: u8) -> Seq<char> {
    scores.map_values(|v: u8| spark_char(level(v, peak)))
}

/// The last `width` scores as bars, the newest at the right.
pub open spec fn spark(history: Seq<u8>, width: nat, color: Color, is_culprit: bool) -> Seq<
    SpanView,
> {
    let samples = state::last_of(history, width);
    let pad = (width - samples.len()) as nat;
    let style = if is_culprit {
        Style::strong(color)
    } else {
        Style::of(Color::DarkGray)
    };
    let bars = SpanView::of(spark_text(samples, peak(samples)), style);
    if history.len() == 0 || width == 0 {
        seq![SpanView::of(text::repeat(' ', width), Style::of(Color::DarkGray))]
    } else if pad > 0 {
        seq![SpanView::of(text::repeat(' ', pad), Style::of(Color::DarkGray)), bars]
    } else {
        seq![bars]
    }
}

fn bar_for(score: u8, peak: u8) -> (r: char)
    requires
        peak > 0,
    ensures
        r == spark_char(level(score, peak)),
{
    let l: u64 = Single::from_int(score as u64).div(Single::from_int(peak as u64)).mul(
        Single::from_int(7),
    ).round();
    if l == 0 {
        '▁'
    } else if l == 1 {
        '▂'
    } else if l == 2 {
        '▃'
    } else if l == 3 {
        '▄'
    } else if l == 4 {
        '▅'
    } else if l == 5 {
        '▆'
    } else if l == 6 {
        '▇'
    } else {
        '█'
    }
}

/// The last `width` scores as bars, the newest at the right.
pub fn sparkline(history: &Vec<u8>, width: usize, color: Color, is_culprit: bool) -> (r: Vec<Span>)
    ensures
        r.deep_view() == spark(history@, width as nat, color, is_culprit),
{
    let mut spans: Vec<Span> = Vec::new();
    if history.len() == 0 || width == 0 {
        spans.push(Span::styled(text::copies(' ', width), Style::fg(Color::DarkGray)));
        proof {
            assert(spans.deep_view() =~= spark(history@, width as nat, color, is_culprit));
        }
        return spans;
    }
    let start: usize = if history.len() <= width {
        0
    } else {
        history.len() - width
    };
    let ghost samples = state::last_of(history@, width as nat);
    proof {
        assert(samples =~= history@.skip(start as int));
    }
    let mut top: u8 = 1;
    let mut i: usize = start;
    while i < history.len()
        invariant
            start <= i <= history@.len(),
            samples == history@.skip(start as int),
            top == peak(samples.take(i - start)),
            top > 0,
        decreases history@.len() - i,
    {
        proof {
            assert(samples.take(i - start + 1).drop_last() =~= samples.take(i - start));
            assert(samples.take(i - start + 1).last() == history@[i as int]);
        }
        if history[i] > top {
            top = history[i];
        }
        i = i + 1;
    }
    proof {
        assert(samples.take(i - start) =~= samples);
    }
    let pad: usize = width - (history.len() - start);
    if pad > 0 {
        spans.push(Span::styled(text::copies(' ', pad), Style::fg(Color::DarkGray)));
    }
    let style = if is_culprit {
        Style::bold(color)
    } else {
        Style::fg(Color::DarkGray)
    };
    let mut chars = String::new();
    let ghost whole = spark_text(samples, top);
    let mut k: usize = start;
    while k < history.len()
        invariant
            start <= k <= history@.len(),
            samples == history@.skip(start as int),
            top > 0,
            whole == spark_text(samples, top),
            chars@ == whole.take(k - start),
        decreases history@.len() - k,
    {
        let c = bar_for(history[k], top);
        chars.push(c);
        proof {
            assert(whole[k - start] == c);
            assert(whole.take(k - start + 1) =~= whole.take(k - start).push(c));
        }
        k = k + 1;
    }
    proof {
        assert(whole.take(k - start) =~= whole);
    }
    spans.push(Span::styled(chars, style));
    proof {
        assert(spans.deep_view() =~= spark(history@, width as nat, color, is_culprit));
    }
    spans
}

// ---------------------------------------------------------------------------
// Rows of the Blameboard
// ---------------------------------------------------------------------------

/// One cell of a table: its text, and the style of the whole cell.
#[derive(Debug)]
pub struct Cell {
    pub spans: Vec<Span>,
    pub style: Style,
}

/// What a `Cell` says.
pub struct CellView {
    pub spans: Seq<SpanView>,
    pub style: Style,
}

impl DeepView for Cell {
    type V = CellView;

    open spec fn deep_view(&self) -> CellView {
        CellView { spans: self.spans.deep_view(), style: self.style }
    }
}

impl CellView {
    /// The same cell without colors.
    pub open spec fn uncolored(self) -> CellView {
        CellView { spans: SpanView::all_uncolored(self.spans), style: self.style.uncolored() }
    }

    /// The same cells without colors.
    pub open spec fn all_uncolored(cells: Seq<CellView>) -> Seq<CellView> {
        cells.map_values(|c: CellView| c.uncolored())
    }

    pub open spec fn of(text: Seq<char>, style: Style) -> CellView {
        CellView { spans: seq![SpanView::raw(text)], style }
    }

    pub open spec fn pair(a: SpanView, b: SpanView) -> CellView {
        CellView { spans: seq![a, b], style: Style::plain_spec() }
    }
}

/// The same cells without colors.
pub fn colorless_cells(cells: &Vec<Cell>) -> (r: Vec<Cell>)
    ensures
        r.deep_view() == CellView::all_uncolored(cells.deep_view()),
{
    let ghost wanted = CellView::all_uncolored(cells.deep_view());
    let mut r: Vec<Cell> = Vec::new();
    let mut i: usize = 0;
    while i < cells.len()
        invariant
            i <= cells@.len(),
            wanted == CellView::all_uncolored(cells.deep_view()),
            r.deep_view() =~= wanted.take(i as int),
        decreases cells@.len() - i,
    {
        let ghost before = r.deep_view();
        let c = Cell {
            spans: style::colorless_spans(&cells[i].spans),
            style: cells[i].style.colorless(),
        };
        let ghost cv = c.deep_view();
        r.push(c);
        proof {
            assert(cv == wanted[i as int]);
            assert(r.deep_view() =~= before.push(cv));
        }
        i = i + 1;
    }
    r
}

impl Cell {
    pub fn of(text: &str, style: Style) -> (r: Cell)
        ensures
            r.deep_view() == CellView::of(text@, style),
    {
        let mut spans: Vec<Span> = Vec::new();
        spans.push(Span::raw(text));
        proof {
            assert(spans.deep_view() =~= seq![SpanView::raw(text@)]);
        }
        Cell { spans, style }
    }

    fn pair(a: Span, b: Span) -> (r: Cell)
        ensures
            r.deep_view() == CellView::pair(a.deep_view(), b.deep_view()),
    {
        let ghost av = a.deep_view();
        let ghost bv = b.deep_view();
        let mut spans: Vec<Span> = Vec::new();
        spans.push(a);
        spans.push(b);
        proof {
            assert(spans.deep_view() =~= seq![av, bv]);
        }
        Cell { spans, style: Style::plain() }
    }
}

/// What part of all memory this is, in percent.
pub open spec fn mem_share(mem: u64, total: u64) -> Double {
    if total > 0 {
        Double::percent(mem, total)
    } else {
        Double { bits: 0 }
    }
}

/// What part of all memory this is, in percent.
pub fn memory_share(mem: u64, total: u64) -> (r: Double)
    ensures
        r == mem_share(mem, total),
{
    if total > 0 {
        diagnose::percent(mem, total)
    } else {
        Double { bits: 0 }
    }
}

/// A size read as a signed number.
pub open spec fn as_signed(n: u64) -> int {
    if n < 0x8000_0000_0000_0000 {
        n as int
    } else {
        n - 0x1_0000_0000_0000_0000
    }
}

fn signed_size(n: u64) -> (r: i128)
    ensures
        r == as_signed(n),
{
    if n < 0x8000_0000_0000_0000 {
        n as i128
    } else {
        n as i128 - 0x1_0000_0000_0000_0000
    }
}

/// The color of the tag that says what a program is guilty of.
pub open spec fn why_color(upper: Seq<char>) -> Color {
    if text::contains(upper, "+"@) {
        Color::LightRed
    } else if upper == "CPU"@ {
        Color::Cyan
    } else if upper == "MEM"@ {
        Color::Magenta
    } else if upper == "DISK"@ {
        Color::Yellow
    } else {
        Color::DarkGray
    }
}

/// The color of the tag that says what a program is guilty of.
pub fn tag_color(upper: &str) -> (r: Color)
    ensures
        r == why_color(upper@),
{
    if text::has(upper, "+") {
        Color::LightRed
    } else if text::same(upper, "CPU") {
        Color::Cyan
    } else if text::same(upper, "MEM") {
        Color::Magenta
    } else if text::same(upper, "DISK") {
        Color::Yellow
    } else {
        Color::DarkGray
    }
}

impl EntryView {
    pub open spec fn is_culprit(self) -> bool {
        self.impact >= 40
    }

    pub open spec fn rank_cell(self, rank: nat) -> CellView {
        let color = color_of(self.impact);
        if rank == 1 && self.is_culprit() {
            CellView {
                spans: seq![
                    SpanView::of("▶ 1 "@, Style { reversed: true, ..Style::strong(color) }),
                ],
                style: Style::plain_spec(),
            }
        } else if self.is_culprit() {
            CellView::of(text::right(decimal::dec(rank), 2) + " "@, Style::strong(color))
        } else {
            CellView::of(" · "@, Style::of(Color::DarkGray))
        }
    }

    pub open spec fn name_cell(self) -> CellView {
        let label = if self.count > 1 {
            self.name + " ("@ + decimal::dec(self.count as nat) + ")"@
        } else {
            self.name
        };
        let style = if self.impact >= 70 {
            Style::strong(Color::White)
        } else if self.is_culprit() {
            Style::strong(color_of(self.impact))
        } else {
            Style::of(Color::DarkGray)
        };
        CellView::of(label, style)
    }

    pub open spec fn why_cell(self, upper: Seq<char>) -> CellView {
        if self.is_culprit() {
            CellView::of(upper, Style::strong(why_color(upper)))
        } else {
            CellView::of(""@, Style::of(Color::DarkGray))
        }
    }

    /// The style of the figures.
    pub open spec fn figures(self) -> Style {
        if self.is_culprit() {
            Style::strong(Color::White)
        } else {
            Style::of(Color::DarkGray)
        }
    }

    pub open spec fn cpu_cell(self, prev: Option<EntryView>) -> CellView {
        let a = match prev {
            Some(p) => cpu_arrow(p.cpu, self.cpu, 5),
            None => ("  "@, Color::DarkGray),
        };
        CellView::pair(
            SpanView::of(text::right(self.cpu.text1(), 5) + "%"@, self.figures()),
            SpanView::of(a.0, Style::strong(a.1)),
        )
    }

    pub open spec fn mem_cell(self, prev: Option<EntryView>, total_ram: u64) -> CellView {
        let share = mem_share(self.mem, total_ram);
        let size = text::right(Double::bytes_text(self.mem), 8);
        let t = if share.ge(Double::of(1)) {
            size + " ("@ + text::right(share.text0(), 2) + "%)"@
        } else {
            size + "      "@
        };
        let delta = match prev {
            Some(p) => as_signed(self.mem) - as_signed(p.mem),
            None => 0,
        };
        let a = size_arrow(delta, 104_857_600);
        CellView::pair(SpanView::of(t, self.figures()), SpanView::of(a.0, Style::strong(a.1)))
    }

    pub open spec fn disk_cell(self) -> CellView {
        let t = if self.disk_bps.ge(Double::of(1024)) {
            self.disk_bps.bps_text()
        } else {
            ""@
        };
        CellView::of(
            text::right(t, 10),
            if self.disk_bps.ge(Double::of(1_048_576)) {
                Style::strong(Color::Yellow)
            } else {
                Style::of(Color::DarkGray)
            },
        )
    }

    /// The row of an entry, whose guilt is `upper` in capitals.
    pub open spec fn cells(
        self,
        rank: nat,
        prev: Option<EntryView>,
        history: Seq<u8>,
        total_ram: u64,
        upper: Seq<char>,
    ) -> Seq<CellView> {
        seq![
            self.rank_cell(rank),
            self.name_cell(),
            self.why_cell(upper),
            self.cpu_cell(prev),
            self.mem_cell(prev, total_ram),
            self.disk_cell(),
            CellView {
                spans: spark(history, 10, color_of(self.impact), self.is_culprit()),
                style: Style::plain_spec(),
            },
        ]
    }
}

fn rank_cell(rank: usize, e: &BlameEntry) -> (r: Cell)
    ensures
        r.deep_view() == e.deep_view().rank_cell(rank as nat),
{
    let color = score_color(e.impact);
    let is_culprit = e.impact >= 40;
    if rank == 1 && is_culprit {
        let mut style = Style::bold(color);
        style.reversed = true;
        let mut spans: Vec<Span> = Vec::new();
        spans.push(Span::fixed("▶ 1 ", style));
        proof {
            assert(spans.deep_view() =~= seq![SpanView::of("▶ 1 "@, style)]);
        }
        Cell { spans, style: Style::plain() }
    } else if is_culprit {
        let s = text::pad_left(decimal::decimal(rank as u64).as_str(), 2).concat(" ");
        Cell::of(s.as_str(), Style::bold(color))
    } else {
        Cell::of(" · ", Style::fg(Color::DarkGray))
    }
}

fn name_cell(e: &BlameEntry) -> (r: Cell)
    ensures
        r.deep_view() == e.deep_view().name_cell(),
{
    let mut label = e.name.clone();
    if e.count > 1 {
        label.append(" (");
        label.append(decimal::decimal(e.count as u64).as_str());
        label.append(")");
    }
    let style = if e.impact >= 70 {
        Style::bold(Color::White)
    } else if e.impact >= 40 {
        Style::bold(score_color(e.impact))
    } else {
        Style::fg(Color::DarkGray)
    };
    Cell::of(label.as_str(), style)
}

fn why_cell(e: &BlameEntry, upper: &str) -> (r: Cell)
    ensures
        r.deep_view() == e.deep_view().why_cell(upper@),
{
    if e.impact >= 40 {
        Cell::of(upper, Style::bold(tag_color(upper)))
    } else {
        Cell::of("", Style::fg(Color::DarkGray))
    }
}

fn figures(e: &BlameEntry) -> (r: Style)
    ensures
        r == e.deep_view().figures(),
{
    if e.impact >= 40 {
        Style::bold(Color::White)
    } else {
        Style::fg(Color::DarkGray)
    }
}

pub open spec fn view_of(e: Option<&BlameEntry>) -> Option<EntryView> {
    match e {
        Some(p) => Some(p.deep_view()),
        None => None,
    }
}

fn cpu_cell(e: &BlameEntry, prev: Option<&BlameEntry>) -> (r: Cell)
    ensures
        r.deep_view() == e.deep_view().cpu_cell(view_of(prev)),
{
    let a = match prev {
        Some(p) => delta_arrow_cpu(p.cpu, e.cpu, 5),
        None => ("  ", Color::DarkGray),
    };
    let s = text::pad_left(e.cpu.fixed1().as_str(), 5).concat("%");
    Cell::pair(Span::styled(s, figures(e)), Span::fixed(a.0, Style::bold(a.1)))
}

fn mem_cell(e: &BlameEntry, prev: Option<&BlameEntry>, total_ram: u64) -> (r: Cell)
    ensures
        r.deep_view() == e.deep_view().mem_cell(view_of(prev), total_ram),
{
    let share = memory_share(e.mem, total_ram);
    let mut s = text::pad_left(diagnose::fmt_bytes(e.mem).as_str(), 8);
    if share.at_least(Double::from_int(1)) {
        s.append(" (");
        s.append(text::pad_left(share.fixed0().as_str(), 2).as_str());
        s.append("%)");
    } else {
        s.append("      ");
    }
    let delta: i128 = match prev {
        Some(p) => signed_size(e.mem) - signed_size(p.mem),
        None => 0,
    };
    let a = delta_arrow_bytes(delta, 104_857_600);
    Cell::pair(Span::styled(s, figures(e)), Span::fixed(a.0, Style::bold(a.1)))
}

fn disk_cell(e: &BlameEntry) -> (r: Cell)
    ensures
        r.deep_view() == e.deep_view().disk_cell(),
{
    let t: String = if e.disk_bps.at_least(Double::from_int(1024)) {
        diagnose::fmt_bps(e.disk_bps)
    } else {
        "".to_owned()
    };
    let style = if e.disk_bps.at_least(Double::from_int(1_048_576)) {
        Style::bold(Color::Yellow)
    } else {
        Style::fg(Color::DarkGray)
    };
    Cell::of(text::pad_left(t.as_str(), 10).as_str(), style)
}

/// The row of an entry, whose guilt is `upper` in capitals.
pub fn entry_row(
    rank: usize,
    e: &BlameEntry,
    prev: Option<&BlameEntry>,
    history: &Vec<u8>,
    total_ram: u64,
    upper: &str,
) -> (r: Vec<Cell>)
    ensures
        r.deep_view() == e.deep_view().cells(
            rank as nat,
            view_of(prev),
            history@,
            total_ram,
            upper@,
        ),
{
    let trend = sparkline(history, 10, score_color(e.impact), e.impact >= 40);
    let mut cells: Vec<Cell> = Vec::new();
    cells.push(rank_cell(rank, e));
    cells.push(name_cell(e));
    cells.push(why_cell(e, upper));
    cells.push(cpu_cell(e, prev));
    cells.push(mem_cell(e, prev, total_ram));
    cells.push(disk_cell(e));
    cells.push(Cell { spans: trend, style: Style::plain() });
    proof {
        assert(cells.deep_view() =~= e.deep_view().cells(
            rank as nat,
            view_of(prev),
            history@,
            total_ram,
            upper@,
        ));
    }
    cells
}

/// The row of an entry on the Blameboard.
pub fn blame_entry_row(
    rank: usize,
    e: &BlameEntry,
    prev: Option<&BlameEntry>,
    history: &Vec<u8>,
    total_ram: u64,
) -> (r: Vec<Cell>)
    ensures
        r.deep_view() == e.deep_view().cells(
            rank as nat,
            view_of(prev),
            history@,
            total_ram,
            text::uppercase(e.why@),
        ),
{
    let upper: String = e.why.to_uppercase();
    entry_row(rank, e, prev, history, total_ram, upper.as_str())
}

// ---------------------------------------------------------------------------
// Advice
// ---------------------------------------------------------------------------

impl EntryView {
    /// What to do about an entry, whose guilt is `upper` in capitals.
    pub open spec fn advice(self, total_ram: u64, upper: Seq<char>) -> Seq<char> {
        let who = if self.count > 1 {
            self.name + " ("@ + decimal::dec(self.count as nat) + " processes)"@
        } else {
            self.name
        };
        if text::contains(upper, "MEM"@) {
            who + " is using "@ + mem_share(self.mem, total_ram).text0() + "% of RAM ("@
                + Double::bytes_text(self.mem) + "). Quitting it would free that memory."@
        } else if text::contains(upper, "DISK"@) {
            who + " is hammering disk at "@ + self.disk_bps.bps_text()
                + ". That can stall the whole system."@
        } else if text::contains(upper, "CPU"@) {
            who + " is consuming "@ + self.cpu.text1()
                + "% CPU. Killing or pausing it would free that compute."@
        } else {
            who + " is the top current load."@
        }
    }
}

/// What to do about an entry, whose guilt is `upper` in capitals.
pub fn hint_for(e: &BlameEntry, total_ram: u64, upper: &str) -> (r: String)
    ensures
        r@ == e.deep_view().advice(total_ram, upper@),
{
    let mut s = e.name.clone();
    if e.count > 1 {
        s.append(" (");
        s.append(decimal::decimal(e.count as u64).as_str());
        s.append(" processes)");
    }
    if text::has(upper, "MEM") {
        s.append(" is using ");
        s.append(memory_share(e.mem, total_ram).fixed0().as_str());
        s.append("% of RAM (");
        s.append(diagnose::fmt_bytes(e.mem).as_str());
        s.append("). Quitting it would free that memory.");
    } else if text::has(upper, "DISK") {
        s.append(" is hammering disk at ");
        s.append(diagnose::fmt_bps(e.disk_bps).as_str());
        s.append(". That can stall the whole system.");
    } else if text::has(upper, "CPU") {
        s.append(" is consuming ");
        s.append(e.cpu.fixed1().as_str());
        s.append("% CPU. Killing or pausing it would free that compute.");
    } else {
        s.append(" is the top current load.");
    }
    s
}

/// What to do about an entry.
pub fn build_action_hint(e: &BlameEntry, total_ram: u64) -> (r: String)
    ensures
        r@ == e.deep_view().advice(total_ram, text::uppercase(e.why@)),
{
    let upper: String = e.why.to_uppercase();
    hint_for(e, total_ram, upper.as_str())
}

// ---------------------------------------------------------------------------
// System load
// ---------------------------------------------------------------------------

/// The first `n` bytes of a text.
pub open spec fn first_bytes(s: Seq<char>, n: nat) -> Seq<char> {
    vstd::utf8::decode_utf8(vstd::utf8::encode_utf8(s).take(n as int))
}

/// A text can be cut after `n` bytes.
pub open spec fn cuttable(s: Seq<char>, n: nat) -> bool {
    vstd::utf8::is_char_boundary(vstd::utf8::encode_utf8(s), n as int)
}

/// A text of more than `max` bytes, cut after `keep` bytes and marked as cut.
pub open spec fn shortened(s: Seq<char>, max: nat, keep: nat) -> Seq<char> {
    if vstd::utf8::encode_utf8(s).len() > max {
        first_bytes(s, keep) + "…"@
    } else {
        s
    }
}

/// A text of more than `max` bytes, cut after `keep` bytes and marked as cut.
pub(crate) fn shorten(s: &str, max: usize, keep: usize) -> (r: String)
    requires
        vstd::utf8::encode_utf8(s@).len() > max ==> cuttable(s@, keep as nat),
    ensures
        r@ == shortened(s@, max as nat, keep as nat),
{
    if s.as_bytes().len() > max {
        let (head, _) = s.split_at(keep);
        proof {
            vstd::utf8::encode_utf8_decode_utf8(head@);
            let b = vstd::utf8::encode_utf8(s@);
            assert(b.subrange(0, keep as int) =~= b.take(keep as int));
        }
        let mut t: String = head.to_owned();
        t.append("…");
        t
    } else {
        s.to_owned()
    }
}

/// Whether a text, if it has more than `max` bytes, can be cut after `keep` bytes.
pub(crate) fn can_shorten(s: &str, max: usize, keep: usize) -> (r: bool)
    ensures
        r == (vstd::utf8::encode_utf8(s@).len() > max ==> cuttable(s@, keep as nat)),
{
    s.as_bytes().len() <= max || s.is_char_boundary(keep)
}

impl CulpritView {
    /// The detail can be cut to fit the collapsed panel.
    pub open spec fn compact(self) -> bool {
        vstd::utf8::encode_utf8(self.detail).len() > 30 ==> cuttable(self.detail, 29)
    }

    pub open spec fn short(self) -> Seq<char> {
        shortened(self.detail, 30, 29)
    }

    /// One row of the load panel.
    pub open spec fn load_line(self, bar_width: nat, history: Seq<u8>) -> LineView {
        let color = color_of(self.score);
        let raw_fill = (self.score * bar_width) as nat / 100;
        let filled = if raw_fill < bar_width {
            raw_fill
        } else {
            bar_width
        };
        let bold = Style::strong(color);
        let status = label_of(self.score);
        LineView::of(
            seq![
                SpanView::of("  "@ + text::left(self.label, 9), bold),
                SpanView::of(text::repeat('█', filled), Style::of(color)),
                SpanView::of(text::repeat('░', (bar_width - filled) as nat), Style::of(Color::DarkGray)),
                SpanView::raw("  "@),
                SpanView::of(text::right(decimal::dec(self.score as nat), 3), bold),
                SpanView::raw("  "@),
                SpanView::of(status.0 + " "@ + text::left(status.1, 8), bold),
                SpanView::raw("  "@),
            ] + spark(history, 8, color, self.score >= 40) + seq![
                SpanView::of("  "@ + self.detail, Style::of(Color::DarkGray)),
            ],
        )
    }
}

/// A compact representation of the detail.
pub fn short_metric(c: &Culprit) -> (r: String)
    requires
        c.deep_view().compact(),
    ensures
        r@ == c.deep_view().short(),
{
    shorten(c.detail.as_str(), 30, 29)
}

/// One row of the load panel.
pub fn load_row(c: &Culprit, bar_width: usize, history: &Vec<u8>) -> (r: Line)
    requires
        c.score * bar_width <= usize::MAX,
    ensures
        r.deep_view() == c.deep_view().load_line(bar_width as nat, history@),
{
    let color = score_color(c.score);
    proof {
        assert(c.score * bar_width >= 0) by (nonlinear_arith)
            requires
                0 <= c.score,
                0 <= bar_width,
        ;
    }
    let raw_fill: usize = (c.score as usize) * bar_width / 100;
    let filled: usize = if raw_fill < bar_width {
        raw_fill
    } else {
        bar_width
    };
    let empty: usize = bar_width - filled;
    let bold = Style::bold(color);
    let (icon, word) = status_label(c.score);
    let mut label = "  ".to_owned();
    label.append(text::pad_right(c.label, 9).as_str());
    let mut status = icon.to_owned();
    status.append(" ");
    status.append(text::pad_right(word, 8).as_str());
    let mut detail = "  ".to_owned();
    detail.append(c.detail.as_str());
    let mut trend = sparkline(history, 8, color, c.score >= 40);
    let ghost bars = trend.deep_view();
    let mut spans: Vec<Span> = Vec::new();
    spans.push(Span::styled(label, bold));
    spans.push(Span::styled(text::copies('█', filled), Style::fg(color)));
    spans.push(Span::styled(text::copies('░', empty), Style::fg(Color::DarkGray)));
    spans.push(Span::raw("  "));
    spans.push(
        Span::styled(text::pad_left(decimal::decimal(c.score as u64).as_str(), 3), bold),
    );
    spans.push(Span::raw("  "));
    spans.push(Span::styled(status, bold));
    spans.push(Span::raw("  "));
    let ghost head = spans.deep_view();
    spans.append(&mut trend);
    proof {
        assert(spans.deep_view() =~= head + bars);
    }
    spans.push(Span::styled(detail, Style::fg(Color::DarkGray)));
    proof {
        assert(spans.deep_view() =~= c.deep_view().load_line(bar_width as nat, history@).spans);
    }
    Line::of(spans)
}

// ---------------------------------------------------------------------------
// Actions
// ---------------------------------------------------------------------------

impl AvailabilityView {
    /// The tag of an action that will not reach everything; silence is the
    /// signal for the others.
    pub open spec fn tag(self) -> Option<(Color, Seq<char>)> {
        match self {
            AvailabilityView::AllOk | AvailabilityView::AlwaysOk => None,
            AvailabilityView::Partial { allowed, total } => Some(
                (
                    Color::Yellow,
                    decimal::dec(allowed) + "/"@ + decimal::dec(total)
                        + " PIDs reachable — sudo for the rest"@,
                ),
            ),
            AvailabilityView::Blocked { reason } => Some((Color::Red, reason)),
        }
    }
}

/// Map a computed Availability to an optional coloured dot + tag.
/// Returns `None` when the action would succeed: silence is the signal.
pub fn avail_indicator(a: Availability) -> (r: Option<(Color, String)>)
    ensures
        match r {
            Some(t) => Some((t.0, t.1@)),
            None => None,
        } == a.deep_view().tag(),
{
    match a {
        Availability::AllOk | Availability::AlwaysOk => None,
        Availability::Partial { allowed, total } => {
            let mut s = decimal::decimal(allowed as u64);
            s.append("/");
            s.append(decimal::decimal(total as u64).as_str());
            s.append(" PIDs reachable — sudo for the rest");
            Some((Color::Yellow, s))
        },
        Availability::Blocked { reason } => Some((Color::Red, reason.to_owned())),
    }
}

impl Action {
    /// What the action does, in one sentence.
    pub open spec fn sentence(self) -> Seq<char> {
        match self {
            Action::Stop =>
                "Pause the process in place (SIGSTOP). Memory state is preserved — resume with r."@,
            Action::Cont =>
                "Resume a previously paused process (SIGCONT); it continues where it left off."@,
            Action::Term =>
                "Ask the process to quit gracefully (SIGTERM, signal 15). It gets to flush files and settings."@,
            Action::Kill =>
                "Force-kill the process (SIGKILL, signal 9 — `kill -9`). No cleanup; may leave locks or temp files."@,
            Action::Int =>
                "Send SIGINT (signal 2) — same as pressing Ctrl-C. Usually aborts a CLI tool in the foreground."@,
            Action::Hup =>
                "Send SIGHUP (signal 1) — originally \"terminal closed\". Most daemons reload their config on this."@,
            Action::Usr1 =>
                "Send SIGUSR1 — app-defined meaning. Some apps dump state, rotate logs, or toggle debug."@,
            Action::Usr2 =>
                "Send SIGUSR2 — a second app-defined signal. Consult the app's documentation."@,
            Action::Nicer =>
                "Lower CPU priority (renice +10). The process keeps running but yields CPU to others."@,
            Action::Lsof =>
                "Dump open files and sockets (lsof) to /tmp/stop-lsof-<name>.txt for inspection."@,
            Action::OpenActivity =>
                "Open macOS Activity Monitor for a richer graphical view alongside stop."@,
            Action::Purge =>
                "Run macOS `purge` to flush cached inactive memory — often recovers a few GB of RAM."@,
        }
    }
}

/// What an action does. POSIX-standard signal numbers (HUP=1, INT=2, KILL=9,
/// TERM=15) are included inline. SIGSTOP/CONT/USR1/USR2 numbers differ between
/// Linux and macOS, so they are left out.
pub fn action_sentence(a: Action) -> (r: &'static str)
    ensures
        r@ == a.sentence(),
{
    match a {
        Action::Stop =>
            "Pause the process in place (SIGSTOP). Memory state is preserved — resume with r.",
        Action::Cont =>
            "Resume a previously paused process (SIGCONT); it continues where it left off.",
        Action::Term =>
            "Ask the process to quit gracefully (SIGTERM, signal 15). It gets to flush files and settings.",
        Action::Kill =>
            "Force-kill the process (SIGKILL, signal 9 — `kill -9`). No cleanup; may leave locks or temp files.",
        Action::Int =>
            "Send SIGINT (signal 2) — same as pressing Ctrl-C. Usually aborts a CLI tool in the foreground.",
        Action::Hup =>
            "Send SIGHUP (signal 1) — originally \"terminal closed\". Most daemons reload their config on this.",
        Action::Usr1 =>
            "Send SIGUSR1 — app-defined meaning. Some apps dump state, rotate logs, or toggle debug.",
        Action::Usr2 =>
            "Send SIGUSR2 — a second app-defined signal. Consult the app's documentation.",
        Action::Nicer =>
            "Lower CPU priority (renice +10). The process keeps running but yields CPU to others.",
        Action::Lsof =>
            "Dump open files and sockets (lsof) to /tmp/stop-lsof-<name>.txt for inspection.",
        Action::OpenActivity =>
            "Open macOS Activity Monitor for a richer graphical view alongside stop.",
        Action::Purge =>
            "Run macOS `purge` to flush cached inactive memory — often recovers a few GB of RAM.",
    }
}

// ---------------------------------------------------------------------------
// What holds of every widget
// ---------------------------------------------------------------------------

/// The filled and the empty part of a load bar are together as wide as the bar.
pub proof fn load_bars_keep_their_width(c: CulpritView, bar_width: nat, history: Seq<u8>)
    ensures
        c.load_line(bar_width, history).spans[1].text.len() + c.load_line(
            bar_width,
            history,
        ).spans[2].text.len() == bar_width,
        c.score >= 100 ==> c.load_line(bar_width, history).spans[2].text.len() == 0,
{
    if c.score >= 100 {
        assert(c.score * bar_width >= 100 * bar_width) by (nonlinear_arith)
            requires
                c.score >= 100,
        ;
    }
}

/// A sparkline is as wide as it was asked to be, however many scores there are.
pub proof fn sparklines_keep_their_width(
    history: Seq<u8>,
    width: nat,
    color: Color,
    is_culprit: bool,
)
    ensures
        ({
            let s = spark(history, width, color, is_culprit);
            ||| s.len() == 1 && s[0].text.len() == width
            ||| s.len() == 2 && s[0].text.len() + s[1].text.len() == width
        }),
{
}

/// The highest score of a sparkline has a full bar, and a score of zero the lowest.
pub proof fn the_peak_has_a_full_bar(peak: u8)
    requires
        peak > 0,
    ensures
        spark_char(level(peak, peak)) == '█',
        spark_char(level(0, peak)) == '▁',
{
    let f = crate::float::SINGLE_BINADE as nat;
    let one = Single::one();
    let p = peak as nat;
    lemma_pow2_pos(149);
    crate::exact::single_holds_integers(p);
    crate::exact::single_holds_integers(0);
    crate::exact::single_holds_integers(1);
    crate::exact::single_holds_integers(7);
    let top = Single::of(p);
    let d = p * one;
    assert(d >= 1) by (nonlinear_arith)
        requires
            p >= 1,
            one >= 1,
            d == p * one,
    ;
    assert(top.bits != 0) by {
        if top.bits == 0 {
            assert(crate::rounding::units(f, 0) == 0);
        }
    }
    // the peak by itself is one
    crate::rounding::lemma_round_scale(f, one, 1, d);
    assert(top.units() * one == one * d) by (nonlinear_arith)
        requires
            top.units() == d,
    ;
    assert(1 * d == d);
    assert(1 * one == one);
    let ratio = top.over(top);
    assert(ratio == Single::of(1));
    // seven times one is seven
    let seven = Single::of(7);
    crate::rounding::lemma_round_scale(f, 7 * one, 1, one);
    assert(ratio.units() * seven.units() == (7 * one) * one) by (nonlinear_arith)
        requires
            ratio.units() == one,
            seven.units() == 7 * one,
    ;
    assert(ratio.times(seven) == seven);
    assert(2 * (7 * one) + one == 7 * (2 * one) + one) by (nonlinear_arith);
    lemma_fundamental_div_mod_converse(
        (2 * (7 * one) + one) as int,
        (2 * one) as int,
        7,
        one as int,
    );
    assert(level(peak, peak) == 7);
    // zero stays zero
    let zero = Single::of(0);
    assert(0 * one == 0) by (nonlinear_arith);
    crate::rounding::lemma_units_order(f, 0, zero.bits as nat);
    assert(crate::rounding::units(f, 0) == 0);
    assert(zero.bits == 0);
    crate::rounding::round_keeps(f, 0, d);
    crate::rounding::round_keeps(f, 0, one);
    assert(0 * d == 0) by (nonlinear_arith);
    assert(zero.over(top).bits == 0);
    assert(0 * seven.units() == 0) by (nonlinear_arith);
    assert(zero.over(top).times(seven).bits == 0);
    assert(one / (2 * one) == 0) by {
        lemma_fundamental_div_mod_converse(one as int, (2 * one) as int, 0, one as int);
    }
    assert(level(0, peak) == 0);
}

/// A time is told in its two largest units: days and hours, hours and minutes, minutes
/// and seconds, or seconds alone.
pub proof fn uptimes_are_told_in_two_units(d: nat, h: nat, m: nat, s: nat, secs: u64)
    requires
        h < 24,
        m < 60,
        s < 60,
        secs == d * 86_400 + h * 3_600 + m * 60 + s,
    ensures
        d > 0 ==> uptime(secs) == decimal::dec(d) + "d "@ + decimal::dec(h) + "h"@,
        d == 0 && h > 0 ==> uptime(secs) == decimal::dec(h) + "h "@ + decimal::dec(m) + "m"@,
        d == 0 && h == 0 && m > 0 ==> uptime(secs) == decimal::dec(m) + "m "@ + decimal::dec(s)
            + "s"@,
        d == 0 && h == 0 && m == 0 ==> uptime(secs) == decimal::dec(s) + "s"@,
{
    assert(secs / 86_400 == d);
    assert((secs % 86_400) / 3600 == h);
    assert((secs % 3600) / 60 == m);
    assert(secs % 60 == s);
}

/// Up where a whole share of CPU grew by 5 points or more, down where it fell by as many,
/// and nothing in between.
pub proof fn cpu_arrows_point_at_the_change(before: nat, after: nat)
    requires
        before < 0x10_0000,
        after < 0x10_0000,
    ensures
        ({
            let a = cpu_arrow(Single::of(before), Single::of(after), 5);
            &&& after >= before + 5 ==> a.0 == " ↑"@ && a.1 == Color::Red
            &&& before >= after + 5 ==> a.0 == " ↓"@ && a.1 == Color::Green
            &&& after < before + 5 && before < after + 5 ==> a.0 == "  "@
        }),
{
    let one = Single::one();
    crate::exact::single_holds_integers(before);
    crate::exact::single_holds_integers(after);
    crate::exact::single_integers_are_integers(after, before);
    let apart: nat = if after >= before {
        (after - before) as nat
    } else {
        (before - after) as nat
    };
    crate::exact::single_integers_are_integers(apart, 5);
    assert(after >= before ==> after * one - before * one == apart * one) by (nonlinear_arith)
        requires
            after >= before ==> apart == after - before,
    ;
    assert(before >= after ==> before * one - after * one == apart * one) by (nonlinear_arith)
        requires
            before >= after ==> apart == before - after,
    ;
    assert(after >= before ==> after * one >= before * one) by (nonlinear_arith);
    assert(before > after ==> before * one > after * one) by (nonlinear_arith)
        requires
            one >= 1,
    ;
    assert(Single::of(after).apart(Single::of(before)) == Single::of(apart));
}

/// Up where memory grew by 100 MiB or more, down where it fell by as much, and nothing in
/// between; nothing either where the program was not there before.
pub proof fn memory_arrows_point_at_the_change(e: EntryView, before: EntryView, total_ram: u64)
    requires
        e.mem < 0x8000_0000_0000_0000,
        before.mem < 0x8000_0000_0000_0000,
    ensures
        ({
            let a = e.mem_cell(Some(before), total_ram).spans[1].text;
            &&& e.mem >= before.mem + 104_857_600 ==> a == " ↑"@
            &&& before.mem >= e.mem + 104_857_600 ==> a == " ↓"@
            &&& e.mem < before.mem + 104_857_600 && before.mem < e.mem + 104_857_600 ==> a == "  "@
        }),
        e.mem_cell(None, total_ram).spans[1].text == "  "@,
        e.cpu_cell(None).spans[1].text == "  "@,
        e.cpu_cell(Some(before)).spans[1].text == cpu_arrow(before.cpu, e.cpu, 5).0,
{
}

/// A row tells of its entry: its rank where it is a culprit, its name and how many
/// processes it has, its own shares of CPU and memory, its disk rate from 1 KiB/s on, and
/// its own trend.
pub proof fn rows_tell_of_their_entry(
    e: EntryView,
    rank: nat,
    prev: Option<EntryView>,
    history: Seq<u8>,
    total_ram: u64,
    upper: Seq<char>,
)
    ensures
        ({
            let cells = e.cells(rank, prev, history, total_ram, upper);
            let share = Double::of(e.mem as nat).over(Double::of(total_ram as nat)).times(
                Double::of(100),
            );
            &&& cells.len() == 7
            &&& e.impact < 40 ==> cells[0].spans[0].text == " · "@ && cells[2].spans[0].text == ""@
            &&& e.impact >= 40 && rank == 1 ==> cells[0].spans[0].text == "▶ 1 "@
            &&& e.impact >= 40 && rank > 1 ==> cells[0].spans[0].text == text::right(
                decimal::dec(rank),
                2,
            ) + " "@
            &&& e.count <= 1 ==> cells[1].spans[0].text == e.name
            &&& e.count > 1 ==> cells[1].spans[0].text == e.name + " ("@ + decimal::dec(
                e.count as nat,
            ) + ")"@
            &&& e.impact >= 40 ==> cells[2].spans[0].text == upper
            &&& cells[3].spans[0].text == text::right(e.cpu.text1(), 5) + "%"@
            &&& cells[3].spans[0].style.bold == (e.impact >= 40)
            &&& cells[4].spans[0].style.bold == (e.impact >= 40)
            &&& cells[3] == e.cpu_cell(prev)
            &&& cells[4] == e.mem_cell(prev, total_ram)
            &&& total_ram > 0 && share.units() >= Double::one() ==> cells[4].spans[0].text
                == text::right(Double::bytes_text(e.mem), 8) + " ("@ + text::right(
                share.text0(),
                2,
            ) + "%)"@
            &&& total_ram == 0 || share.units() < Double::one() ==> cells[4].spans[0].text
                == text::right(Double::bytes_text(e.mem), 8) + "      "@
            &&& e.disk_bps.units() >= 1024 * Double::one() ==> cells[5].spans[0].text
                == text::right(e.disk_bps.bps_text(), 10)
            &&& e.disk_bps.units() < 1024 * Double::one() ==> cells[5].spans[0].text == text::right(
                ""@,
                10,
            )
            &&& cells[6].spans == spark(history, 10, color_of(e.impact), e.impact >= 40)
        }),
{
    crate::exact::double_holds_integers(1);
    crate::exact::double_holds_integers(1024);
    lemma_pow2_pos(1074);
    assert(crate::rounding::units(crate::float::DOUBLE_BINADE as nat, 0) == 0);
    assert(1 * Double::one() == Double::one());
}

/// Scores from 70 on are critical and red, from 40 on moderate and yellow, and all right
/// and green below.
pub proof fn scores_are_told_by_three_words(score: u8)
    ensures
        label_of(score).1 == if score >= 70 {
            "CRITICAL"@
        } else if score >= 40 {
            "MODERATE"@
        } else {
            "OK"@
        },
        color_of(score) == if score >= 70 {
            Color::Red
        } else if score >= 40 {
            Color::Yellow
        } else {
            Color::Green
        },
{
}

proof fn lemma_peak(scores: Seq<u8>)
    ensures
        peak(scores) >= 1,
        forall|k: int| 0 <= k < scores.len() ==> #[trigger] scores[k] <= peak(scores),
        peak(scores) == 1 || scores.contains(peak(scores)),
    decreases scores.len(),
{
    if scores.len() > 0 {
        let rest = scores.drop_last();
        lemma_peak(rest);
        let last = scores.len() - 1;
        assert forall|k: int| 0 <= k < scores.len() implies #[trigger] scores[k] <= peak(
            scores,
        ) by {
            if k < last {
                assert(rest[k] == scores[k]);
            }
        }
        if scores[last] > peak(rest) {
            assert(scores[last] == peak(scores));
        } else if peak(rest) != 1 {
            let k = choose|k: int| 0 <= k < rest.len() && rest[k] == peak(rest);
            assert(scores[k] == peak(scores));
        }
    }
}

/// A sparkline has one bar for each of the latest scores, the newest last, measured
/// against the highest of those that are shown; what room is left is blank, at the left.
pub proof fn sparklines_show_the_latest_scores(
    history: Seq<u8>,
    width: nat,
    color: Color,
    is_culprit: bool,
)
    requires
        history.len() > 0,
        width > 0,
    ensures
        ({
            let n = if history.len() < width {
                history.len()
            } else {
                width
            };
            let shown = history.subrange(history.len() - n, history.len() as int);
            let s = spark(history, width, color, is_culprit);
            let bars = s.last().text;
            &&& bars.len() == n
            &&& forall|k: int|
                0 <= k < n ==> #[trigger] bars[k] == spark_char(level(shown[k], peak(shown)))
            &&& forall|k: int| 0 <= k < n ==> #[trigger] shown[k] <= peak(shown)
            &&& peak(shown) == 1 || shown.contains(peak(shown))
            &&& n < width ==> s.len() == 2 && s[0].text == text::repeat(' ', (width - n) as nat)
            &&& n == width ==> s.len() == 1
        }),
{
    let n = if history.len() < width {
        history.len()
    } else {
        width
    };
    let shown = history.subrange(history.len() - n, history.len() as int);
    assert(state::last_of(history, width) =~= shown);
    lemma_peak(shown);
}

/// A row of the load panel tells of its subsystem: its label, a bar of as many hundredths
/// as it scores, the score itself and its detail.
pub proof fn load_rows_tell_of_their_subsystem(c: CulpritView, bar_width: nat, history: Seq<u8>)
    requires
        c.score <= 100,
    ensures
        ({
            let spans = c.load_line(bar_width, history).spans;
            &&& spans.len() >= 9
            &&& spans[0].text == "  "@ + text::left(c.label, 9)
            &&& 100 * spans[1].text.len() <= c.score * bar_width < 100 * (spans[1].text.len() + 1)
            &&& forall|k: int| 0 <= k < spans[1].text.len() ==> #[trigger] spans[1].text[k] == '█'
            &&& forall|k: int| 0 <= k < spans[2].text.len() ==> #[trigger] spans[2].text[k] == '░'
            &&& spans[4].text == text::right(decimal::dec(c.score as nat), 3)
            &&& spans[0].style.fg == Some(color_of(c.score))
            &&& spans[1].style.fg == Some(color_of(c.score))
            &&& spans[4].style.fg == Some(color_of(c.score))
            &&& spans[6].style.fg == Some(color_of(c.score))
            &&& spans[6].text == label_of(c.score).0 + " "@ + text::left(label_of(c.score).1, 8)
            &&& spans.last().text == "  "@ + c.detail
            &&& spans.subrange(8, spans.len() - 1) == spark(
                history,
                8,
                color_of(c.score),
                c.score >= 40,
            )
        }),
{
    let spans = c.load_line(bar_width, history).spans;
    let trend = spark(history, 8, color_of(c.score), c.score >= 40);
    let fill = (c.score * bar_width) as nat;
    lemma_fundamental_div_mod(fill as int, 100);
    assert(fill <= 100 * bar_width) by (nonlinear_arith)
        requires
            fill == c.score * bar_width,
            c.score <= 100,
    ;
    assert(spans.subrange(8, spans.len() - 1) =~= trend);
}

/// The advice on a program tells what it is guilty of: memory first, then disk use, then
/// CPU use, each with the program's own figure.
pub proof fn advice_tells_the_guilt(e: EntryView, total_ram: u64, upper: Seq<char>)
    requires
        e.count == 1,
        total_ram > 0,
    ensures
        ({
            let share = Double::of(e.mem as nat).over(Double::of(total_ram as nat)).times(
                Double::of(100),
            ).text0();
            let mem = text::contains(upper, "MEM"@);
            let disk = text::contains(upper, "DISK"@);
            let cpu = text::contains(upper, "CPU"@);
            &&& mem ==> e.advice(total_ram, upper) == e.name + " is using "@ + share + "% of RAM ("@
                + Double::bytes_text(e.mem) + "). Quitting it would free that memory."@
            &&& !mem && disk ==> e.advice(total_ram, upper) == e.name + " is hammering disk at "@
                + e.disk_bps.bps_text() + ". That can stall the whole system."@
            &&& !mem && !disk && cpu ==> e.advice(total_ram, upper) == e.name + " is consuming "@
                + e.cpu.text1() + "% CPU. Killing or pausing it would free that compute."@
            &&& !mem && !disk && !cpu ==> e.advice(total_ram, upper) == e.name
                + " is the top current load."@
            // several processes are told of as such, and nothing else changes
            &&& forall|n: usize|
                n > 1 ==> (#[trigger] (EntryView { count: n, ..e }).advice(total_ram, upper))
                    == e.name + " ("@ + decimal::dec(n as nat) + " processes)"@ + e.advice(
                    total_ram,
                    upper,
                ).skip(e.name.len() as int)
        }),
{
    assert forall|n: usize| n > 1 implies (#[trigger] (EntryView { count: n, ..e }).advice(
        total_ram,
        upper,
    )) == e.name + " ("@ + decimal::dec(n as nat) + " processes)"@ + e.advice(
        total_ram,
        upper,
    ).skip(e.name.len() as int) by {
        let many = EntryView { count: n, ..e };
        assert(many.advice(total_ram, upper) =~= e.name + " ("@ + decimal::dec(n as nat)
            + " processes)"@ + e.advice(total_ram, upper).skip(e.name.len() as int));
    }
}

/// A higher score has no lower bar, measured against the same peak.
pub proof fn higher_scores_have_no_lower_bars(a: u8, b: u8, peak: u8)
    requires
        a <= b,
        peak > 0,
    ensures
        level(a, peak) <= level(b, peak),
{
    let f = crate::float::SINGLE_BINADE as nat;
    let one = Single::one();
    lemma_pow2_pos(149);
    crate::exact::single_holds_integers(a as nat);
    crate::exact::single_holds_integers(b as nat);
    crate::exact::single_holds_integers(peak as nat);
    crate::exact::single_holds_integers(7);
    crate::exact::lemma_single_of_is_finite(peak as nat);
    let p = Single::of(peak as nat);
    let x = Single::of(a as nat).over(p);
    let y = Single::of(b as nat).over(p);
    let d = peak as nat * one;
    let m = a as nat * one;
    let n = b as nat * one;
    assert(d >= 1) by (nonlinear_arith)
        requires
            d == peak as nat * one,
            peak >= 1,
            one >= 1,
    ;
    assert((m * one) * d <= (n * one) * d) by (nonlinear_arith)
        requires
            m == a as nat * one,
            n == b as nat * one,
            a <= b,
    ;
    crate::rounding::round_is_monotone(f, m * one, d, n * one, d);
    assert(x.bits <= y.bits);
    crate::rounding::lemma_units_order(f, x.bits as nat, y.bits as nat);
    let s = 7 * one;
    assert((x.units() * s) * one <= (y.units() * s) * one) by (nonlinear_arith)
        requires
            x.units() <= y.units(),
    ;
    crate::rounding::round_is_monotone(f, x.units() * s, one, y.units() * s, one);
    let u = x.times(Single::of(7));
    let v = y.times(Single::of(7));
    assert(u.bits <= v.bits);
    crate::rounding::lemma_units_order(f, u.bits as nat, v.bits as nat);
    lemma_div_is_ordered(
        (2 * u.units() + one) as int,
        (2 * v.units() + one) as int,
        (2 * one) as int,
    );
}

/// A text that is too long is told by how it begins, up to so many bytes, with a mark that
/// it was cut; another is told as it is.
pub proof fn cut_texts_begin_alike(s: Seq<char>, max: nat, keep: nat)
    requires
        keep <= max,
    ensures
        vstd::utf8::encode_utf8(s).len() <= max ==> shortened(s, max, keep) == s,
        vstd::utf8::encode_utf8(s).len() > max && cuttable(s, keep) ==> exists|n: int|
            0 <= n <= s.len() && vstd::utf8::encode_utf8(#[trigger] s.take(n)).len() == keep
                && shortened(s, max, keep) == s.take(n) + "…"@,
{
    if vstd::utf8::encode_utf8(s).len() > max && cuttable(s, keep) {
        let b = vstd::utf8::encode_utf8(s);
        vstd::utf8::encode_utf8_valid_utf8(s);
        vstd::utf8::encode_utf8_decode_utf8(s);
        vstd::utf8::decode_utf8_split(b, keep as int);
        vstd::utf8::valid_utf8_split(b, keep as int);
        let head = b.subrange(0, keep as int);
        assert(head =~= b.take(keep as int));
        vstd::utf8::decode_utf8_encode_utf8(head);
        let kept = first_bytes(s, keep);
        let n = kept.len() as int;
        assert(s.take(n) =~= kept);
    }
}

/// A share of CPU that changed by 5 points or more has an arrow that points the way it
/// went, and one that changed by 4 or less has none.
pub proof fn large_changes_have_an_arrow(before: Single, after: Single)
    requires
        before.bits < crate::float::SINGLE_INFINITY,
        after.bits < crate::float::SINGLE_INFINITY,
    ensures
        ({
            let a = cpu_arrow(before, after, 5).0;
            let one = Single::one();
            &&& after.units() >= before.units() + 5 * one ==> a == " ↑"@
            &&& before.units() >= after.units() + 5 * one ==> a == " ↓"@
            &&& after.units() <= before.units() + 4 * one && before.units() <= after.units() + 4
                * one ==> a == "  "@
        }),
{
    let f = crate::float::SINGLE_BINADE as nat;
    let one = Single::one();
    lemma_pow2_pos(149);
    crate::exact::single_holds_integers(5);
    crate::exact::single_holds_integers(4);
    let u = after.units();
    let v = before.units();
    let d: nat = if u >= v {
        (u - v) as nat
    } else {
        (v - u) as nat
    };
    let apart = after.apart(before);
    if d >= 5 * one {
        crate::rounding::round_is_monotone(f, 5 * one, 1, d, 1);
        crate::rounding::lemma_units_order(f, Single::of(5).bits as nat, apart.bits as nat);
    }
    if d <= 4 * one {
        crate::rounding::round_is_monotone(f, d, 1, 4 * one, 1);
        crate::rounding::lemma_units_order(f, apart.bits as nat, Single::of(4).bits as nat);
    }
}

/// The sentence on an action names the signal that it sends, or the command that it runs.
pub proof fn sentences_name_what_is_done(action: Action)
    ensures
        text::contains(
            action.sentence(),
            match action {
                Action::Term => "SIGTERM"@,
                Action::Kill => "SIGKILL"@,
                Action::Stop => "SIGSTOP"@,
                Action::Cont => "SIGCONT"@,
                Action::Int => "SIGINT"@,
                Action::Hup => "SIGHUP"@,
                Action::Usr1 => "SIGUSR1"@,
                Action::Usr2 => "SIGUSR2"@,
                Action::Nicer => "renice +10"@,
                Action::Lsof => "(lsof)"@,
                Action::OpenActivity => "Activity Monitor"@,
                Action::Purge => "`purge`"@,
            },
        ),
{
    match action {
        Action::Term => {
            reveal_strlit("Ask the process to quit gracefully (SIGTERM, signal 15). It gets to flush files and settings.");
            reveal_strlit("SIGTERM");
            assert(action.sentence().subrange(36, 43) =~= "SIGTERM"@);
            assert(text::stands_at(action.sentence(), "SIGTERM"@, 36));
        },
        Action::Kill => {
            reveal_strlit("Force-kill the process (SIGKILL, signal 9 — `kill -9`). No cleanup; may leave locks or temp files.");
            reveal_strlit("SIGKILL");
            assert(action.sentence().subrange(24, 31) =~= "SIGKILL"@);
            assert(text::stands_at(action.sentence(), "SIGKILL"@, 24));
        },
        Action::Stop => {
            reveal_strlit("Pause the process in place (SIGSTOP). Memory state is preserved — resume with r.");
            reveal_strlit("SIGSTOP");
            assert(action.sentence().subrange(28, 35) =~= "SIGSTOP"@);
            assert(text::stands_at(action.sentence(), "SIGSTOP"@, 28));
        },
        Action::Cont => {
            reveal_strlit("Resume a previously paused process (SIGCONT); it continues where it left off.");
            reveal_strlit("SIGCONT");
            assert(action.sentence().subrange(36, 43) =~= "SIGCONT"@);
            assert(text::stands_at(action.sentence(), "SIGCONT"@, 36));
        },
        Action::Int => {
            reveal_strlit("Send SIGINT (signal 2) — same as pressing Ctrl-C. Usually aborts a CLI tool in the foreground.");
            reveal_strlit("SIGINT");
            assert(action.sentence().subrange(5, 11) =~= "SIGINT"@);
            assert(text::stands_at(action.sentence(), "SIGINT"@, 5));
        },
        Action::Hup => {
            reveal_strlit("Send SIGHUP (signal 1) — originally \"terminal closed\". Most daemons reload their config on this.");
            reveal_strlit("SIGHUP");
            assert(action.sentence().subrange(5, 11) =~= "SIGHUP"@);
            assert(text::stands_at(action.sentence(), "SIGHUP"@, 5));
        },
        Action::Usr1 => {
            reveal_strlit("Send SIGUSR1 — app-defined meaning. Some apps dump state, rotate logs, or toggle debug.");
            reveal_strlit("SIGUSR1");
            assert(action.sentence().subrange(5, 12) =~= "SIGUSR1"@);
            assert(text::stands_at(action.sentence(), "SIGUSR1"@, 5));
        },
        Action::Usr2 => {
            reveal_strlit("Send SIGUSR2 — a second app-defined signal. Consult the app's documentation.");
            reveal_strlit("SIGUSR2");
            assert(action.sentence().subrange(5, 12) =~= "SIGUSR2"@);
            assert(text::stands_at(action.sentence(), "SIGUSR2"@, 5));
        },
        Action::Nicer => {
            reveal_strlit("Lower CPU priority (renice +10). The process keeps running but yields CPU to others.");
            reveal_strlit("renice +10");
            assert(action.sentence().subrange(20, 30) =~= "renice +10"@);
            assert(text::stands_at(action.sentence(), "renice +10"@, 20));
        },
        Action::Lsof => {
            reveal_strlit("Dump open files and sockets (lsof) to /tmp/stop-lsof-<name>.txt for inspection.");
            reveal_strlit("(lsof)");
            assert(action.sentence().subrange(28, 34) =~= "(lsof)"@);
            assert(text::stands_at(action.sentence(), "(lsof)"@, 28));
        },
        Action::OpenActivity => {
            reveal_strlit("Open macOS Activity Monitor for a richer graphical view alongside stop.");
            reveal_strlit("Activity Monitor");
            assert(action.sentence().subrange(11, 27) =~= "Activity Monitor"@);
            assert(text::stands_at(action.sentence(), "Activity Monitor"@, 11));
        },
        Action::Purge => {
            reveal_strlit("Run macOS `purge` to flush cached inactive memory — often recovers a few GB of RAM.");
            reveal_strlit("`purge`");
            assert(action.sentence().subrange(10, 17) =~= "`purge`"@);
            assert(text::stands_at(action.sentence(), "`purge`"@, 10));
        },
    }
}

} // verus!
