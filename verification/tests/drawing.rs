use smart_top::actions::{Action, Availability, Platform};
use smart_top::blameboard::BlameEntry;
use smart_top::collect::{CpuMetrics, DiskMetrics, MemMetrics, Metrics, NetMetrics, ProcSample};
use smart_top::diagnose::{diagnose, Culprit, Report};
use smart_top::display::{
    can_draw, dashboard_constraints, dashboard_panels, draw, draw_splash, load_collapsed,
    process_detail_constraints, process_detail_panels,
};
use smart_top::float::{Double, Single};
use smart_top::layout::{Area, Constraint};
use smart_top::panels::{
    action_line, colored, draw_action_hint, draw_actions_bar, draw_blameboard, draw_details, draw_footer,
    draw_process, draw_system_load, draw_system_load_collapsed, footer_constraints, in_short,
    process_lines, title_for, Body, Live, Panel,
};
use smart_top::state::{Status, UiState, ViewMode};
use smart_top::style::{Align, Color, Line, Span, Style};
use smart_top::widgets::{
    action_sentence, avail_indicator, blame_entry_row, build_action_hint, delta_arrow_bytes,
    delta_arrow_cpu, entry_row, fmt_uptime, hint_for, load_row, score_color, short_metric, sparkline,
    status_label, tag_color, Cell,
};

const GIB: u64 = 1_073_741_824;
const MIB: u64 = 1_048_576;

fn double(x: f64) -> Double {
    match Double::from_bits(x.to_bits()) {
        Some(d) => d,
        None => panic!("not a non-negative number: {}", x),
    }
}

fn single(x: f32) -> Single {
    match Single::from_bits(x.to_bits()) {
        Some(s) => s,
        None => panic!("not a non-negative number: {}", x),
    }
}

fn sample(pid: u32, mem: u64) -> ProcSample {
    ProcSample { pid, cpu: single(1.25), mem, disk_bps: double(2048.0) }
}

fn entry(name: &str, impact: u8) -> BlameEntry {
    BlameEntry {
        name: name.to_string(),
        count: 1,
        cpu: single(12.5),
        mem: 4 * GIB,
        disk_bps: double(0.0),
        impact,
        why: "CPU",
        max_uptime_secs: 3_700,
        cmd: "/bin/x --flag".to_string(),
        samples: vec![sample(42, 4 * GIB)],
        all_pids: vec![42],
        all_uids: vec![0],
    }
}

fn culprit(label: &'static str, score: u8, detail: &str) -> Culprit {
    Culprit { label, score, detail: detail.to_string(), blame_line: String::new() }
}

fn report(board: Vec<BlameEntry>, culprits: Vec<Culprit>) -> Report {
    Report {
        culprits,
        blameboard: board,
        top_cpu: vec![],
        top_mem: vec![],
        verdict: String::new(),
        total_mem: 16 * GIB,
        sort_basis: "IMPACT",
    }
}

fn area(width: u16, height: u16) -> Area {
    Area { x: 0, y: 0, width, height }
}

fn text(line: &Line) -> String {
    line.spans.iter().map(|s| s.text.as_str()).collect()
}

fn cell_text(cell: &Cell) -> String {
    cell.spans.iter().map(|s| s.text.as_str()).collect()
}

fn title(panel: &Panel) -> String {
    panel.title.iter().map(|s| s.text.as_str()).collect()
}

fn lines(panel: &Panel) -> Vec<String> {
    match &panel.body {
        Body::Text { lines, .. } => lines.iter().map(text).collect(),
        other => panic!("text was expected: {:?}", other),
    }
}

fn plain() -> Style {
    Style::plain()
}

fn live(reachable: Vec<bool>) -> Live {
    Live { platform: Platform::Other, now: 0, is_root: false, reachable }
}

#[test]
fn scores_have_a_color_and_a_label() {
    assert_eq!(score_color(70), Color::Red);
    assert_eq!(score_color(69), Color::Yellow);
    assert_eq!(score_color(40), Color::Yellow);
    assert_eq!(score_color(39), Color::Green);
    assert_eq!(status_label(70), ("✗", "CRITICAL"));
    assert_eq!(status_label(40), ("⚠", "MODERATE"));
    assert_eq!(status_label(0), ("✓", "OK"));
}

#[test]
fn uptimes_are_told_in_two_units() {
    assert_eq!(fmt_uptime(0), "0s");
    assert_eq!(fmt_uptime(59), "59s");
    assert_eq!(fmt_uptime(61), "1m 1s");
    assert_eq!(fmt_uptime(3_600), "1h 0m");
    assert_eq!(fmt_uptime(7_384), "2h 3m");
    assert_eq!(fmt_uptime(86_400), "1d 0h");
    assert_eq!(fmt_uptime(100_000), "1d 3h");
}

#[test]
fn changes_have_an_arrow() {
    assert_eq!(delta_arrow_cpu(single(10.0), single(14.9), 5), ("  ", Color::DarkGray));
    assert_eq!(delta_arrow_cpu(single(10.0), single(15.0), 5), (" ↑", Color::Red));
    assert_eq!(delta_arrow_cpu(single(15.0), single(10.0), 5), (" ↓", Color::Green));
    assert_eq!(delta_arrow_bytes(99, 100), ("  ", Color::DarkGray));
    assert_eq!(delta_arrow_bytes(-99, 100), ("  ", Color::DarkGray));
    assert_eq!(delta_arrow_bytes(100, 100), (" ↑", Color::Red));
    assert_eq!(delta_arrow_bytes(-100, 100), (" ↓", Color::Green));
}

fn bars(history: Vec<u8>, width: usize) -> String {
    sparkline(&history, width, Color::Red, true).iter().map(|s| s.text.as_str()).collect()
}

#[test]
fn sparklines_show_the_newest_scores() {
    assert_eq!(bars(vec![], 4), "    ");
    assert_eq!(bars(vec![5], 0), "");
    assert_eq!(bars(vec![0, 0], 2), "▁▁");
    assert_eq!(bars(vec![0, 50, 100], 5), "  ▁▅█");
    assert_eq!(bars(vec![100, 1, 2, 3, 4, 5, 6, 7], 7), "▂▃▄▅▆▇█");
    assert_eq!(bars(vec![1, 1], 2), "██");
}

#[test]
fn sparklines_agree_with_the_machine() {
    let chars: Vec<char> = "▁▂▃▄▅▆▇█".chars().collect();
    for peak in 1..=255u8 {
        for v in 0..=peak {
            let level = ((v as f32 / peak as f32) * 7.0f32).round() as usize;
            let wanted: String = vec![chars[level.min(7)], '█'].into_iter().collect();
            assert_eq!(bars(vec![v, peak], 2), wanted, "{} of {}", v, peak);
        }
    }
}

#[test]
fn sparklines_are_as_wide_as_asked() {
    for width in 0..12usize {
        for n in 0..15u8 {
            let history: Vec<u8> = (0..n).collect();
            assert_eq!(bars(history, width).chars().count(), width);
        }
    }
    let calm = sparkline(&vec![1], 2, Color::Red, false);
    assert_eq!(calm[0].text, " ");
    assert_eq!(calm[1].style, Style::fg(Color::DarkGray));
    assert_eq!(sparkline(&vec![1], 1, Color::Red, true)[0].style, Style::bold(Color::Red));
}

#[test]
fn a_culprit_has_a_full_row() {
    let mut e = entry("vim", 75);
    e.count = 3;
    e.disk_bps = double(3.0 * MIB as f64);
    let mut prev = entry("vim", 0);
    prev.cpu = single(2.0);
    prev.mem = 5 * GIB;
    let row = blame_entry_row(1, &e, Some(&prev), &vec![10, 75], 16 * GIB);
    let texts: Vec<String> = row.iter().map(cell_text).collect();
    assert_eq!(
        texts,
        vec!["▶ 1 ", "vim (3)", "CPU", " 12.5% ↑", "  4.0 GB (25%) ↓", "  3.0 MB/s", "        ▂█"]
    );
    let mut first = Style::bold(Color::Red);
    first.reversed = true;
    assert_eq!(row[0].spans[0].style, first);
    assert_eq!(row[1].style, Style::bold(Color::White));
    assert_eq!(row[2].style, Style::bold(Color::Cyan));
    assert_eq!(row[3].spans[1].style, Style::bold(Color::Red));
    assert_eq!(row[4].spans[1].style, Style::bold(Color::Green));
    assert_eq!(row[5].style, Style::bold(Color::Yellow));
}

#[test]
fn an_innocent_program_has_a_dim_row() {
    let mut e = entry("vim", 39);
    e.mem = 100 * MIB;
    let row = blame_entry_row(2, &e, None, &vec![], 16 * GIB);
    let texts: Vec<String> = row.iter().map(cell_text).collect();
    assert_eq!(texts, vec![" · ", "vim", "", " 12.5%  ", "  100 MB        ", "          ", "          "]);
    for i in vec![0usize, 1, 2, 5] {
        assert_eq!(row[i].style, Style::fg(Color::DarkGray));
    }
    let row = blame_entry_row(2, &entry("vim", 40), None, &vec![], 0);
    assert_eq!(cell_text(&row[0]), " 2 ");
    assert_eq!(row[0].style, Style::bold(Color::Yellow));
    assert_eq!(row[1].style, Style::bold(Color::Yellow));
    assert_eq!(cell_text(&row[4]), "  4.0 GB        ");
}

#[test]
fn guilt_is_shown_in_capitals() {
    let mut e = entry("vim", 50);
    e.why = "mem";
    let row = blame_entry_row(1, &e, None, &vec![], 0);
    assert_eq!(cell_text(&row[2]), "MEM");
    assert_eq!(row[2].style, Style::bold(Color::Magenta));
    let row = entry_row(1, &e, None, &vec![], 0, "NET");
    assert_eq!(cell_text(&row[2]), "NET");
    assert_eq!(row[2].style, Style::bold(Color::DarkGray));
    assert_eq!(tag_color("CPU+MEM"), Color::LightRed);
    assert_eq!(tag_color("CPU"), Color::Cyan);
    assert_eq!(tag_color("MEM"), Color::Magenta);
    assert_eq!(tag_color("DISK"), Color::Yellow);
    assert_eq!(tag_color("cpu"), Color::DarkGray);
}

#[test]
fn advice_fits_the_guilt() {
    let mut e = entry("vim", 50);
    e.disk_bps = double(2.0 * MIB as f64);
    assert_eq!(
        build_action_hint(&e, 16 * GIB),
        "vim is consuming 12.5% CPU. Killing or pausing it would free that compute."
    );
    e.why = "cpu+mem";
    e.count = 2;
    assert_eq!(
        build_action_hint(&e, 16 * GIB),
        "vim (2 processes) is using 25% of RAM (4.0 GB). Quitting it would free that memory."
    );
    assert_eq!(
        build_action_hint(&e, 0),
        "vim (2 processes) is using 0% of RAM (4.0 GB). Quitting it would free that memory."
    );
    assert_eq!(
        hint_for(&e, 0, "CPU+DISK"),
        "vim (2 processes) is hammering disk at 2.0 MB/s. That can stall the whole system."
    );
    assert_eq!(hint_for(&e, 0, ""), "vim (2 processes) is the top current load.");
}

#[test]
fn metrics_are_cut_to_thirty_bytes() {
    assert_eq!(short_metric(&culprit("CPU", 0, "123456789012345678901234567890")), "123456789012345678901234567890");
    assert_eq!(short_metric(&culprit("CPU", 0, "1234567890123456789012345678901")), "12345678901234567890123456789…");
}

#[test]
fn load_rows_have_a_bar() {
    let l = load_row(&culprit("CPU", 45, "busy"), 10, &vec![45]);
    assert_eq!(text(&l), "  CPU      ████░░░░░░   45  ⚠ MODERATE         █  busy");
    assert_eq!(l.spans[1].text.chars().count() + l.spans[2].text.chars().count(), 10);
    let l = load_row(&culprit("MEMORY", 0, "calm"), 8, &vec![]);
    assert_eq!(text(&l), "  MEMORY   ░░░░░░░░    0  ✓ OK                  calm");
    let l = load_row(&culprit("MEMORY", 255, "calm"), 8, &vec![]);
    assert_eq!(l.spans[1].text, "████████");
    assert_eq!(l.spans[2].text, "");
}

#[test]
fn unavailable_actions_say_why() {
    assert!(avail_indicator(Availability::AllOk).is_none());
    assert!(avail_indicator(Availability::AlwaysOk).is_none());
    assert_eq!(
        avail_indicator(Availability::Partial { allowed: 1, total: 3 }),
        Some((Color::Yellow, "1/3 PIDs reachable — sudo for the rest".to_string()))
    );
    assert_eq!(
        avail_indicator(Availability::Blocked { reason: "needs sudo" }),
        Some((Color::Red, "needs sudo".to_string()))
    );
}

#[test]
fn actions_are_explained() {
    for a in Action::menu(Platform::MacOs) {
        assert!(action_sentence(a).ends_with('.'));
    }
    assert_eq!(
        action_sentence(Action::Stop),
        "Pause the process in place (SIGSTOP). Memory state is preserved — resume with r."
    );
    let l = action_line(Action::Hup, Availability::AllOk);
    assert_eq!(
        text(&l),
        "   H   Send SIGHUP (signal 1) — originally \"terminal closed\". Most daemons reload their config on this."
    );
    let mut key = Style::bold(Color::Red);
    key.reversed = true;
    assert_eq!(l.spans[1].style, key);
    assert_eq!(l.spans[3].style, Style::fg(Color::White));
    let l = action_line(Action::Purge, Availability::Blocked { reason: "needs sudo" });
    assert!(text(&l).ends_with("GB of RAM.  ● needs sudo"));
    assert!(l.spans[1].style.dim && !l.spans[1].style.crossed_out);
    assert!(l.spans[3].style.dim && l.spans[3].style.crossed_out);
    assert_eq!(l.spans[5].style, Style::bold(Color::Red));
}

#[test]
fn colors_can_be_left_out() {
    let mut s = Style::bold(Color::Red);
    s.italic = true;
    let t = s.colorless();
    assert_eq!(t.fg, None);
    assert!(t.bold && t.italic);
}

#[test]
fn panels_without_colors_say_the_same() {
    let r = report(vec![entry("a", 80), entry("b", 20)], vec![]);
    let mut s = UiState::new(0, None);
    s.selected_name = Some("b".to_string());
    let board = || draw_blameboard(&r, &s, area(100, 10));
    let kept = colored(vec![board()], false);
    assert_eq!(format!("{:?}", kept), format!("{:?}", vec![board()]));
    let plain = colored(vec![board(), board()], true);
    assert_eq!(plain.len(), 2);
    for p in &plain {
        assert_eq!(title(p), title(&board()));
        assert!(p.title.iter().all(|s| s.style.fg.is_none()));
        assert_eq!((p.area, p.bordered), (board().area, board().bordered));
        match (&p.body, &board().body) {
            (
                Body::Table { header, rows, widths, highlight, selected },
                Body::Table { header: h, rows: old, widths: w, highlight: background, selected: at },
            ) => {
                assert!(background.is_some() && highlight.is_none());
                assert_eq!((selected, widths), (at, w));
                assert_eq!(
                    header.iter().map(cell_text).collect::<Vec<String>>(),
                    h.iter().map(cell_text).collect::<Vec<String>>()
                );
                assert_eq!(rows.len(), 2);
                let mut lost = 0;
                for (i, row) in rows.iter().enumerate() {
                    for (j, c) in row.iter().enumerate() {
                        assert_eq!(cell_text(c), cell_text(&old[i][j]));
                        assert_eq!(c.style, old[i][j].style.colorless());
                        for (k, part) in c.spans.iter().enumerate() {
                            assert_eq!(part.style, old[i][j].spans[k].style.colorless());
                            if old[i][j].spans[k].style.fg.is_some() {
                                lost += 1;
                            }
                        }
                    }
                }
                assert!(lost > 0);
            }
            other => panic!("tables were expected: {:?}", other),
        }
    }
    let details = draw_details(&r, &s, area(100, 10));
    let said = lines(&details);
    let plain = colored(vec![details], true);
    assert_eq!(lines(&plain[0]), said);
    match &plain[0].body {
        Body::Text { lines, .. } => {
            assert!(lines.iter().all(|l| l.spans.iter().all(|s| s.style.fg.is_none())));
            assert!(lines.iter().any(|l| !l.spans.is_empty()));
        }
        other => panic!("a text was expected: {:?}", other),
    }
}

#[test]
fn the_board_shows_what_has_room() {
    let r = report((0..20).map(|i| entry(&format!("p{}", i), 20)).collect(), vec![]);
    let mut s = UiState::new(0, None);
    s.selected_name = Some("p4".to_string());
    for (height, rows, selected) in vec![(0u16, 0usize, None), (3, 0, None), (4, 1, Some(0)), (8, 5, Some(4)), (40, 10, Some(4))] {
        let p = draw_blameboard(&r, &s, area(100, height));
        assert_eq!(title(&p), " BLAMEBOARD — who is making your computer slow ");
        assert!(p.bordered);
        match &p.body {
            Body::Table { header, rows: shown, widths, highlight, selected: at } => {
                let head: Vec<String> = header.iter().map(cell_text).collect();
                assert_eq!(head, vec![" # ", "Process", "Why", " CPU%", "  Memory", "  Disk", "Trend"]);
                assert_eq!(shown.len(), rows);
                assert_eq!(widths.len(), 7);
                assert_eq!(widths[6], Constraint::Fill(1));
                match highlight {
                    Some(c) => assert_eq!((c.red, c.green, c.blue), (50, 50, 80)),
                    None => panic!("a background was expected"),
                }
                assert_eq!(*at, selected);
            }
            other => panic!("a table was expected: {:?}", other),
        }
    }
}

#[test]
fn the_board_says_what_it_is_sorted_by() {
    assert_eq!(title_for("CPU", "cpu"), " BLAMEBOARD — sorted by CPU usage (the bottleneck) ");
    assert_eq!(title_for("MEMORY", "memory"), " BLAMEBOARD — sorted by memory use (the bottleneck) ");
    assert_eq!(title_for("DISK", "disk"), " BLAMEBOARD — sorted by disk I/O (the bottleneck) ");
    assert_eq!(title_for("OTHER", "x"), " BLAMEBOARD — sorted by x ");
    let mut r = report(vec![], vec![]);
    r.sort_basis = "NETWORK";
    let p = draw_blameboard(&r, &UiState::new(0, None), area(80, 10));
    assert_eq!(title(&p), " BLAMEBOARD — sorted by network ");
}

#[test]
fn the_board_shows_changes_and_trends() {
    let mut s = UiState::new(0, None);
    let mut before = report(vec![entry("a", 50), entry("a", 50)], vec![]);
    before.blameboard[1].cpu = single(99.0);
    s.adopt(Some(before), &report(vec![entry("a", 10)], vec![]));
    let p = draw_blameboard(&report(vec![entry("a", 50), entry("b", 1)], vec![]), &s, area(80, 10));
    match &p.body {
        Body::Table { rows, .. } => {
            assert_eq!(cell_text(&rows[0][3]), " 12.5% ↓");
            assert_eq!(cell_text(&rows[1][3]), " 12.5%  ");
            assert_eq!(cell_text(&rows[0][6]), "         █");
        }
        other => panic!("a table was expected: {:?}", other),
    }
}

#[test]
fn advice_is_given_on_the_first_culprit() {
    let r = report(vec![entry("a", 40)], vec![]);
    match draw_action_hint(&r, area(80, 1)) {
        Some(p) => {
            assert_eq!(
                lines(&p),
                vec!["  → a is consuming 12.5% CPU. Killing or pausing it would free that compute."]
            );
            assert!(!p.bordered);
        }
        None => panic!("advice was expected"),
    }
    assert!(draw_action_hint(&report(vec![entry("a", 39)], vec![]), area(80, 1)).is_none());
    assert!(draw_action_hint(&report(vec![], vec![]), area(80, 1)).is_none());
}

#[test]
fn details_are_those_of_the_target() {
    let mut e = entry("vim", 50);
    e.count = 9;
    e.samples = (1..8u32).map(|i| sample(i, GIB)).collect();
    let r = report(vec![entry("a", 1), e], vec![]);
    let mut s = UiState::new(0, None);
    s.selected_name = Some("vim".to_string());
    let p = draw_details(&r, &s, area(80, 11));
    assert_eq!(title(&p), " DETAILS: vim ");
    let l = lines(&p);
    assert_eq!(
        l[0],
        "  9 processes   RAM: 4.0 GB (25.0% of 16.0 GB)   CPU: 12.5%   Disk: idle   Up: 1h 1m"
    );
    assert_eq!(l[1], "  cmd:  /bin/x --flag");
    assert_eq!(l[2], "");
    assert_eq!(l[3], "  TOP PIDS BY MEMORY");
    assert_eq!(l[4], "          1      1.0 GB     1.2% CPU   2 KB/s");
    assert_eq!(l.len(), 10);
    assert_eq!(l[9], "    … and 4 more process(es) — press Enter to expand");
    s.selected_name = Some("gone".to_string());
    let p = draw_details(&r, &s, area(80, 11));
    assert_eq!(title(&p), " DETAILS: a ");
    assert_eq!(lines(&p).len(), 5);
    let p = draw_details(&report(vec![], vec![]), &s, area(80, 11));
    assert_eq!(title(&p), " DETAILS ");
    assert_eq!(lines(&p), vec!["  No process selected"]);
}

#[test]
fn command_lines_are_cut_to_the_panel() {
    let mut e = entry("vim", 50);
    e.cmd = "0123456789abcdef".to_string();
    let s = UiState::new(0, None);
    for (width, wanted) in vec![
        (28u16, "0123456789abcdef"),
        (27, "0123456789abcd…"),
        (14, "0…"),
        (13, "…"),
        (3, "…"),
    ] {
        let p = draw_details(&report(vec![e.clone()], vec![]), &s, area(width, 11));
        assert_eq!(lines(&p)[1], format!("  cmd:  {}", wanted), "{}", width);
    }
    e.cmd = String::new();
    let p = draw_details(&report(vec![e.clone()], vec![]), &s, area(80, 11));
    assert_eq!(lines(&p)[1], "  cmd:  (no command line available)");
    // a character of two bytes in the way
    e.cmd = "éééééééé".to_string();
    let r = report(vec![e], vec![]);
    assert!(can_draw(&r, &s, &live(vec![true]), 28));
    assert!(can_draw(&r, &s, &live(vec![true]), 27));
    assert!(!can_draw(&r, &s, &live(vec![true]), 26));
}

#[test]
fn the_process_detail_tells_everything() {
    let mut e = entry("vim", 50);
    e.why = "mem";
    e.count = 3;
    let r = report(vec![e.clone()], vec![]);
    let mut s = UiState::new(0, None);
    s.select_first(&r);
    let p = draw_process(&r, &s, area(80, 30));
    assert_eq!(title(&p), " PROCESS DETAIL: vim  (Esc / Enter to return) ");
    assert_eq!(
        lines(&p),
        vec![
            "  vim (3 processes)",
            "",
            "  Total RAM:    4.0 GB (25.0% of 16.0 GB)",
            "  Total CPU:    12.5%",
            "  Disk I/O:     idle",
            "  Oldest PID:   1h 1m",
            "  Why:          MEM",
            "",
            "  COMMAND LINE",
            "    /bin/x --flag",
            "",
            "  ALL PIDS",
            "          42      4.0 GB     1.2% CPU   2 KB/s",
            "    … 2 additional PIDs not sampled",
        ]
    );
    assert!(matches!(p.body, Body::Text { wrap: true, .. }));
    e.cmd = String::new();
    e.count = 1;
    let told = process_lines(&e, 0, "X");
    assert_eq!(text(&told[0]), "  vim (1 process)");
    assert_eq!(text(&told[6]), "  Why:          X");
    assert_eq!(text(&told[9]), "    (unavailable)");
    assert_eq!(told.len(), 13);
    s.selected_name = Some("gone".to_string());
    let p = draw_process(&r, &s, area(80, 30));
    assert_eq!(title(&p), " PROCESS DETAIL ");
    assert_eq!(lines(&p), vec!["  No process selected"]);
}

#[test]
fn load_is_shown_in_full_or_collapsed() {
    let r = report(vec![], vec![culprit("CPU", 50, "busy"), culprit("DISK", 1, "calm")]);
    let mut s = UiState::new(0, None);
    s.ingest(&r);
    let p = draw_system_load(&r, &s, area(60, 4));
    assert_eq!(title(&p), " SYSTEM LOAD ");
    assert_eq!(
        lines(&p),
        vec![
            "  CPU      ██████░░░░░░   50  ⚠ MODERATE         █  busy",
            "  DISK     ░░░░░░░░░░░░    1  ✓ OK               █  calm",
        ]
    );
    for (width, bar) in vec![(0u16, 8usize), (48, 8), (57, 9), (88, 40), (500, 40)] {
        let p = draw_system_load(&r, &s, area(width, 4));
        match &p.body {
            Body::Text { lines, .. } => {
                let n = lines[0].spans[1].text.chars().count() + lines[0].spans[2].text.chars().count();
                assert_eq!(n, bar);
            }
            other => panic!("text was expected: {:?}", other),
        }
    }
    let p = draw_system_load_collapsed(&r, area(60, 3));
    assert_eq!(lines(&p), vec!["  ✓ System load OK · cpu busy  ·  disk calm"]);
    assert_eq!(in_short(&culprit("CPU", 0, "busy"), "x"), "x busy");
    assert!(!load_collapsed(&r));
    assert!(load_collapsed(&report(vec![], vec![culprit("CPU", 39, "")])));
}

#[test]
fn the_footer_shows_the_keys_and_the_outcome() {
    let mut s = UiState::new(0, None);
    assert_eq!(footer_constraints(ViewMode::Dashboard), vec![Constraint::Fill(1), Constraint::Length(39)]);
    assert_eq!(footer_constraints(ViewMode::ProcessDetail), vec![Constraint::Fill(1), Constraint::Length(31)]);
    let p = draw_footer(&s, 0, area(10, 1), area(20, 1));
    assert_eq!(p.len(), 1);
    assert_eq!(lines(&p[0]), vec![" ↑/↓ inspect · Enter expand · q quit "]);
    assert_eq!(p[0].area, area(20, 1));
    match &p[0].body {
        Body::Text { lines, .. } => assert_eq!(lines[0].align, Align::Right),
        other => panic!("text was expected: {:?}", other),
    }
    s.status = Some(Status { message: "done".to_string(), at: 0, ok: true });
    s.mode = ViewMode::ProcessDetail;
    let p = draw_footer(&s, 1, area(10, 1), area(20, 1));
    assert_eq!(lines(&p[0]), vec!["  done"]);
    assert_eq!(p[0].area, area(10, 1));
    assert_eq!(lines(&p[1]), vec![" Esc / Enter return · q quit "]);
}

#[test]
fn the_actions_bar_names_target_and_user() {
    let r = report(vec![entry("vim", 50)], vec![]);
    let s = UiState::new(501, Some("ann".to_string()));
    let p = draw_actions_bar(&r, &s, &live(vec![true]), area(100, 13));
    assert_eq!(title(&p), " ACTIONS → vim (1 PID) ");
    let l = lines(&p);
    assert_eq!(l.len(), 11);
    assert_eq!(l[10], "ⓘ Running as ann (uid 501).");
    assert!(!l[0].contains('●'));
    let p = draw_actions_bar(&r, &s, &live(vec![false]), area(100, 13));
    assert!(lines(&p)[0].ends_with("● no permission"));
    let none = report(vec![], vec![]);
    let root = UiState::new(0, None);
    let live = Live { platform: Platform::MacOs, now: 0, is_root: true, reachable: vec![] };
    let p = draw_actions_bar(&none, &root, &live, area(100, 15));
    assert_eq!(title(&p), " ACTIONS → (no process selected) ");
    let l = lines(&p);
    assert_eq!(l.len(), 13);
    assert!(l[0].ends_with("● no PIDs"));
    assert!(!l[9].contains('●'));
    assert_eq!(l[12], "✓ Running as uid 0.");
}

#[test]
fn the_splash_is_centered() {
    let p = draw_splash(area(80, 24));
    assert_eq!(p.len(), 2);
    assert!(p[0].bordered);
    assert!(matches!(p[0].body, Body::Frame));
    assert_eq!(p[1].area, Area { x: 1, y: 9, width: 78, height: 5 });
    assert_eq!(
        lines(&p[1]),
        vec!["", "stop", "why is your computer slow?", "", "sampling system metrics, one moment…"]
    );
    assert_eq!(draw_splash(area(1, 4))[1].area, Area { x: 1, y: 0, width: 0, height: 2 });
}

#[test]
fn the_dashboard_asks_for_its_rows() {
    let calm = report(vec![entry("a", 39)], vec![culprit("CPU", 39, ""), culprit("DISK", 1, "")]);
    assert_eq!(
        dashboard_constraints(&calm, Platform::Other),
        vec![
            Constraint::Min(5),
            Constraint::Length(0),
            Constraint::Length(11),
            Constraint::Length(3),
            Constraint::Length(13),
            Constraint::Length(1),
        ]
    );
    let busy = report(vec![entry("a", 40)], vec![culprit("CPU", 40, ""), culprit("DISK", 1, "")]);
    assert_eq!(
        dashboard_constraints(&busy, Platform::MacOs),
        vec![
            Constraint::Min(5),
            Constraint::Length(1),
            Constraint::Length(11),
            Constraint::Length(4),
            Constraint::Length(15),
            Constraint::Length(1),
        ]
    );
    assert_eq!(process_detail_constraints(), vec![Constraint::Min(5), Constraint::Length(1)]);
}

#[test]
fn the_dashboard_fills_the_terminal() {
    let r = report(vec![entry("a", 50)], vec![culprit("CPU", 50, "busy")]);
    let s = UiState::new(1, None);
    let l = live(vec![true]);
    assert!(can_draw(&r, &s, &l, 100));
    let p = draw(&r, &s, &l, area(100, 50));
    let places: Vec<(u16, u16, u16, u16)> =
        p.iter().map(|p| (p.area.x, p.area.y, p.area.width, p.area.height)).collect();
    assert_eq!(
        places,
        vec![
            (0, 0, 100, 21),
            (0, 21, 100, 1),
            (0, 22, 100, 11),
            (0, 33, 100, 3),
            (0, 36, 100, 13),
            (61, 49, 39, 1),
        ]
    );
    let titles: Vec<String> = p.iter().map(title).collect();
    assert_eq!(
        titles,
        vec![
            " BLAMEBOARD — who is making your computer slow ",
            "",
            " DETAILS: a ",
            " SYSTEM LOAD ",
            " ACTIONS → a (1 PID) ",
            "",
        ]
    );
}

#[test]
fn a_quiet_dashboard_has_no_advice() {
    let r = report(vec![entry("a", 5)], vec![culprit("CPU", 5, "calm")]);
    let s = UiState::new(1, None);
    let p = draw(&r, &s, &live(vec![true]), area(100, 50));
    assert_eq!(p.len(), 5);
    assert_eq!(lines(&p[2]), vec!["  ✓ System load OK · cpu calm"]);
}

#[test]
fn panels_stand_where_they_are_put() {
    let r = report(vec![entry("a", 50)], vec![culprit("CPU", 50, "busy")]);
    let s = UiState::new(1, None);
    let rows: Vec<Area> = (0..6u16).map(|i| Area { x: 0, y: i, width: 60, height: 9 }).collect();
    let halves = vec![area(3, 1), area(4, 1)];
    let p = dashboard_panels(&r, &s, &live(vec![true]), &rows, &halves);
    let ys: Vec<u16> = p.iter().map(|p| p.area.y).collect();
    assert_eq!(ys, vec![0, 1, 2, 3, 4, 0]);
    assert_eq!(p[5].area, halves[1]);
    let p = process_detail_panels(&r, &s, 0, &vec![rows[0], rows[1]], &halves);
    assert_eq!(p.len(), 2);
    assert_eq!(title(&p[0]), " PROCESS DETAIL ");
}

#[test]
fn the_process_detail_fills_the_terminal() {
    let r = report(vec![entry("a", 50)], vec![]);
    let mut s = UiState::new(1, None);
    s.select_first(&r);
    s.mode = ViewMode::ProcessDetail;
    let p = draw(&r, &s, &live(vec![]), area(100, 50));
    assert_eq!(p.len(), 2);
    assert_eq!(p[0].area, area(100, 49));
    assert_eq!(p[1].area, Area { x: 69, y: 49, width: 31, height: 1 });
}

#[test]
fn panels_stay_on_the_screen() {
    let end = |start: u16, size: u16| start.saturating_add(size);
    let r = report(vec![entry("a", 50)], vec![culprit("CPU", 80, "busy"), culprit("DISK", 10, "idle")]);
    let mut s = UiState::new(1, None);
    s.select_first(&r);
    s.set_status("done".to_string(), true, 0);
    for mode in vec![ViewMode::Dashboard, ViewMode::ProcessDetail] {
        s.mode = mode;
        for (x, y) in vec![(0u16, 0u16), (3, 7), (u16::MAX - 20, u16::MAX - 9), (u16::MAX, u16::MAX)] {
            for height in vec![0u16, 1, 2, 5, 12, 24, 31, 50, 400, u16::MAX] {
                for width in vec![0u16, 1, 20, 41, 80, 300, u16::MAX] {
                    let whole = Area { x, y, width, height };
                    if !can_draw(&r, &s, &live(vec![true]), width) {
                        continue;
                    }
                    let panels = draw(&r, &s, &live(vec![true]), whole);
                    assert!(panels.len() >= 3);
                    for p in panels {
                        let a = p.area;
                        assert!(a.x >= x && end(a.x, a.width) <= end(x, width), "{:?} on {:?}", a, whole);
                        assert!(a.y >= y && end(a.y, a.height) <= end(y, height), "{:?} on {:?}", a, whole);
                    }
                }
            }
        }
    }
    for width in 1..90u16 {
        for height in 0..60u16 {
            for p in draw_splash(area(width, height)) {
                assert!(p.area.x + p.area.width <= width && p.area.y + p.area.height <= height);
            }
        }
    }
}

#[test]
fn what_cannot_be_drawn_is_known() {
    let s = UiState::new(1, None);
    let r = report(vec![entry("a", 50)], vec![culprit("CPU", 1, "éééééééééééééééé")]);
    assert!(!can_draw(&r, &s, &live(vec![true]), 100));
    let r = report(vec![entry("a", 50)], vec![culprit("CPU", 90, "éééééééééééééééé")]);
    assert!(can_draw(&r, &s, &live(vec![true]), 100));
    assert!(!can_draw(&r, &s, &live(vec![]), 100));
    let root = Live { platform: Platform::Other, now: 0, is_root: true, reachable: vec![] };
    assert!(can_draw(&r, &s, &root, 100));
    assert!(can_draw(&report(vec![], vec![]), &s, &live(vec![]), 100));
}

#[test]
fn pieces_of_text_keep_their_style() {
    let s = Span::fixed("x", Style::fg(Color::Red));
    assert_eq!((s.text.as_str(), s.style), ("x", Style::fg(Color::Red)));
    assert_eq!(Span::raw("y").style, plain());
    assert_eq!(Line::blank().spans.len(), 0);
    assert_eq!(Line::centered(s).align, Align::Center);
}

#[test]
fn every_diagnosis_can_be_drawn() {
    for rate in vec![0.0, 1.0e3, 1.0e9, 1.0e300] {
        let m = Metrics {
            cpu: CpuMetrics { usage_pct: single(5.0), load1: double(rate), logical_cores: 8 },
            mem: MemMetrics { total: 16 * GIB, used: GIB, swap_total: 0, swap_used: 1, swap_rate: u64::MAX },
            disk: DiskMetrics { read_bps: double(rate), write_bps: double(rate) },
            net: NetMetrics { rx_bps: double(rate), tx_bps: double(rate), errors: 1, drops: 2 },
            top_cpu: vec![],
            top_mem: vec![],
            top_disk: vec![],
        };
        let r = diagnose(&m);
        for width in 0..200u16 {
            assert!(can_draw(&r, &UiState::new(0, None), &live(vec![]), width));
        }
        let short: Vec<usize> = r.culprits.iter().map(|c| short_metric(c).chars().count()).collect();
        assert!(short.iter().all(|n| *n <= 30));
    }
}
