use smart_top::actions::{Action, ActionResult, Platform, Task};
use smart_top::blameboard::BlameEntry;
use smart_top::diagnose::{Culprit, Report};
use smart_top::float::{Double, Single};
use smart_top::state::{
    finish_action, handle_key, initial_ms, move_selection, quits_splash, refresh_ms,
    run_selected_action, selectable, History, Key, Request, UiState, ViewMode,
};

fn entry(name: &str, impact: u8) -> BlameEntry {
    BlameEntry {
        name: name.to_string(),
        count: 1,
        cpu: Single { bits: 0 },
        mem: 0,
        disk_bps: Double { bits: 0 },
        impact,
        why: "cpu",
        max_uptime_secs: 0,
        cmd: String::new(),
        samples: vec![],
        all_pids: vec![11, 12],
        all_uids: vec![0, 0],
    }
}

fn culprit(label: &'static str, score: u8) -> Culprit {
    Culprit { label, score, detail: String::new(), blame_line: String::new() }
}

fn report(board: Vec<BlameEntry>, culprits: Vec<Culprit>) -> Report {
    Report {
        culprits,
        blameboard: board,
        top_cpu: vec![],
        top_mem: vec![],
        verdict: String::new(),
        total_mem: 0,
        sort_basis: "IMPACT",
    }
}

fn three() -> Report {
    report(vec![entry("a", 1), entry("b", 2), entry("c", 3)], vec![culprit("CPU", 10)])
}

fn chosen(state: &UiState) -> &str {
    match &state.selected_name {
        Some(n) => n.as_str(),
        None => "",
    }
}

#[test]
fn a_new_state_remembers_nothing() {
    let s = UiState::new(7, Some("ann".to_string()));
    assert!(s.selected_name.is_none());
    assert_eq!(s.mode, ViewMode::Dashboard);
    assert!(s.impact_history.is_empty());
    assert!(s.load_history.is_empty());
    assert!(s.prev_report.is_none());
    assert!(s.current_status(0).is_none());
    assert_eq!(s.current_uid, 7);
    assert!(!s.is_root());
    assert!(UiState::new(0, None).is_root());
}

#[test]
fn scores_are_remembered_by_name() {
    let mut s = UiState::new(0, None);
    s.ingest(&three());
    s.ingest(&report(vec![entry("b", 20), entry("d", 4)], vec![culprit("CPU", 30), culprit("DISK", 5)]));
    assert_eq!(History::scores(&s.impact_history, "a"), vec![1]);
    assert_eq!(History::scores(&s.impact_history, "b"), vec![2, 20]);
    assert_eq!(History::scores(&s.impact_history, "d"), vec![4]);
    assert_eq!(History::scores(&s.impact_history, "e"), Vec::<u8>::new());
    assert_eq!(History::scores(&s.load_history, "CPU"), vec![10, 30]);
    assert_eq!(History::scores(&s.load_history, "DISK"), vec![5]);
}

#[test]
fn only_the_last_24_scores_are_remembered() {
    let mut s = UiState::new(0, None);
    for i in 0..30u8 {
        s.ingest(&report(vec![entry("a", i)], vec![culprit("CPU", i + 50)]));
    }
    assert_eq!(History::scores(&s.impact_history, "a"), (6..30u8).collect::<Vec<u8>>());
    assert_eq!(History::scores(&s.load_history, "CPU"), (56..80u8).collect::<Vec<u8>>());
    assert_eq!(s.impact_history.len(), 1);
}

#[test]
fn the_report_before_is_kept() {
    let mut s = UiState::new(0, None);
    let first = three();
    s.adopt(None, &first);
    assert!(s.prev_report.is_none());
    let second = report(vec![entry("z", 9)], vec![]);
    s.adopt(Some(first), &second);
    match &s.prev_report {
        Some(r) => assert_eq!(r.blameboard[0].name, "a"),
        None => panic!("the first report was expected"),
    }
    s.adopt(None, &three());
    assert!(s.prev_report.is_some());
    assert_eq!(History::scores(&s.impact_history, "a"), vec![1, 1]);
}

#[test]
fn the_first_entry_is_selected_at_the_start() {
    let mut s = UiState::new(0, None);
    s.select_first(&report(vec![], vec![]));
    assert!(s.selected_name.is_none());
    s.select_first(&three());
    assert_eq!(chosen(&s), "a");
    s.select_first(&report(vec![entry("z", 1)], vec![]));
    assert_eq!(chosen(&s), "a");
    assert_eq!(s.selected_entry(&three()), Some(0));
    assert_eq!(s.selected_entry(&report(vec![entry("z", 1)], vec![])), None);
    assert_eq!(s.target_entry(&report(vec![entry("z", 1)], vec![])), Some(0));
    assert_eq!(s.target_entry(&report(vec![], vec![])), None);
}

#[test]
fn the_selection_moves_within_the_visible_rows() {
    let r = three();
    let mut s = UiState::new(0, None);
    s.select_first(&r);
    move_selection(&mut s, &r, 3, 1);
    assert_eq!(chosen(&s), "b");
    move_selection(&mut s, &r, 3, 1);
    move_selection(&mut s, &r, 3, 1);
    assert_eq!(chosen(&s), "c");
    move_selection(&mut s, &r, 3, -1);
    assert_eq!(chosen(&s), "b");
    move_selection(&mut s, &r, 3, -9);
    assert_eq!(chosen(&s), "a");
    move_selection(&mut s, &r, 3, i32::MAX);
    assert_eq!(chosen(&s), "c");
    // the third row is out of sight now
    move_selection(&mut s, &r, 2, 1);
    assert_eq!(chosen(&s), "b");
    move_selection(&mut s, &r, 0, 1);
    assert_eq!(chosen(&s), "b");
    s.selected_name = Some("gone".to_string());
    move_selection(&mut s, &r, 3, 1);
    assert_eq!(chosen(&s), "b");
    move_selection(&mut s, &r, 10, 5);
    assert_eq!(chosen(&s), "b");
}

#[test]
fn up_takes_back_what_down_did() {
    let r = three();
    let mut s = UiState::new(0, None);
    s.select_first(&r);
    for _ in 0..2 {
        let row = s.selected_row(&r, 3);
        handle_key(Key::Down, false, &mut s, &r, 3, Platform::Other);
        assert_eq!(s.selected_row(&r, 3), row + 1);
        handle_key(Key::Up, false, &mut s, &r, 3, Platform::Other);
        assert_eq!(s.selected_row(&r, 3), row);
        handle_key(Key::Down, false, &mut s, &r, 3, Platform::Other);
    }
}

#[test]
fn keys_change_the_mode_and_quit() {
    let r = three();
    let mut s = UiState::new(0, None);
    let mut press = |s: &mut UiState, key: Key, ctrl: bool| handle_key(key, ctrl, s, &r, 3, Platform::Other);
    assert_eq!(press(&mut s, Key::Enter, false), Request::Stay);
    assert_eq!(s.mode, ViewMode::ProcessDetail);
    assert_eq!(press(&mut s, Key::Enter, false), Request::Stay);
    assert_eq!(s.mode, ViewMode::Dashboard);
    press(&mut s, Key::Enter, false);
    assert_eq!(press(&mut s, Key::Esc, false), Request::Stay);
    assert_eq!(s.mode, ViewMode::Dashboard);
    assert_eq!(press(&mut s, Key::Esc, false), Request::Quit);
    assert_eq!(press(&mut s, Key::Char('q'), false), Request::Quit);
    assert_eq!(press(&mut s, Key::Char('c'), true), Request::Quit);
    assert_eq!(press(&mut s, Key::Char('c'), false), Request::Stay);
    assert_eq!(press(&mut s, Key::Char('k'), false), Request::Run(Action::Term));
    assert_eq!(press(&mut s, Key::Char('K'), true), Request::Run(Action::Kill));
    assert_eq!(press(&mut s, Key::Char('m'), false), Request::Stay);
    assert_eq!(press(&mut s, Key::Other, false), Request::Stay);
    assert!(s.selected_name.is_none());
    press(&mut s, Key::Down, false);
    assert_eq!(chosen(&s), "b");
}

#[test]
fn the_splash_can_be_left() {
    assert!(quits_splash(Key::Char('q'), false));
    assert!(quits_splash(Key::Esc, false));
    assert!(quits_splash(Key::Char('c'), true));
    assert!(!quits_splash(Key::Char('c'), false));
    assert!(!quits_splash(Key::Enter, false));
    assert!(!quits_splash(Key::Char('k'), false));
}

#[test]
fn an_action_runs_on_the_selected_program() {
    let r = three();
    let mut s = UiState::new(0, None);
    s.selected_name = Some("b".to_string());
    match run_selected_action(Action::Lsof, &mut s, &r, Platform::Other, 5) {
        Some((i, Task::Lsof { pid_arg, path })) => {
            assert_eq!(i, 1);
            assert_eq!(pid_arg, "11,12");
            assert_eq!(path, "/tmp/stop-lsof-b.txt");
        }
        other => panic!("{:?}", other),
    }
    assert!(s.status.is_none());
    s.selected_name = None;
    assert!(matches!(run_selected_action(Action::Kill, &mut s, &r, Platform::Other, 5), Some((0, Task::Signal { .. }))));
    let empty = report(vec![], vec![]);
    assert!(run_selected_action(Action::Kill, &mut s, &empty, Platform::Other, 5).is_none());
    assert_eq!(s.current_status(6), Some(("No process selected", false)));
}

#[test]
fn an_outcome_is_shown_for_five_seconds() {
    let mut s = UiState::new(0, None);
    finish_action(&mut s, "vim", &ActionResult { ok: true, message: "done".to_string() }, 1_000);
    assert_eq!(s.current_status(1_000), Some(("vim: done", true)));
    assert_eq!(s.current_status(5_000_000_999), Some(("vim: done", true)));
    assert_eq!(s.current_status(5_000_001_000), None);
    s.set_status("no".to_string(), false, 9_000_000_000);
    assert_eq!(s.current_status(9_000_000_001), Some(("no", false)));
}

#[test]
fn the_refresh_adapts_to_the_worst_score() {
    let worst = |scores: Vec<u8>| report(vec![], scores.into_iter().map(|s| culprit("CPU", s)).collect());
    assert_eq!(refresh_ms(&worst(vec![10, 70, 20]), 2), 250);
    assert_eq!(refresh_ms(&worst(vec![69, 40]), 2), 1_000);
    assert_eq!(refresh_ms(&worst(vec![39]), 2), 2_000);
    assert_eq!(refresh_ms(&worst(vec![]), 5), 5_000);
    assert_eq!(refresh_ms(&worst(vec![39]), 0), 2_000);
    assert_eq!(refresh_ms(&worst(vec![39]), 1), 1_000);
    assert_eq!(initial_ms(0), 1_000);
    assert_eq!(initial_ms(1), 1_000);
    assert_eq!(initial_ms(3), 3_000);
}

#[test]
fn ten_programs_can_be_selected() {
    let many = |n: usize| report((0..n).map(|i| entry(&i.to_string(), 0)).collect(), vec![]);
    assert_eq!(selectable(&many(0)), 0);
    assert_eq!(selectable(&many(9)), 9);
    assert_eq!(selectable(&many(10)), 10);
    assert_eq!(selectable(&many(40)), 10);
}
