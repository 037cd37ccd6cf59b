use smart_top::actions::{Action, ActionResult, Platform, Task};
use smart_top::blameboard::BlameEntry;
use smart_top::diagnose::{Culprit, Report};
use smart_top::float::{Double, Single};
use smart_top::layout::Area;
use smart_top::panels::Live;
use smart_top::state::{History, Key};
use smart_top::watch::{Answer, Watch};

fn entry(name: &str, impact: u8) -> BlameEntry {
    BlameEntry {
        name: name.to_string(),
        count: 1,
        cpu: Single { bits: 0 },
        mem: 0,
        disk_bps: Double { bits: 0 },
        impact,
        why: "cpu",
        max_uptime_secs: 0,
        cmd: String::new(),
        samples: vec![],
        all_pids: vec![impact as u32],
        all_uids: vec![0],
    }
}

fn report(names: Vec<&str>, score: u8) -> Report {
    Report {
        culprits: vec![Culprit { label: "CPU", score, detail: String::new(), blame_line: String::new() }],
        blameboard: names.iter().map(|n| entry(n, score)).collect(),
        top_cpu: vec![],
        top_mem: vec![],
        verdict: String::new(),
        total_mem: 0,
        sort_basis: "IMPACT",
    }
}

fn watch() -> Watch {
    Watch::new(7, Some("ann".to_string()), 3)
}

fn shown(w: &Watch) -> u8 {
    match &w.report {
        Some(r) => r.culprits[0].score,
        None => panic!("a report was expected"),
    }
}

fn before(w: &Watch) -> Option<u8> {
    w.state.prev_report.as_ref().map(|r| r.culprits[0].score)
}

#[test]
fn reports_replace_each_other() {
    let mut w = watch();
    assert_eq!(w.receive(vec![]), None);
    assert!(w.report.is_none());
    assert_eq!(w.receive(vec![report(vec!["a"], 10)]), Some(3_000));
    assert_eq!((shown(&w), before(&w)), (10, None));
    assert_eq!(w.receive(vec![]), None);
    assert_eq!((shown(&w), before(&w)), (10, None));
    assert_eq!(w.receive(vec![report(vec!["a"], 80), report(vec!["a"], 50)]), Some(1_000));
    assert_eq!((shown(&w), before(&w)), (50, Some(80)));
    assert_eq!(w.receive(vec![report(vec!["a"], 70)]), Some(250));
    assert_eq!((shown(&w), before(&w)), (70, Some(50)));
    assert_eq!(History::scores(&w.state.impact_history, "a"), vec![10, 80, 50, 70]);
}

#[test]
fn reports_can_come_together_or_apart() {
    let mut together = watch();
    together.receive(vec![report(vec!["a"], 1), report(vec!["b"], 2), report(vec!["a"], 3)]);
    let mut apart = watch();
    apart.receive(vec![report(vec!["a"], 1)]);
    apart.receive(vec![report(vec!["b"], 2), report(vec!["a"], 3)]);
    assert_eq!(format!("{:?}", together), format!("{:?}", apart));
}

#[test]
fn the_first_program_is_selected() {
    let mut w = watch();
    w.receive(vec![report(vec![], 1)]);
    assert_eq!(w.state.selected_name, None);
    assert_eq!(w.target_pids(), Vec::<u32>::new());
    w.receive(vec![report(vec!["a", "b"], 2)]);
    assert_eq!(w.state.selected_name, Some("a".to_string()));
    w.receive(vec![report(vec!["b"], 3)]);
    assert_eq!(w.state.selected_name, Some("a".to_string()));
    assert_eq!(w.target_pids(), vec![3]);
}

#[test]
fn keys_wait_for_the_first_report() {
    let mut w = watch();
    assert!(matches!(w.press(Key::Char('k'), false, Platform::Other, 0), Answer::Stay));
    assert!(matches!(w.press(Key::Esc, false, Platform::Other, 0), Answer::Quit));
    assert!(matches!(w.press(Key::Char('q'), false, Platform::Other, 0), Answer::Quit));
    w.receive(vec![report(vec!["a", "b"], 2)]);
    assert!(matches!(w.press(Key::Down, false, Platform::Other, 0), Answer::Stay));
    assert_eq!(w.state.selected_name, Some("b".to_string()));
    match w.press(Key::Char('k'), false, Platform::Other, 0) {
        Answer::Run { index, action, task } => {
            assert_eq!(index, 1);
            assert_eq!(action, Action::Term);
            assert!(matches!(task, Task::Signal { .. }));
        }
        other => panic!("{:?}", other),
    }
    w.finish(1, &ActionResult { ok: true, message: "done".to_string() }, 4);
    assert_eq!(w.state.current_status(5), Some(("b: done", true)));
    assert!(matches!(w.press(Key::Esc, false, Platform::Other, 0), Answer::Quit));
}

#[test]
fn an_action_without_a_target_is_told() {
    let mut w = watch();
    w.receive(vec![report(vec![], 2)]);
    assert!(matches!(w.press(Key::Char('k'), false, Platform::Other, 9), Answer::Stay));
    assert_eq!(w.state.current_status(9), Some(("No process selected", false)));
}

#[test]
fn there_is_always_something_to_show() {
    let mut w = watch();
    let live = Live { platform: Platform::Other, now: 0, is_root: true, reachable: vec![] };
    let area = Area { x: 0, y: 0, width: 100, height: 50 };
    assert!(w.can_draw(&live, area));
    assert_eq!(w.draw(&live, area).len(), 2);
    assert!(!w.can_draw(&live, Area { x: u16::MAX, y: 0, width: 0, height: 0 }));
    assert!(!w.can_draw(&live, Area { x: 0, y: u16::MAX, width: 0, height: 8 }));
    assert!(w.can_draw(&live, Area { x: 0, y: u16::MAX, width: 0, height: 7 }));
    w.receive(vec![report(vec!["a"], 50)]);
    assert!(w.can_draw(&live, area));
    assert_eq!(w.draw(&live, area).len(), 6);
    w.press(Key::Enter, false, Platform::Other, 0);
    assert_eq!(w.draw(&live, area).len(), 2);
}
