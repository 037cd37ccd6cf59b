use smart_top::actions::{
    apply, availability, lsof, lsof_path, lsof_pid_arg, lsof_written, needs_probe,
    open_activity_monitor, purge, renice, renice_target, signal, verb, Action, Availability,
    LsofRun, Platform, Ran, Signal, Task,
};
use smart_top::style::Color;

fn every_action() -> Vec<Action> {
    vec![
        Action::Term,
        Action::Kill,
        Action::Stop,
        Action::Cont,
        Action::Int,
        Action::Hup,
        Action::Usr1,
        Action::Usr2,
        Action::Nicer,
        Action::Lsof,
        Action::OpenActivity,
        Action::Purge,
    ]
}

#[test]
fn keys_are_as_documented() {
    let keys: String = every_action().iter().map(|a| a.key()).collect();
    assert_eq!(keys, "kKsriH12nlmp");
}

#[test]
fn each_key_stands_for_one_action() {
    for a in every_action() {
        assert_eq!(Action::from_key(Platform::MacOs, a.key()), Some(a));
        for b in every_action() {
            assert_eq!(a.key() == b.key(), a == b);
        }
    }
    assert_eq!(Action::from_key(Platform::Other, 'm'), None);
    assert_eq!(Action::from_key(Platform::Other, 'p'), None);
    assert_eq!(Action::from_key(Platform::Other, '1'), Some(Action::Usr1));
    assert_eq!(Action::from_key(Platform::MacOs, 'q'), None);
    assert_eq!(Action::from_key(Platform::MacOs, 'x'), None);
}

#[test]
fn the_menu_is_in_order_of_need() {
    assert_eq!(
        Action::menu(Platform::Other),
        vec![
            Action::Term,
            Action::Kill,
            Action::Stop,
            Action::Cont,
            Action::Nicer,
            Action::Int,
            Action::Hup,
            Action::Lsof,
            Action::Usr1,
            Action::Usr2,
        ]
    );
    let mac = Action::menu(Platform::MacOs);
    assert_eq!(mac.len(), 12);
    assert_eq!(mac[8], Action::OpenActivity);
    assert_eq!(mac[9], Action::Purge);
    assert_eq!(mac[11], Action::Usr2);
}

#[test]
fn actions_have_a_color_tier() {
    let colors: Vec<Color> = every_action().iter().map(|a| a.color()).collect();
    assert_eq!(
        colors,
        vec![
            Color::Red,
            Color::Red,
            Color::Cyan,
            Color::Cyan,
            Color::Red,
            Color::Red,
            Color::LightCyan,
            Color::LightCyan,
            Color::Yellow,
            Color::Magenta,
            Color::Magenta,
            Color::LightMagenta,
        ]
    );
}

#[test]
fn only_two_actions_do_not_target_processes() {
    let others: Vec<Action> = every_action().into_iter().filter(|a| !a.targets_pids()).collect();
    assert_eq!(others, vec![Action::OpenActivity, Action::Purge]);
    assert!(needs_probe(Action::Kill, false));
    assert!(!needs_probe(Action::Kill, true));
    assert!(!needs_probe(Action::Purge, false));
}

#[test]
fn availability_follows_what_can_be_signalled() {
    let pids: Vec<u32> = vec![1, 2, 3];
    assert!(matches!(
        availability(Action::Kill, &pids, false, &vec![true, false, true]),
        Availability::Partial { allowed: 2, total: 3 }
    ));
    assert!(matches!(
        availability(Action::Kill, &pids, false, &vec![true, true, true]),
        Availability::AllOk
    ));
    assert!(matches!(
        availability(Action::Kill, &pids, false, &vec![false, false, false]),
        Availability::Blocked { reason: "no permission" }
    ));
    assert!(matches!(availability(Action::Kill, &pids, true, &vec![]), Availability::AllOk));
    assert!(matches!(
        availability(Action::Kill, &vec![], true, &vec![]),
        Availability::Blocked { reason: "no PIDs" }
    ));
    assert!(matches!(availability(Action::Purge, &pids, true, &vec![]), Availability::AllOk));
    assert!(matches!(
        availability(Action::Purge, &pids, false, &vec![]),
        Availability::Blocked { reason: "needs sudo" }
    ));
    assert!(matches!(
        availability(Action::OpenActivity, &vec![], false, &vec![]),
        Availability::AlwaysOk
    ));
}

#[test]
fn a_signal_is_told_by_what_happened() {
    let r = signal(&vec![true, true], verb(Action::Stop));
    assert!(r.ok);
    assert_eq!(r.message, "✓ Paused 2 PID(s) — still alive, frozen in memory — press r to resume");
    let r = signal(&vec![true, false, false], verb(Action::Kill));
    assert!(r.ok);
    assert_eq!(
        r.message,
        "⚠ Killed 1 PID(s); 2 could not be signalled (permission?) — SIGKILL — processes are gone, no cleanup"
    );
    let r = signal(&vec![false], verb(Action::Term));
    assert!(!r.ok);
    assert_eq!(
        r.message,
        "✗ Could not signal any of the 1 PID(s) — permission denied or already exited"
    );
    let r = signal(&vec![], verb(Action::Term));
    assert!(!r.ok);
    assert_eq!(r.message, "No PIDs to signal");
    assert_eq!(verb(Action::Lsof).past, "(non-signal action)");
    assert_eq!(verb(Action::Lsof).hint, None);
    assert_eq!(signal(&vec![true], verb(Action::Purge)).message, "✓ (non-signal action) 1 PID(s)");
    let past: Vec<&str> = every_action().iter().take(8).map(|a| verb(*a).past).collect();
    assert_eq!(
        past,
        vec![
            "Asked to quit",
            "Killed",
            "Paused",
            "Resumed",
            "Interrupted",
            "Sent hangup to",
            "Sent SIGUSR1 to",
            "Sent SIGUSR2 to",
        ]
    );
}

#[test]
fn priorities_stay_in_range() {
    assert_eq!(renice_target(0, 10), 10);
    assert_eq!(renice_target(15, 10), 19);
    assert_eq!(renice_target(-20, 10), -10);
    assert_eq!(renice_target(-15, -10), -20);
    assert_eq!(renice_target(i32::MAX, i32::MAX), 19);
    assert_eq!(renice_target(i32::MIN, i32::MIN), -20);
}

#[test]
fn a_change_of_priority_is_told() {
    let r = renice(&vec![true, true], 10);
    assert_eq!((r.ok, r.message), (true, "✓ Renice +10 on 2 PID(s)".to_string()));
    let r = renice(&vec![], 10);
    assert_eq!((r.ok, r.message), (true, "✓ Renice +10 on 0 PID(s)".to_string()));
    let r = renice(&vec![false, false], 10);
    assert_eq!(
        (r.ok, r.message),
        (false, "✗ Renice failed on all 2 PID(s) (negative renice needs root)".to_string())
    );
    let r = renice(&vec![true, false], 10);
    assert_eq!((r.ok, r.message), (true, "⚠ Reniced 1 PID(s); 1 failed".to_string()));
}

#[test]
fn files_are_named_after_the_program() {
    assert_eq!(lsof_path("Google Chrome"), "/tmp/stop-lsof-GoogleChrome.txt");
    assert_eq!(lsof_path("../../etc/passwd"), "/tmp/stop-lsof-etcpasswd.txt");
    assert_eq!(lsof_path("köln_1"), "/tmp/stop-lsof-kln_1.txt");
    assert_eq!(lsof_path("···"), "/tmp/stop-lsof-process.txt");
    assert_eq!(
        lsof_path("abcdefghijklmnopqrstuvwxyz0123456789"),
        "/tmp/stop-lsof-abcdefghijklmnopqrstuvwxyz012345.txt"
    );
    assert_eq!(lsof_pid_arg(&vec![1, 22, 333]), "1,22,333");
    assert_eq!(lsof_pid_arg(&vec![7]), "7");
}

#[test]
fn open_files_are_told() {
    assert!(lsof(&LsofRun::Ran { success: true, has_output: false, errors: String::new() }).is_none());
    assert!(lsof(&LsofRun::Ran { success: false, has_output: true, errors: String::new() }).is_none());
    for (errors, line) in vec![
        ("", "(no output)"),
        ("no such pid", "no such pid"),
        ("first\nsecond\n", "first"),
        ("first\r\nsecond", "first"),
        ("\nsecond", ""),
    ] {
        match lsof(&LsofRun::Ran { success: false, has_output: false, errors: errors.to_string() }) {
            Some(r) => {
                assert!(!r.ok);
                assert_eq!(r.message, format!("✗ lsof failed: {}", line));
            }
            None => panic!("a failure was expected"),
        }
        assert_eq!(errors.lines().next().unwrap_or("(no output)"), line);
    }
    match lsof(&LsofRun::NotStarted { error: "not found".to_string() }) {
        Some(r) => assert_eq!((r.ok, r.message), (false, "✗ lsof not available: not found".to_string())),
        None => panic!("a failure was expected"),
    }
    let r = lsof_written("/tmp/x", &None);
    assert_eq!((r.ok, r.message), (true, "✓ open files written to /tmp/x".to_string()));
    let r = lsof_written("/tmp/x", &Some("disk full".to_string()));
    assert_eq!((r.ok, r.message), (false, "✗ wrote 0 bytes: disk full".to_string()));
}

#[test]
fn macos_commands_are_told() {
    let told = |run: Option<Ran>| {
        let r = open_activity_monitor(&run);
        (r.ok, r.message)
    };
    assert_eq!(told(None), (false, "Activity Monitor is macOS only".to_string()));
    assert_eq!(told(Some(Ran::Success)), (true, "✓ Activity Monitor opened".to_string()));
    assert_eq!(told(Some(Ran::Failure)), (false, "✗ open returned non-zero".to_string()));
    assert_eq!(
        told(Some(Ran::NotStarted { error: "gone".to_string() })),
        (false, "✗ gone".to_string())
    );
    let told = |run: Option<Ran>| {
        let r = purge(&run);
        (r.ok, r.message)
    };
    assert_eq!(told(None), (false, "purge is macOS only".to_string()));
    assert_eq!(told(Some(Ran::Success)), (true, "✓ purged inactive memory".to_string()));
    assert_eq!(
        told(Some(Ran::Failure)),
        (false, "✗ purge returned non-zero (try with sudo)".to_string())
    );
    assert_eq!(
        told(Some(Ran::NotStarted { error: "gone".to_string() })),
        (false, "✗ purge unavailable: gone".to_string())
    );
}

#[test]
fn each_action_asks_for_its_task() {
    let pids: Vec<u32> = vec![4, 5];
    let signals = vec![
        (Action::Term, Signal::Term),
        (Action::Kill, Signal::Kill),
        (Action::Stop, Signal::Stop),
        (Action::Cont, Signal::Cont),
        (Action::Int, Signal::Int),
        (Action::Hup, Signal::Hup),
        (Action::Usr1, Signal::Usr1),
        (Action::Usr2, Signal::Usr2),
    ];
    for (action, wanted) in signals {
        match apply(action, "a", &pids, Platform::Other) {
            Task::Signal { signal, pids: reached } => {
                assert_eq!(signal, wanted);
                assert_eq!(reached, pids);
            }
            other => panic!("{:?}", other),
        }
        match apply(action, "a", &vec![], Platform::Other) {
            Task::Done { result } => assert_eq!((result.ok, result.message), (false, "No PIDs to signal".to_string())),
            other => panic!("{:?}", other),
        }
    }
    for reached in vec![pids.clone(), vec![]] {
        match apply(Action::Nicer, "a", &reached, Platform::Other) {
            Task::Renice { adjustment, pids } => assert_eq!((adjustment, pids), (10, reached)),
            other => panic!("{:?}", other),
        }
    }
    match apply(Action::Lsof, "a b", &pids, Platform::Other) {
        Task::Lsof { pid_arg, path } => {
            assert_eq!(pid_arg, "4,5");
            assert_eq!(path, "/tmp/stop-lsof-ab.txt");
        }
        other => panic!("{:?}", other),
    }
    for (action, message) in vec![
        (Action::Lsof, "No PIDs to inspect"),
        (Action::OpenActivity, "Activity Monitor is macOS only"),
        (Action::Purge, "purge is macOS only"),
    ] {
        match apply(action, "a", &vec![], Platform::Other) {
            Task::Done { result } => assert_eq!((result.ok, result.message), (false, message.to_string())),
            other => panic!("{:?}", other),
        }
    }
    assert!(matches!(apply(Action::OpenActivity, "a", &vec![], Platform::MacOs), Task::OpenActivity));
    assert!(matches!(apply(Action::Purge, "a", &vec![], Platform::MacOs), Task::Purge));
}
