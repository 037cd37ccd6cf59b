use smart_top::collect::{
    canonical_name, collect, delta_rate, measure, net_totals, normalize_name, proc_disk_totals,
    top_cpu, top_disk, top_mem, AggProcess, NetReading, ProcReading, Reading,
};
use smart_top::float::{Double, Single};

fn double(x: f64) -> Double {
    match Double::from_bits(x.to_bits()) {
        Some(d) => d,
        None => panic!("not a non-negative number: {}", x),
    }
}

fn single(x: f32) -> Single {
    match Single::from_bits(x.to_bits()) {
        Some(s) => s,
        None => panic!("not a non-negative number: {}", x),
    }
}

fn f64_of(x: Double) -> f64 {
    f64::from_bits(x.bits)
}

fn f32_of(x: Single) -> f32 {
    f32::from_bits(x.bits)
}

fn process(name: &str, pid: u32, cpu: f32, mem: u64) -> ProcReading {
    ProcReading {
        name: name.to_string(),
        pid,
        uid: Some(1000),
        cpu: single(cpu),
        mem,
        uptime_secs: 10,
        read_bytes: 0,
        written_bytes: 0,
        cmd: vec![format!("/bin/{}", name), pid.to_string()],
        exe: None,
    }
}

fn reading(procs: Vec<ProcReading>) -> Reading {
    Reading {
        cpu_usage: single(12.5),
        load1: double(1.5),
        logical_cores: 4,
        total_memory: 1000,
        used_memory: 600,
        total_swap: 200,
        used_swap: 100,
        procs,
        nets: vec![],
    }
}

fn names(list: &Vec<AggProcess>) -> Vec<String> {
    list.iter().map(|p| p.name.clone()).collect()
}

#[test]
fn browsers_have_one_name() {
    assert_eq!(normalize_name("Google Chrome Helper (GPU)"), "Chrome");
    assert_eq!(normalize_name("CHROMIUM-browser"), "Chrome");
    assert_eq!(normalize_name("firefox-bin"), "Firefox");
    assert_eq!(normalize_name("FIREFOX"), "Firefox");
    assert_eq!(normalize_name("com.apple.Safari.WebContent"), "Safari");
}

#[test]
fn helpers_go_by_the_name_of_what_they_help() {
    assert_eq!(normalize_name("Slack Helper"), "Slack");
    assert_eq!(normalize_name("Slack Helper Helper"), "Slack");
    assert_eq!(normalize_name("slack helper"), "slack");
    assert_eq!(normalize_name("slack_helper"), "slack");
    assert_eq!(normalize_name("slack_helper helper Helper"), "slack");
    assert_eq!(normalize_name("Slack Helper_helper"), "Slack Helper");
    assert_eq!(normalize_name("Helper"), "Helper");
    assert_eq!(normalize_name(""), "");
}

#[test]
fn small_letters_decide_which_browser_it_is() {
    assert_eq!(canonical_name("X", "my chrome"), "Chrome");
    assert_eq!(canonical_name("X", "chromium"), "Chrome");
    assert_eq!(canonical_name("X", "firefox"), "Firefox");
    assert_eq!(canonical_name("X", "safari"), "Safari");
    assert_eq!(canonical_name("X", "Safari"), "X");
}

#[test]
fn rates_are_growth_over_time() {
    assert_eq!(f64_of(delta_rate(1000, 4000, double(2.0))), 1500.0);
    assert_eq!(f64_of(delta_rate(4000, 1000, double(2.0))), 0.0);
    assert_eq!(f64_of(delta_rate(0, 1, double(3.0))), 1.0 / 3.0);
}

#[test]
fn totals_add_up() {
    let mut a = process("a", 1, 0.0, 0);
    a.read_bytes = 5;
    a.written_bytes = 7;
    let mut b = process("b", 2, 0.0, 0);
    b.read_bytes = 50;
    b.written_bytes = 70;
    assert_eq!(proc_disk_totals(&vec![a, b]), (55, 77));
    let net = NetReading {
        received: 1,
        transmitted: 2,
        errors_on_received: 3,
        errors_on_transmitted: 4,
    };
    assert_eq!(net_totals(&vec![net, net]), (2, 4, 14, 0));
    assert_eq!(net_totals(&vec![]), (0, 0, 0, 0));
}

#[test]
fn processes_are_grouped_by_program() {
    let mut big = process("Google Chrome", 7, 30.0, 500);
    big.uptime_secs = 99;
    big.uid = None;
    let small = process("chrome_crashpad", 8, 10.0, 100);
    let other = process("vim", 9, 4.0, 50);
    let m = collect(&reading(vec![]), &reading(vec![small, other, big]), 1000, 5);
    assert_eq!(names(&m.top_mem), vec!["Chrome", "vim"]);
    let chrome = &m.top_mem[0];
    assert_eq!(chrome.count, 2);
    assert_eq!(chrome.mem, 600);
    assert_eq!(f32_of(chrome.cpu), 10.0);
    assert_eq!(chrome.max_uptime_secs, 99);
    assert_eq!(chrome.all_pids, vec![8, 7]);
    assert_eq!(chrome.all_uids, vec![1000, 0]);
    assert_eq!(chrome.cmd, "/bin/Google Chrome 7");
    assert_eq!(chrome.samples.len(), 2);
    assert_eq!(chrome.samples[0].pid, 7);
    assert_eq!(f32_of(chrome.samples[0].cpu), 7.5);
    assert_eq!(chrome.samples[1].pid, 8);
}

#[test]
fn the_command_line_is_that_of_the_largest_process_that_has_one() {
    let mut silent = process("a", 1, 0.0, 900);
    silent.cmd = vec![];
    let by_path = || {
        let mut p = process("a", 2, 0.0, 500);
        p.cmd = vec![];
        p.exe = Some("/usr/bin/a".to_string());
        p
    };
    let equal = process("a", 3, 0.0, 500);
    let smaller = process("a", 4, 0.0, 400);
    let m = collect(
        &reading(vec![]),
        &reading(vec![silent, by_path(), equal, smaller]),
        1000,
        5,
    );
    assert_eq!(m.top_mem[0].cmd, "/bin/a 3");
    let m = collect(&reading(vec![]), &reading(vec![by_path()]), 1000, 5);
    assert_eq!(m.top_mem[0].cmd, "/usr/bin/a");
}

#[test]
fn a_group_shows_its_five_largest_processes() {
    let procs: Vec<ProcReading> =
        vec![3u64, 9, 1, 7, 5, 7, 2].iter().enumerate().map(|(i, m)| process("a", i as u32, 0.0, *m)).collect();
    let m = collect(&reading(vec![]), &reading(procs), 1000, 5);
    let pids: Vec<u32> = m.top_mem[0].samples.iter().map(|s| s.pid).collect();
    assert_eq!(pids, vec![1, 3, 5, 4, 0]);
    assert_eq!(m.top_mem[0].count, 7);
    assert_eq!(m.top_mem[0].all_pids.len(), 7);
}

#[test]
fn the_heaviest_programs_come_first() {
    let mut d = process("d", 4, 0.0, 1);
    d.read_bytes = 600;
    d.written_bytes = 400;
    let procs = vec![process("a", 1, 1.0, 30), process("b", 2, 9.0, 20), process("c", 3, 5.0, 40), d];
    let m = collect(&reading(vec![]), &reading(procs), 500, 2);
    assert_eq!(names(&m.top_cpu), vec!["b", "c"]);
    assert_eq!(names(&m.top_mem), vec!["c", "a"]);
    assert_eq!(names(&m.top_disk), vec!["d", "a"]);
    assert_eq!(f64_of(m.top_disk[0].disk_bps), 2000.0);
    assert_eq!(names(&top_cpu(&m.top_mem, 1)), vec!["c"]);
    assert_eq!(names(&top_mem(&m.top_cpu, 9)), vec!["c", "b"]);
    assert_eq!(names(&top_disk(&m.top_disk, 0)), Vec::<String>::new());
}

#[test]
fn metrics_are_differences_between_two_readings() {
    let mut before = reading(vec![]);
    before.used_swap = 100;
    before.nets = vec![NetReading { received: 10, transmitted: 20, errors_on_received: 1, errors_on_transmitted: 1 }];
    let mut after = reading(vec![]);
    after.used_swap = 1_100;
    after.nets = vec![NetReading { received: 510, transmitted: 220, errors_on_received: 2, errors_on_transmitted: 4 }];
    let mut p = process("a", 1, 0.0, 0);
    p.read_bytes = 4096;
    p.written_bytes = 1024;
    after.procs = vec![p];
    let m = collect(&before, &after, 500, 5);
    assert_eq!(m.mem.swap_rate, 2_000);
    assert_eq!(m.mem.swap_used, 1_100);
    assert_eq!(m.mem.total, 1000);
    assert_eq!(m.mem.used, 600);
    assert_eq!(m.mem.swap_total, 200);
    assert_eq!(f64_of(m.net.rx_bps), 1000.0);
    assert_eq!(f64_of(m.net.tx_bps), 400.0);
    assert_eq!(m.net.errors, 4);
    assert_eq!(m.net.drops, 0);
    assert_eq!(f64_of(m.disk.read_bps), 8192.0);
    assert_eq!(f64_of(m.disk.write_bps), 2048.0);
    assert_eq!(f32_of(m.cpu.usage_pct), 12.5);
    assert_eq!(f64_of(m.cpu.load1), 1.5);
    assert_eq!(m.cpu.logical_cores, 4);
}

#[test]
fn disk_rates_are_those_of_the_second_reading() {
    // What a process reads and writes is counted anew in each reading.
    let busy = |read: u64, written: u64| {
        let mut p = process("a", 1, 0.0, 0);
        p.read_bytes = read;
        p.written_bytes = written;
        reading(vec![p])
    };
    let steady = collect(&busy(4096, 1024), &busy(4096, 1024), 500, 5);
    assert_eq!(f64_of(steady.disk.read_bps), 8192.0);
    assert_eq!(f64_of(steady.disk.write_bps), 2048.0);
    let easing = collect(&busy(9000, 8000), &busy(100, 50), 1000, 5);
    assert_eq!(f64_of(easing.disk.read_bps), 100.0);
    assert_eq!(f64_of(easing.disk.write_bps), 50.0);
    assert_eq!(f64_of(easing.top_disk[0].disk_bps), 150.0);
    let huge = busy(u64::MAX, u64::MAX);
    assert!(measure(&huge, &busy(1, 1), 1000, 5).is_some());
}

#[test]
fn a_machine_without_known_cores_counts_as_one_core() {
    let mut after = reading(vec![process("a", 1, 30.0, 1)]);
    after.logical_cores = 0;
    let m = collect(&reading(vec![]), &after, 1000, 5);
    assert_eq!(f32_of(m.top_cpu[0].cpu), 30.0);
}

#[test]
fn what_cannot_be_counted_is_not_measured() {
    let quiet = reading(vec![]);
    assert!(measure(&quiet, &quiet, 1000, 5).is_some());
    assert!(measure(&quiet, &quiet, 0, 5).is_none());
    let mut huge = reading(vec![process("a", 1, 0.0, u64::MAX), process("b", 2, 0.0, 1)]);
    match measure(&quiet, &huge, 1000, 5) {
        Some(m) => assert_eq!((names(&m.top_mem), m.top_mem[0].mem), (vec!["a".to_string(), "b".to_string()], u64::MAX)),
        None => panic!("memory is counted for each program by itself"),
    }
    huge.procs[1].name = "a helper".to_string();
    assert!(measure(&quiet, &huge, 1000, 5).is_none());
    huge.procs[1].mem = 0;
    assert!(measure(&quiet, &huge, 1000, 5).is_some());
    huge.procs[1].read_bytes = u64::MAX;
    assert!(measure(&quiet, &huge, 1000, 5).is_some());
    huge.procs[1].written_bytes = 1;
    assert!(measure(&quiet, &huge, 1000, 5).is_none());
    let net = NetReading { received: u64::MAX, transmitted: 0, errors_on_received: 0, errors_on_transmitted: 0 };
    let mut loud = reading(vec![]);
    loud.nets = vec![net];
    assert!(measure(&loud, &quiet, 1000, 5).is_some());
    loud.nets = vec![net, net];
    assert!(measure(&loud, &quiet, 1000, 5).is_none());
    loud.nets = vec![NetReading { received: 0, transmitted: 0, errors_on_received: u64::MAX, errors_on_transmitted: 1 }];
    assert!(measure(&loud, &quiet, 1000, 5).is_none());
    assert!(!loud.is_countable());
}

#[test]
fn every_process_is_in_one_group() {
    let procs: Vec<ProcReading> = (0..50u32)
        .map(|i| process(vec!["a", "b", "c Helper", "c", "FireFox"][(i % 5) as usize], i, 1.0, i as u64))
        .collect();
    let m = collect(&reading(vec![]), &reading(procs), 1000, 100);
    let mut seen: Vec<u32> = vec![];
    for g in &m.top_mem {
        assert_eq!(g.count, g.all_pids.len());
        assert_eq!(g.count, g.all_uids.len());
        seen.extend(g.all_pids.iter());
    }
    seen.sort();
    assert_eq!(seen, (0..50u32).collect::<Vec<u32>>());
    let mut groups = names(&m.top_mem);
    groups.sort();
    assert_eq!(groups, vec!["Firefox", "a", "b", "c"]);
}

#[test]
fn a_clone_says_the_same() {
    let m = collect(&reading(vec![]), &reading(vec![process("a", 1, 2.0, 3)]), 1000, 5);
    assert_eq!(format!("{:?}", m.clone()), format!("{:?}", m));
}
