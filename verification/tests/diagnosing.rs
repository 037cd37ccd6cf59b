use smart_top::blameboard::{build_blameboard, BlameEntry};
use smart_top::collect::{
    AggProcess, CpuMetrics, DiskMetrics, MemMetrics, Metrics, NetMetrics, ProcSample,
};
use smart_top::diagnose::{
    cpu_blame, cpu_detail, diagnose, disk_blame, disk_detail, mem_blame, mem_detail, net_blame,
    net_detail, score_cpu, score_disk, score_memory, score_network, Culprit,
};
use smart_top::float::{Double, Single};
use smart_top::verdict::build_verdict;

const GIB: u64 = 1_073_741_824;
const MIB: u64 = 1_048_576;

fn double(x: f64) -> Double {
    match Double::from_bits(x.to_bits()) {
        Some(d) => d,
        None => panic!("not a non-negative number: {}", x),
    }
}

fn single(x: f32) -> Single {
    match Single::from_bits(x.to_bits()) {
        Some(s) => s,
        None => panic!("not a non-negative number: {}", x),
    }
}

fn f64_of(x: Double) -> f64 {
    f64::from_bits(x.bits)
}

fn f32_of(x: Single) -> f32 {
    f32::from_bits(x.bits)
}

fn program(name: &str, cpu: f32, mem: u64, disk_bps: f64) -> AggProcess {
    AggProcess {
        name: name.to_string(),
        cpu: single(cpu),
        mem,
        count: 1,
        disk_bps: double(disk_bps),
        max_uptime_secs: 5,
        cmd: format!("/bin/{}", name),
        samples: vec![ProcSample { pid: 1, cpu: single(cpu), mem, disk_bps: double(disk_bps) }],
        all_pids: vec![1],
        all_uids: vec![0],
    }
}

fn idle() -> Metrics {
    Metrics {
        cpu: CpuMetrics { usage_pct: single(5.0), load1: double(0.5), logical_cores: 8 },
        mem: MemMetrics { total: 16 * GIB, used: 4 * GIB, swap_total: 0, swap_used: 0, swap_rate: 0 },
        disk: DiskMetrics { read_bps: double(0.0), write_bps: double(0.0) },
        net: NetMetrics { rx_bps: double(0.0), tx_bps: double(0.0), errors: 0, drops: 0 },
        top_cpu: vec![],
        top_mem: vec![],
        top_disk: vec![],
    }
}

fn names(board: &Vec<BlameEntry>) -> Vec<String> {
    board.iter().map(|e| e.name.clone()).collect()
}

#[test]
fn cpu_scores_usage_and_the_queue() {
    let mut m = idle();
    m.cpu.usage_pct = single(42.9);
    assert_eq!(score_cpu(&m), 42);
    m.cpu.load1 = double(8.1);
    assert_eq!(score_cpu(&m), 52);
    m.cpu.load1 = double(16.0);
    assert_eq!(score_cpu(&m), 52);
    m.cpu.load1 = double(16.1);
    assert_eq!(score_cpu(&m), 67);
    m.cpu.usage_pct = single(99.0);
    assert_eq!(score_cpu(&m), 100);
    m.cpu.logical_cores = 0;
    m.cpu.load1 = double(1.5);
    m.cpu.usage_pct = single(0.0);
    assert_eq!(score_cpu(&m), 10);
}

#[test]
fn full_memory_alone_scores_seventy() {
    let mut m = idle();
    m.mem.used = m.mem.total;
    assert_eq!(score_memory(&m), 70);
    m.mem.swap_rate = MIB;
    m.mem.swap_used = GIB / 2;
    assert_eq!(score_memory(&m), 70);
    m.mem.used = m.mem.total / 2;
    assert_eq!(score_memory(&m), 35);
    m.mem.total = 0;
    assert_eq!(score_memory(&m), 0);
}

#[test]
fn paging_and_swap_add_to_the_memory_score() {
    let mut m = idle();
    m.mem.used = 8 * GIB;
    m.mem.swap_rate = MIB + 1;
    assert_eq!(score_memory(&m), 55);
    m.mem.swap_rate = 10 * MIB;
    assert_eq!(score_memory(&m), 55);
    m.mem.swap_rate = 10 * MIB + 1;
    assert_eq!(score_memory(&m), 75);
    m.mem.swap_rate = 0;
    m.mem.swap_used = GIB / 2 + 1;
    assert_eq!(score_memory(&m), 40);
    m.mem.swap_used = 2 * GIB;
    assert_eq!(score_memory(&m), 40);
    m.mem.swap_used = 2 * GIB + 1;
    assert_eq!(score_memory(&m), 50);
    m.mem.used = 16 * GIB;
    m.mem.swap_rate = 20 * MIB;
    assert_eq!(score_memory(&m), 100);
}

#[test]
fn disk_scores_in_steps() {
    let mut m = idle();
    let mib = MIB as f64;
    for (read, write, score) in vec![
        (0.0, 0.0, 0),
        (10.0, 9.0, 9),
        (40.0, 0.0, 20),
        (20.0, 20.5, 20),
        (80.0, 0.0, 20),
        (80.5, 0.0, 40),
        (200.0, 0.0, 40),
        (150.0, 50.5, 60),
        (5000.0, 0.0, 60),
    ] {
        m.disk.read_bps = double(read * mib);
        m.disk.write_bps = double(write * mib);
        assert_eq!(score_disk(&m), score, "{} {}", read, write);
    }
}

#[test]
fn network_scores_throughput_and_loss() {
    let mut m = idle();
    let mib = MIB as f64;
    m.net.rx_bps = double(12.0 * mib);
    m.net.tx_bps = double(0.9 * mib);
    assert_eq!(score_network(&m), 12);
    m.net.rx_bps = double(500.0 * mib);
    assert_eq!(score_network(&m), 50);
    m.net.errors = 1;
    assert_eq!(score_network(&m), 80);
    m.net.errors = 0;
    m.net.drops = 1;
    assert_eq!(score_network(&m), 80);
}

#[test]
fn details_summarise_each_subsystem() {
    let mut m = idle();
    assert_eq!(cpu_detail(&m), "5% used, load 0.5");
    m.cpu.load1 = double(8.25);
    assert_eq!(cpu_detail(&m), "5% used, load 8.2: slightly oversubscribed");
    m.cpu.load1 = double(17.0);
    assert_eq!(cpu_detail(&m), "5% used, load 17.0 on 8 cores: queue congested");
    assert_eq!(mem_detail(&m), "4.0/16.0 GB");
    m.mem.swap_used = 3 * GIB;
    m.mem.swap_rate = 1_000_000;
    assert_eq!(mem_detail(&m), "4.0/16.0 GB  swap: 3.0 GB");
    m.mem.swap_rate = 1_000_001;
    assert_eq!(mem_detail(&m), "4.0/16.0 GB  swap: 3.0 GB (PAGING)");
    m.disk.read_bps = double(2048.0);
    assert_eq!(disk_detail(&m), "R: 2 KB/s  W: 0 B/s");
    m.net.tx_bps = double(10.0);
    assert_eq!(net_detail(&m), "in: 0 B/s  out: 10 B/s");
    m.net.errors = 3;
    assert_eq!(net_detail(&m), "in: 0 B/s  out: 10 B/s  err: 3  drop: 0");
}

#[test]
fn blame_names_the_heaviest_program() {
    let mut m = idle();
    assert_eq!(cpu_blame(&m), "5% total CPU");
    assert_eq!(mem_blame(&m), "25% RAM used");
    assert_eq!(disk_blame(&m), "Minimal disk activity");
    assert_eq!(net_blame(&m), "Minimal network activity");
    let mut p = program("vim", 12.25, 3 * GIB, 0.0);
    p.count = 2;
    m.top_cpu = vec![p.clone()];
    p.count = 1;
    m.top_mem = vec![p];
    assert_eq!(cpu_blame(&m), "vim (2 procs, 12.2% CPU)  5% total CPU");
    assert_eq!(mem_blame(&m), "vim (1 proc, 3.0 GB)  25% RAM used");
    m.cpu.load1 = double(9.0);
    assert_eq!(cpu_blame(&m), "vim (2 procs, 12.2% CPU)  load 9.0/8 cores: oversubscribed");
    m.cpu.load1 = double(17.0);
    assert_eq!(cpu_blame(&m), "vim (2 procs, 12.2% CPU)  load 17.0/8 cores: tasks queuing");
    m.mem.swap_used = GIB;
    assert_eq!(mem_blame(&m), "vim (1 proc, 3.0 GB)  25% RAM used, 1.0 GB spilled to swap");
    m.mem.swap_rate = 1_000_001;
    assert_eq!(mem_blame(&m), "vim (1 proc, 3.0 GB)  ACTIVELY PAGING TO DISK");
    m.disk.read_bps = double(0.1 * MIB as f64);
    assert_eq!(disk_blame(&m), "Read: 102 KB/s  Write: 0 B/s  (0 MB/s total)");
    m.disk.read_bps = double(0.09 * MIB as f64);
    assert_eq!(disk_blame(&m), "Minimal disk activity");
    m.net.rx_bps = double(0.01 * MIB as f64);
    assert_eq!(net_blame(&m), "In: 10 KB/s  Out: 0 B/s");
    m.net.rx_bps = double(0.009 * MIB as f64);
    assert_eq!(net_blame(&m), "Minimal network activity");
    m.net.errors = 2;
    assert_eq!(net_blame(&m), "2 error(s), 0 drop(s): packet loss causing retransmits");
}

#[test]
fn memory_without_a_total_is_compared_with_one_byte() {
    let mut m = idle();
    m.mem.total = 0;
    m.mem.used = 0;
    assert_eq!(mem_blame(&m), "0% RAM used");
}

#[test]
fn the_most_stressed_subsystem_comes_first() {
    let mut m = idle();
    m.net.errors = 1;
    m.disk.read_bps = double(100.0 * MIB as f64);
    let r = diagnose(&m);
    let order: Vec<(&str, u8)> = r.culprits.iter().map(|c| (c.label, c.score)).collect();
    assert_eq!(order, vec![("DISK", 40), ("NETWORK", 30), ("MEMORY", 17), ("CPU", 5)]);
    assert_eq!(r.total_mem, 16 * GIB);
    assert_eq!(r.culprits[0].detail, "R: 100.0 MB/s  W: 0 B/s");
    assert_eq!(r.culprits[0].blame_line, "Read: 100.0 MB/s  Write: 0 B/s  (100 MB/s total)");
}

#[test]
fn equal_scores_keep_their_order() {
    let mut m = idle();
    m.cpu.usage_pct = single(0.0);
    m.mem.used = 0;
    let r = diagnose(&m);
    let order: Vec<&str> = r.culprits.iter().map(|c| c.label).collect();
    assert_eq!(order, vec!["CPU", "MEMORY", "DISK", "NETWORK"]);
}

#[test]
fn scores_never_exceed_a_hundred() {
    let mut m = idle();
    m.cpu.usage_pct = single(f32::MAX);
    m.mem.used = u64::MAX;
    m.mem.total = 1;
    m.mem.swap_rate = u64::MAX;
    m.mem.swap_used = u64::MAX;
    m.disk.read_bps = double(f64::MAX);
    m.disk.write_bps = double(f64::MAX);
    m.net.rx_bps = double(f64::MAX);
    m.net.errors = u64::MAX;
    m.net.drops = u64::MAX;
    m.top_cpu = vec![program("a", f32::MAX, u64::MAX, f64::MAX)];
    let r = diagnose(&m);
    let scores: Vec<u8> = r.culprits.iter().map(|c| c.score).collect();
    assert_eq!(scores, vec![100, 100, 80, 60]);
    assert_eq!(r.blameboard[0].impact, 100);
}

#[test]
fn a_program_is_on_the_board_once_with_its_largest_figures() {
    let mut m = idle();
    let mut a = program("a", 10.0, 100, 5.0);
    a.cmd = "".to_string();
    a.samples = vec![];
    a.all_pids = vec![];
    a.all_uids = vec![];
    let mut a2 = program("a", 3.0, 900, 7.0);
    a2.count = 4;
    a2.max_uptime_secs = 77;
    a2.all_pids = vec![5, 6];
    m.top_cpu = vec![a, program("b", 1.0, 1, 1.0)];
    m.top_mem = vec![a2];
    m.top_disk = vec![program("c", 0.0, 1, 2.0), program("b", 0.5, 1, 1.0)];
    let (board, basis) = build_blameboard(&m, 10, 10, 10);
    assert_eq!(basis, "IMPACT");
    assert_eq!(names(&board), vec!["a", "b", "c"]);
    let a = &board[0];
    assert_eq!(f32_of(a.cpu), 10.0);
    assert_eq!(a.mem, 900);
    assert_eq!(f64_of(a.disk_bps), 7.0);
    assert_eq!(a.count, 4);
    assert_eq!(a.max_uptime_secs, 77);
    assert_eq!(a.cmd, "/bin/a");
    assert_eq!(a.samples.len(), 1);
    assert_eq!(a.all_pids, vec![5, 6]);
    assert_eq!(a.all_uids, vec![0]);
    assert_eq!(a.impact, 12);
    assert_eq!(a.why, "CPU");
}

#[test]
fn the_board_is_sorted_by_the_clear_bottleneck() {
    let mut m = idle();
    m.top_cpu = vec![
        program("cpu", 30.0, GIB, 0.0),
        program("mem", 1.0, 8 * GIB, 0.0),
        program("disk", 2.0, 1, 50.0 * MIB as f64),
    ];
    let (board, basis) = build_blameboard(&m, 60, 40, 10);
    assert_eq!((names(&board), basis), (vec!["cpu".to_string(), "disk".to_string(), "mem".to_string()], "CPU"));
    let (board, basis) = build_blameboard(&m, 40, 60, 10);
    assert_eq!((names(&board), basis), (vec!["mem".to_string(), "cpu".to_string(), "disk".to_string()], "MEMORY"));
    let (board, basis) = build_blameboard(&m, 0, 20, 40);
    assert_eq!((names(&board), basis), (vec!["disk".to_string(), "cpu".to_string(), "mem".to_string()], "DISK"));
    assert_eq!(build_blameboard(&m, 39, 0, 0).1, "IMPACT");
    assert_eq!(build_blameboard(&m, 60, 41, 10).1, "IMPACT");
    assert_eq!(build_blameboard(&m, 60, 60, 10).1, "IMPACT");
    let (board, _) = build_blameboard(&m, 0, 0, 0);
    assert_eq!(names(&board), vec!["mem", "disk", "cpu"]);
    let impacts: Vec<u8> = board.iter().map(|e| e.impact).collect();
    assert_eq!(impacts, vec![50, 50, 30]);
}

#[test]
fn impact_is_boosted_by_stress() {
    let mut m = idle();
    m.top_cpu = vec![program("a", 10.0, 0, 0.0)];
    assert_eq!(build_blameboard(&m, 0, 0, 0).0[0].impact, 10);
    assert_eq!(build_blameboard(&m, 50, 50, 50).0[0].impact, 20);
    assert_eq!(build_blameboard(&m, 100, 0, 0).0[0].impact, 30);
    m.top_cpu = vec![program("a", 0.0, 0, 4.0 * MIB as f64)];
    assert_eq!(build_blameboard(&m, 0, 0, 25).0[0].impact, 6);
    m.mem.total = 0;
    m.top_cpu = vec![program("a", 0.0, 1, 0.0)];
    assert_eq!(build_blameboard(&m, 0, 0, 0).0[0].impact, 100);
}

#[test]
fn guilt_is_told_by_axis() {
    let mut m = idle();
    let heavy_mem = 2 * GIB;
    let heavy_disk = 20.0 * MIB as f64;
    for (cpu, mem, disk, why) in vec![
        (20.0, heavy_mem, heavy_disk, "CPU+MEM+DISK"),
        (20.0, heavy_mem, 0.0, "CPU+MEM"),
        (20.0, 0, heavy_disk, "CPU+DISK"),
        (0.0, heavy_mem, heavy_disk, "MEM+DISK"),
        (10.0, 0, 0.0, "CPU"),
        (0.0, heavy_mem, 0.0, "MEM"),
        (0.0, 0, heavy_disk, "DISK"),
        (9.0, GIB, 0.0, "cpu"),
        (1.0, GIB, 0.0, "mem"),
        (1.0, 0, 2.0 * MIB as f64, "disk"),
        (0.0, 0, 0.0, "cpu"),
    ] {
        m.top_cpu = vec![program("a", cpu, mem, disk)];
        let board = build_blameboard(&m, 0, 0, 0).0;
        assert_eq!(board[0].why, why);
        assert!(board[0].impact < 40 || why == why.to_uppercase());
    }
}

fn culprit(label: &'static str, score: u8) -> Culprit {
    Culprit { label, score, detail: String::new(), blame_line: String::new() }
}

#[test]
fn a_quiet_system_is_healthy() {
    let m = idle();
    assert_eq!(build_verdict(&vec![], &m), "System appears healthy. No significant bottlenecks detected.");
    assert_eq!(
        build_verdict(&vec![culprit("CPU", 19)], &m),
        "System appears healthy. No significant bottlenecks detected."
    );
    assert_eq!(
        build_verdict(&vec![culprit("CPU", 20)], &m),
        "System load is moderate. Monitor for changes."
    );
    assert_eq!(
        build_verdict(&vec![culprit("BUS", 90)], &m),
        "System load is moderate. Monitor for changes."
    );
    assert_eq!(diagnose(&m).verdict, "System appears healthy. No significant bottlenecks detected.");
}

#[test]
fn the_two_worst_subsystems_are_told_of() {
    let mut m = idle();
    m.top_cpu = vec![program("vim", 12.0, 3 * GIB, 0.0)];
    m.top_mem = vec![program("emacs", 1.0, 3 * GIB, 0.0)];
    m.disk.read_bps = double(300.0 * MIB as f64);
    let all = vec![culprit("CPU", 90), culprit("MEMORY", 80), culprit("DISK", 60), culprit("NETWORK", 50)];
    assert_eq!(
        build_verdict(&all, &m),
        "CPU usage is high at 5%.  vim (1 proc) is consuming 12.0% CPU.  Memory usage is high at 25%.  emacs (1 proc) holds 3.0 GB."
    );
    m.cpu.load1 = double(20.0);
    m.mem.swap_used = 1;
    assert_eq!(
        build_verdict(&all, &m),
        "CPU is the primary bottleneck: load average 20.0 on 8 cores means tasks are queuing.  vim (1 proc) is consuming 12.0% CPU.  Memory at 25%: spilled into swap, currently stable but at risk.  emacs (1 proc) holds 3.0 GB."
    );
    m.mem.swap_rate = 1_000_001;
    m.top_mem = vec![];
    assert_eq!(
        build_verdict(&vec![culprit("MEMORY", 40), culprit("DISK", 40)], &m),
        "RAM is exhausted and the system is actively paging to swap. Severe latency expected.  Disk I/O is heavy at 300 MB/s total."
    );
    m.net.rx_bps = double(70.0 * MIB as f64);
    assert_eq!(
        build_verdict(&vec![culprit("NETWORK", 50), culprit("CPU", 39)], &m),
        "Network throughput is 70 MB/s."
    );
    m.net.errors = 2;
    assert_eq!(
        build_verdict(&vec![culprit("NETWORK", 50)], &m),
        "Network has 2 error(s) and 0 drop(s). Packet loss may cause retransmits."
    );
}

#[test]
fn a_report_carries_the_lists_over() {
    let mut m = idle();
    m.top_cpu = vec![program("a", 1.0, 1, 0.0)];
    m.top_mem = vec![program("b", 1.0, 1, 0.0)];
    let r = diagnose(&m);
    assert_eq!(r.top_cpu[0].name, "a");
    assert_eq!(r.top_mem[0].name, "b");
    assert_eq!(r.sort_basis, "IMPACT");
    assert_eq!(names(&r.blameboard), vec!["a", "b"]);
}

#[test]
fn a_clone_of_a_report_says_the_same() {
    let mut m = idle();
    m.top_cpu = vec![program("a", 1.0, 1, 0.0)];
    let r = diagnose(&m);
    assert_eq!(format!("{:?}", r.clone()), format!("{:?}", r));
}

#[test]
fn more_use_and_more_stress_give_no_smaller_impact() {
    let mut m = idle();
    let impact = |m: &Metrics, score: u8| build_blameboard(m, score, score, score).0[0].impact;
    let mut last = 0;
    for step in 0..60u32 {
        m.top_cpu = vec![program("a", step as f32, step as u64 * GIB / 8, step as f64 * MIB as f64)];
        for score in 0..=100u8 {
            assert!(impact(&m, score) >= impact(&m, 0));
        }
        let now = impact(&m, 30);
        assert!(now >= last);
        last = now;
    }
    assert_eq!(last, 94);
}
