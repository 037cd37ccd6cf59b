//! Metrics: two readings of the system, one moment apart, put together into
//! rates and into one entry per program.
use crate::diagnose;
use crate::float::{Double, Single};
use crate::rank;
use crate::text;
use vstd::prelude::*;

verus! {

#[derive(Debug, Clone, Copy)]
pub struct CpuMetrics {
    pub usage_pct: Single,
    pub load1: Double,
    pub logical_cores: usize,
}

#[derive(Debug, Clone, Copy)]
pub struct MemMetrics {
    pub total: u64,
    pub used: u64,
    pub swap_total: u64,
    pub swap_used: u64,
    /// Bytes/s of swap growth (positive = consuming more swap)
    pub swap_rate: u64,
}

#[derive(Debug, Clone, Copy)]
pub struct DiskMetrics {
    /// Bytes/s read across all processes
    pub read_bps: Double,
    /// Bytes/s written across all processes
    pub write_bps: Double,
}

#[derive(Debug, Clone, Copy)]
pub struct NetMetrics {
    pub rx_bps: Double,
    pub tx_bps: Double,
    pub errors: u64,
    pub drops: u64,
}

#[derive(Debug, Clone, Copy)]
pub struct ProcSample {
    pub pid: u32,
    pub cpu: Single,
    pub mem: u64,
    pub disk_bps: Double,
}

/// All processes of one program, taken together.
#[derive(Debug)]
pub struct AggProcess {
    pub name: String,
    pub cpu: Single,
    /// bytes (RSS)
    pub mem: u64,
    pub count: usize,
    /// Aggregated disk read+write bytes/sec
    pub disk_bps: Double,
    /// Longest-running PID's uptime, seconds
    pub max_uptime_secs: u64,
    /// Representative command line (from highest-memory PID)
    pub cmd: String,
    /// Top-5 PIDs in this group, sorted by memory desc
    pub samples: Vec<ProcSample>,
    /// Every PID in this group (so actions can target all of them)
    pub all_pids: Vec<u32>,
    /// Owner UID per corresponding entry in `all_pids` (0 if unknown)
    pub all_uids: Vec<u32>,
}

/// What an `AggProcess` says.
pub struct AggView {
    pub name: Seq<char>,
    pub cpu: Single,
    pub mem: u64,
    pub count: usize,
    pub disk_bps: Double,
    pub max_uptime_secs: u64,
    pub cmd: Seq<char>,
    pub samples: Seq<ProcSample>,
    pub all_pids: Seq<u32>,
    pub all_uids: Seq<u32>,
}

impl DeepView for AggProcess {
    type V = AggView;

    open spec fn deep_view(&self) -> AggView {
        AggView {
            name: self.name@,
            cpu: self.cpu,
            mem: self.mem,
            count: self.count,
            disk_bps: self.disk_bps,
            max_uptime_secs: self.max_uptime_secs,
            cmd: self.cmd@,
            samples: self.samples@,
            all_pids: self.all_pids@,
            all_uids: self.all_uids@,
        }
    }
}

#[derive(Debug)]
pub struct Metrics {
    pub cpu: CpuMetrics,
    pub mem: MemMetrics,
    pub disk: DiskMetrics,
    pub net: NetMetrics,
    pub top_cpu: Vec<AggProcess>,
    pub top_mem: Vec<AggProcess>,
    pub top_disk: Vec<AggProcess>,
}

/// What a `Metrics` says.
pub struct MetricsView {
    pub cpu: CpuMetrics,
    pub mem: MemMetrics,
    pub disk: DiskMetrics,
    pub net: NetMetrics,
    pub top_cpu: Seq<AggView>,
    pub top_mem: Seq<AggView>,
    pub top_disk: Seq<AggView>,
}

impl DeepView for Metrics {
    type V = MetricsView;

    open spec fn deep_view(&self) -> MetricsView {
        MetricsView {
            cpu: self.cpu,
            mem: self.mem,
            disk: self.disk,
            net: self.net,
            top_cpu: self.top_cpu.deep_view(),
            top_mem: self.top_mem.deep_view(),
            top_disk: self.top_disk.deep_view(),
        }
    }
}

/// One process as the system reports it.
#[derive(Debug)]
pub struct ProcReading {
    pub name: String,
    pub pid: u32,
    /// The owner, where it can be read
    pub uid: Option<u32>,
    /// Percent of one core
    pub cpu: Single,
    pub mem: u64,
    pub uptime_secs: u64,
    /// Bytes read since the reading before
    pub read_bytes: u64,
    /// Bytes written since the reading before
    pub written_bytes: u64,
    pub cmd: Vec<String>,
    pub exe: Option<String>,
}

/// What a `ProcReading` says.
pub struct ProcView {
    pub name: Seq<char>,
    pub pid: u32,
    pub uid: Option<u32>,
    pub cpu: Single,
    pub mem: u64,
    pub uptime_secs: u64,
    pub read_bytes: u64,
    pub written_bytes: u64,
    pub cmd: Seq<Seq<char>>,
    pub exe: Option<Seq<char>>,
}

impl DeepView for ProcReading {
    type V = ProcView;

    open spec fn deep_view(&self) -> ProcView {
        ProcView {
            name: self.name@,
            pid: self.pid,
            uid: self.uid,
            cpu: self.cpu,
            mem: self.mem,
            uptime_secs: self.uptime_secs,
            read_bytes: self.read_bytes,
            written_bytes: self.written_bytes,
            cmd: text::texts(self.cmd@),
            exe: match self.exe {
                Some(s) => Some(s@),
                None => None,
            },
        }
    }
}

/// The counters of one network interface.
#[derive(Debug, Clone, Copy)]
pub struct NetReading {
    pub received: u64,
    pub transmitted: u64,
    pub errors_on_received: u64,
    pub errors_on_transmitted: u64,
}

/// What the system reports at one moment.
#[derive(Debug)]
pub struct Reading {
    pub cpu_usage: Single,
    pub load1: Double,
    pub logical_cores: usize,
    pub total_memory: u64,
    pub used_memory: u64,
    pub total_swap: u64,
    pub used_swap: u64,
    pub procs: Vec<ProcReading>,
    pub nets: Vec<NetReading>,
}

impl ProcView {
    /// The program that the process belongs to.
    pub open spec fn group(self) -> Seq<char> {
        canonical(self.name, text::lowercase(self.name))
    }

    pub open spec fn disk_bps(self, secs: Double) -> Double {
        Double::of((self.read_bytes + self.written_bytes) as nat).over(secs)
    }

    /// The command line, or the executable where there is none.
    pub open spec fn command(self) -> Seq<char> {
        if self.cmd.len() == 0 {
            match self.exe {
                Some(s) => s,
                None => Seq::empty(),
            }
        } else {
            text::join(self.cmd, " "@)
        }
    }
}

/// The label of a process called `raw`, which is `lower` in lower case:
/// browsers go by one name however many kinds of process they have, and a
/// helper goes by the name of the program that it helps.
pub open spec fn canonical(raw: Seq<char>, lower: Seq<char>) -> Seq<char> {
    if text::contains(lower, "chrome"@) || text::contains(lower, "chromium"@) {
        "Chrome"@
    } else if text::contains(lower, "firefox"@) {
        "Firefox"@
    } else if text::contains(lower, "safari"@) {
        "Safari"@
    } else {
        text::trim_end(text::trim_end(text::trim_end(raw, " Helper"@), " helper"@), "_helper"@)
    }
}

/// The label of a process called `raw`, which is `lower` in lower case.
pub fn canonical_name(raw: &str, lower: &str) -> (r: String)
    ensures
        r@ == canonical(raw@, lower@),
{
    if text::has(lower, "chrome") || text::has(lower, "chromium") {
        return "Chrome".to_owned();
    }
    if text::has(lower, "firefox") {
        return "Firefox".to_owned();
    }
    if text::has(lower, "safari") {
        return "Safari".to_owned();
    }
    let a = text::without_suffix(raw, " Helper");
    let b = text::without_suffix(a.as_str(), " helper");
    text::without_suffix(b.as_str(), "_helper")
}

/// Collapse common multi-process app names to a canonical label.
pub fn normalize_name(raw: &str) -> (r: String)
    ensures
        r@ == canonical(raw@, text::lowercase(raw@)),
{
    let lower: String = raw.to_lowercase();
    canonical_name(raw, lower.as_str())
}

/// A group under construction, with the memory of the process whose command
/// line it has so far.
pub struct Tally {
    pub group: AggView,
    pub best: u64,
}

impl Tally {
    /// A group with no process in it.
    pub open spec fn empty(name: Seq<char>) -> Tally {
        Tally {
            group: AggView {
                name,
                cpu: Single { bits: 0 },
                mem: 0,
                count: 0,
                disk_bps: Double { bits: 0 },
                max_uptime_secs: 0,
                cmd: Seq::empty(),
                samples: Seq::empty(),
                all_pids: Seq::empty(),
                all_uids: Seq::empty(),
            },
            best: 0,
        }
    }

    /// The group with one more process.
    pub open spec fn with(self, p: ProcView, secs: Double) -> Tally {
        let g = self.group;
        let takes_cmd = p.mem >= self.best && p.command().len() > 0;
        Tally {
            group: AggView {
                name: g.name,
                cpu: g.cpu.plus(p.cpu),
                mem: (g.mem + p.mem) as u64,
                count: (g.count + 1) as usize,
                disk_bps: g.disk_bps.plus(p.disk_bps(secs)),
                max_uptime_secs: if p.uptime_secs > g.max_uptime_secs {
                    p.uptime_secs
                } else {
                    g.max_uptime_secs
                },
                cmd: if takes_cmd {
                    p.command()
                } else {
                    g.cmd
                },
                samples: g.samples.push(
                    ProcSample { pid: p.pid, cpu: p.cpu, mem: p.mem, disk_bps: p.disk_bps(secs) },
                ),
                all_pids: g.all_pids.push(p.pid),
                all_uids: g.all_uids.push(
                    match p.uid {
                        Some(u) => u,
                        None => 0,
                    },
                ),
            },
            best: if takes_cmd {
                p.mem
            } else {
                self.best
            },
        }
    }

    /// The position of the group of this name, or the end.
    pub open spec fn find(tallies: Seq<Tally>, name: Seq<char>, from: int) -> int
        decreases tallies.len() - from,
    {
        if 0 <= from < tallies.len() {
            if tallies[from].group.name == name {
                from
            } else {
                Tally::find(tallies, name, from + 1)
            }
        } else {
            tallies.len() as int
        }
    }

    /// The groups with one more process, which opens a new group where there is
    /// none of its name.
    pub open spec fn absorb(tallies: Seq<Tally>, p: ProcView, secs: Double) -> Seq<Tally> {
        let i = Tally::find(tallies, p.group(), 0);
        if i < tallies.len() {
            tallies.update(i, tallies[i].with(p, secs))
        } else {
            tallies.push(Tally::empty(p.group()).with(p, secs))
        }
    }

    /// The groups of these processes, each where its first process stood.
    pub open spec fn of(procs: Seq<ProcView>, secs: Double) -> Seq<Tally>
        decreases procs.len(),
    {
        if procs.len() == 0 {
            Seq::empty()
        } else {
            Tally::absorb(Tally::of(procs.drop_last(), secs), procs.last(), secs)
        }
    }
}

impl AggView {
    /// The group with CPU shares of the whole machine in place of shares of one
    /// core, and with only its five largest samples.
    pub open spec fn settled(self, cores: Single) -> AggView {
        let scaled = self.samples.map_values(
            |s: ProcSample|
                ProcSample { pid: s.pid, cpu: s.cpu.over(cores), mem: s.mem, disk_bps: s.disk_bps },
        );
        AggView {
            cpu: self.cpu.over(cores),
            samples: first_of(
                rank::picked(
                    scaled,
                    rank::ranking(self.samples.map_values(|s: ProcSample| s.mem)),
                ),
                5,
            ),
            ..self
        }
    }
}

/// At most the first `n` items.
pub open spec fn first_of<T>(s: Seq<T>, n: nat) -> Seq<T> {
    if s.len() <= n {
        s
    } else {
        s.take(n as int)
    }
}

impl AggView {
    /// The `n` groups that use the most CPU.
    pub open spec fn top_by_cpu(groups: Seq<AggView>, n: nat) -> Seq<AggView> {
        first_of(
            rank::picked(groups, rank::ranking(groups.map_values(|g: AggView| g.cpu.bits as u64))),
            n,
        )
    }

    /// The `n` groups that move the most bytes to and from disk.
    pub open spec fn top_by_disk(groups: Seq<AggView>, n: nat) -> Seq<AggView> {
        first_of(
            rank::picked(groups, rank::ranking(groups.map_values(|g: AggView| g.disk_bps.bits))),
            n,
        )
    }

    /// The `n` groups that hold the most memory.
    pub open spec fn top_by_mem(groups: Seq<AggView>, n: nat) -> Seq<AggView> {
        first_of(rank::picked(groups, rank::ranking(groups.map_values(|g: AggView| g.mem))), n)
    }
}

/// Sums over a reading.
pub struct Total;

impl Total {
    pub open spec fn read(procs: Seq<ProcView>) -> nat
        decreases procs.len(),
    {
        if procs.len() == 0 {
            0
        } else {
            Total::read(procs.drop_last()) + procs.last().read_bytes as nat
        }
    }

    pub open spec fn written(procs: Seq<ProcView>) -> nat
        decreases procs.len(),
    {
        if procs.len() == 0 {
            0
        } else {
            Total::written(procs.drop_last()) + procs.last().written_bytes as nat
        }
    }

    /// The memory of the processes of one program.
    pub open spec fn memory_of(procs: Seq<ProcView>, name: Seq<char>) -> nat
        decreases procs.len(),
    {
        if procs.len() == 0 {
            0
        } else {
            Total::memory_of(procs.drop_last(), name) + if procs.last().group() == name {
                procs.last().mem as nat
            } else {
                0
            }
        }
    }

    pub open spec fn received(nets: Seq<NetReading>) -> nat
        decreases nets.len(),
    {
        if nets.len() == 0 {
            0
        } else {
            Total::received(nets.drop_last()) + nets.last().received as nat
        }
    }

    pub open spec fn transmitted(nets: Seq<NetReading>) -> nat
        decreases nets.len(),
    {
        if nets.len() == 0 {
            0
        } else {
            Total::transmitted(nets.drop_last()) + nets.last().transmitted as nat
        }
    }

    pub open spec fn errors(nets: Seq<NetReading>) -> nat
        decreases nets.len(),
    {
        if nets.len() == 0 {
            0
        } else {
            Total::errors(nets.drop_last()) + nets.last().errors_on_received as nat
                + nets.last().errors_on_transmitted as nat
        }
    }

    /// What these processes read and wrote can be counted in 64 bits.
    pub open spec fn disk_fits(procs: Seq<ProcView>) -> bool {
        Total::read(procs) <= u64::MAX && Total::written(procs) <= u64::MAX
    }

    /// What each of these processes read and wrote, and the memory of each program,
    /// can be counted in 64 bits.
    pub open spec fn groups_fit(procs: Seq<ProcView>) -> bool {
        &&& forall|i: int|
            0 <= i < procs.len() ==> (#[trigger] procs[i]).read_bytes + procs[i].written_bytes
                <= u64::MAX
        &&& forall|name: Seq<char>| #[trigger] Total::memory_of(procs, name) <= u64::MAX
    }

    /// Every sum over these interfaces can be counted in 64 bits.
    pub open spec fn nets_fit(nets: Seq<NetReading>) -> bool {
        &&& Total::received(nets) <= u64::MAX
        &&& Total::transmitted(nets) <= u64::MAX
        &&& Total::errors(nets) <= u64::MAX
    }
}

proof fn lemma_procs_grow(procs: Seq<ProcView>, k: int)
    requires
        0 <= k <= procs.len(),
    ensures
        Total::read(procs.take(k)) <= Total::read(procs),
        Total::written(procs.take(k)) <= Total::written(procs),
        forall|name: Seq<char>| #[trigger]
            Total::memory_of(procs.take(k), name) <= Total::memory_of(procs, name),
    decreases procs.len() - k,
{
    if k < procs.len() {
        lemma_procs_grow(procs, k + 1);
        assert(procs.take(k + 1).drop_last() =~= procs.take(k));
        assert forall|name: Seq<char>| #[trigger]
            Total::memory_of(procs.take(k), name) <= Total::memory_of(procs, name) by {
            assert(Total::memory_of(procs.take(k + 1), name) <= Total::memory_of(procs, name));
        }
    } else {
        assert(procs.take(k) =~= procs);
    }
}

proof fn lemma_nets_grow(nets: Seq<NetReading>, k: int)
    requires
        0 <= k <= nets.len(),
    ensures
        Total::received(nets.take(k)) <= Total::received(nets),
        Total::transmitted(nets.take(k)) <= Total::transmitted(nets),
        Total::errors(nets.take(k)) <= Total::errors(nets),
    decreases nets.len() - k,
{
    if k < nets.len() {
        lemma_nets_grow(nets, k + 1);
        assert(nets.take(k + 1).drop_last() =~= nets.take(k));
    } else {
        assert(nets.take(k) =~= nets);
    }
}

/// Bytes read and bytes written, across all processes.
pub fn proc_disk_totals(procs: &Vec<ProcReading>) -> (r: (u64, u64))
    requires
        Total::disk_fits(procs.deep_view()),
    ensures
        r.0 == Total::read(procs.deep_view()),
        r.1 == Total::written(procs.deep_view()),
{
    let ghost all = procs.deep_view();
    let mut read: u64 = 0;
    let mut write: u64 = 0;
    let mut i: usize = 0;
    while i < procs.len()
        invariant
            all == procs.deep_view(),
            i <= procs@.len(),
            Total::disk_fits(all),
            read == Total::read(all.take(i as int)),
            write == Total::written(all.take(i as int)),
        decreases procs@.len() - i,
    {
        proof {
            lemma_procs_grow(all, i + 1);
            assert(all.take(i + 1).drop_last() =~= all.take(i as int));
        }
        read = read + procs[i].read_bytes;
        write = write + procs[i].written_bytes;
        i = i + 1;
    }
    assert(all.take(procs@.len() as int) =~= all);
    (read, write)
}

/// Bytes received, bytes transmitted, errors and drops, across all interfaces.
/// Drops are not counted anywhere, so there are none.
pub fn net_totals(nets: &Vec<NetReading>) -> (r: (u64, u64, u64, u64))
    requires
        Total::nets_fit(nets@),
    ensures
        r.0 == Total::received(nets@),
        r.1 == Total::transmitted(nets@),
        r.2 == Total::errors(nets@),
        r.3 == 0,
{
    let mut rx: u64 = 0;
    let mut tx: u64 = 0;
    let mut errs: u64 = 0;
    let mut i: usize = 0;
    while i < nets.len()
        invariant
            i <= nets@.len(),
            Total::nets_fit(nets@),
            rx == Total::received(nets@.take(i as int)),
            tx == Total::transmitted(nets@.take(i as int)),
            errs == Total::errors(nets@.take(i as int)),
        decreases nets@.len() - i,
    {
        proof {
            lemma_nets_grow(nets@, i + 1);
            assert(nets@.take(i + 1).drop_last() =~= nets@.take(i as int));
        }
        rx = rx + nets[i].received;
        tx = tx + nets[i].transmitted;
        errs = errs + (nets[i].errors_on_received + nets[i].errors_on_transmitted);
        i = i + 1;
    }
    assert(nets@.take(nets@.len() as int) =~= nets@);
    (rx, tx, errs, 0)
}

/// What a counter grew by; nothing where it went back.
pub open spec fn growth(before: u64, after: u64) -> nat {
    if after >= before {
        (after - before) as nat
    } else {
        0
    }
}

/// What a counter grew by per second; nothing where it went back.
pub fn delta_rate(before: u64, after: u64, secs: Double) -> (r: Double)
    requires
        secs.bits != 0,
    ensures
        r == Double::of(growth(before, after)).over(secs),
        r.wf(),
{
    Double::from_int(after.saturating_sub(before)).div(secs)
}

/// The same items once more.
pub(crate) fn copy_all<T: Copy>(v: &Vec<T>) -> (r: Vec<T>)
    ensures
        r@ == v@,
{
    let mut r: Vec<T> = Vec::new();
    let mut i: usize = 0;
    while i < v.len()
        invariant
            i <= v@.len(),
            r@ == v@.take(i as int),
        decreases v@.len() - i,
    {
        r.push(v[i]);
        assert(v@.take(i + 1) =~= v@.take(i as int).push(v@[i as int]));
        i = i + 1;
    }
    assert(v@.take(v@.len() as int) =~= v@);
    r
}

impl Default for ProcSample {
    fn default() -> (r: ProcSample)
        ensures
            r == (ProcSample {
                pid: 0,
                cpu: Single { bits: 0 },
                mem: 0,
                disk_bps: Double { bits: 0 },
            }),
    {
        ProcSample { pid: 0, cpu: Single { bits: 0 }, mem: 0, disk_bps: Double { bits: 0 } }
    }
}

impl Default for AggProcess {
    fn default() -> (r: AggProcess)
        ensures
            r.deep_view() == Tally::empty(Seq::empty()).group,
    {
        let r = AggProcess {
            name: String::new(),
            cpu: Single { bits: 0 },
            mem: 0,
            count: 0,
            disk_bps: Double { bits: 0 },
            max_uptime_secs: 0,
            cmd: String::new(),
            samples: Vec::new(),
            all_pids: Vec::new(),
            all_uids: Vec::new(),
        };
        proof {
            assert(r.deep_view().name =~= Seq::empty());
            assert(r.deep_view().cmd =~= Seq::empty());
        }
        r
    }
}

impl Clone for AggProcess {
    fn clone(&self) -> (r: AggProcess)
        ensures
            r.deep_view() == self.deep_view(),
    {
        AggProcess {
            name: self.name.clone(),
            cpu: self.cpu,
            mem: self.mem,
            count: self.count,
            disk_bps: self.disk_bps,
            max_uptime_secs: self.max_uptime_secs,
            cmd: self.cmd.clone(),
            samples: copy_all(&self.samples),
            all_pids: copy_all(&self.all_pids),
            all_uids: copy_all(&self.all_uids),
        }
    }
}

impl Clone for Metrics {
    fn clone(&self) -> (r: Metrics)
        ensures
            r.deep_view() == self.deep_view(),
    {
        let r = Metrics {
            cpu: self.cpu,
            mem: self.mem,
            disk: self.disk,
            net: self.net,
            top_cpu: self.top_cpu.clone(),
            top_mem: self.top_mem.clone(),
            top_disk: self.top_disk.clone(),
        };
        proof {
            assert(r.top_cpu.deep_view() =~= self.top_cpu.deep_view());
            assert(r.top_mem.deep_view() =~= self.top_mem.deep_view());
            assert(r.top_disk.deep_view() =~= self.top_disk.deep_view());
        }
        r
    }
}

impl AggProcess {
    /// The groups at these positions, in this order.
    pub fn pick(groups: &Vec<AggProcess>, order: &Vec<usize>) -> (r: Vec<AggProcess>)
        requires
            forall|i: int| 0 <= i < order@.len() ==> #[trigger] order@[i] < groups@.len(),
        ensures
            r.deep_view() == rank::picked(
                groups.deep_view(),
                order@.map_values(|i: usize| i as int),
            ),
    {
        let mut r: Vec<AggProcess> = Vec::new();
        let mut i: usize = 0;
        while i < order.len()
            invariant
                i <= order@.len() == order.len(),
                forall|i: int| 0 <= i < order@.len() ==> #[trigger] order@[i] < groups@.len(),
                r@.len() == i,
                forall|k: int|
                    0 <= k < i ==> (#[trigger] r@[k]).deep_view()
                        == groups@[order@[k] as int].deep_view(),
            decreases order@.len() - i,
        {
            r.push(groups[order[i]].clone());
            i = i + 1;
        }
        assert(r.deep_view() =~= rank::picked(
            groups.deep_view(),
            order@.map_values(|i: usize| i as int),
        ));
        r
    }
}

/// A group under construction.
struct Gathering {
    agg: AggProcess,
    best: u64,
}

impl DeepView for Gathering {
    type V = Tally;

    closed spec fn deep_view(&self) -> Tally {
        Tally { group: self.agg.deep_view(), best: self.best }
    }
}

impl ProcReading {
    /// The command line, or the executable where there is none.
    pub fn command(&self) -> (r: String)
        ensures
            r@ == self.deep_view().command(),
    {
        proof {
            assert(self.deep_view().cmd.len() == self.cmd@.len());
        }
        if self.cmd.len() == 0 {
            match &self.exe {
                Some(s) => s.clone(),
                None => String::new(),
            }
        } else {
            text::joined(&self.cmd, " ")
        }
    }

    /// Bytes per second read and written, over `secs` seconds.
    pub fn disk_rate(&self, secs: Double) -> (r: Double)
        requires
            self.read_bytes + self.written_bytes <= u64::MAX,
            secs.bits != 0,
        ensures
            r == self.deep_view().disk_bps(secs),
    {
        Double::from_int(self.read_bytes + self.written_bytes).div(secs)
    }
}

impl Gathering {
    fn empty(name: String) -> (r: Gathering)
        ensures
            r.deep_view() == Tally::empty(name@),
    {
        let mut agg = AggProcess::default();
        agg.name = name;
        Gathering { agg, best: 0 }
    }

    fn add(self, p: &ProcReading, secs: Double) -> (r: Gathering)
        requires
            self.agg.mem + p.mem <= u64::MAX,
            self.agg.count < usize::MAX,
            p.read_bytes + p.written_bytes <= u64::MAX,
            secs.bits != 0,
        ensures
            r.deep_view() == self.deep_view().with(p.deep_view(), secs),
    {
        let ghost start = self.deep_view();
        let mut g = self;
        let disk_bps = p.disk_rate(secs);
        g.agg.cpu = g.agg.cpu.add(p.cpu);
        g.agg.mem = g.agg.mem + p.mem;
        g.agg.count = g.agg.count + 1;
        g.agg.disk_bps = g.agg.disk_bps.add(disk_bps);
        if p.uptime_secs > g.agg.max_uptime_secs {
            g.agg.max_uptime_secs = p.uptime_secs;
        }
        g.agg.samples.push(ProcSample { pid: p.pid, cpu: p.cpu, mem: p.mem, disk_bps });
        g.agg.all_pids.push(p.pid);
        let uid: u32 = match p.uid {
            Some(u) => u,
            None => 0,
        };
        g.agg.all_uids.push(uid);
        let cmd = p.command();
        if p.mem >= g.best && !cmd.as_str().is_empty() {
            g.best = p.mem;
            g.agg.cmd = cmd;
        }
        proof {
            assert(g.deep_view() == start.with(p.deep_view(), secs));
        }
        g
    }

    fn find(groups: &Vec<Gathering>, name: &String) -> (r: usize)
        ensures
            r == Tally::find(groups.deep_view(), name@, 0),
            r <= groups@.len(),
    {
        let ghost all = groups.deep_view();
        let mut i: usize = 0;
        while i < groups.len() && !(groups[i].agg.name == *name)
            invariant
                all == groups.deep_view(),
                i <= groups@.len(),
                Tally::find(all, name@, 0) == Tally::find(all, name@, i as int),
            ensures
                i <= groups@.len(),
                i == Tally::find(all, name@, 0),
            decreases groups@.len() - i,
        {
            i = i + 1;
        }
        i
    }

    /// The groups of these processes.
    fn all(procs: &Vec<ProcReading>, secs: Double) -> (r: Vec<Gathering>)
        requires
            Total::groups_fit(procs.deep_view()),
            secs.bits != 0,
        ensures
            r.deep_view() == Tally::of(procs.deep_view(), secs),
    {
        let ghost all = procs.deep_view();
        let mut groups: Vec<Gathering> = Vec::new();
        let mut i: usize = 0;
        proof {
            assert(groups.deep_view() =~= Tally::of(all.take(0), secs));
        }
        while i < procs.len()
            invariant
                all == procs.deep_view(),
                i <= procs@.len() == procs.len(),
                Total::groups_fit(all),
                secs.bits != 0,
                groups.deep_view() == Tally::of(all.take(i as int), secs),
            decreases procs@.len() - i,
        {
            let p = &procs[i];
            let ghost done = all.take(i as int);
            let ghost before = groups.deep_view();
            let name = normalize_name(p.name.as_str());
            let at = Gathering::find(&groups, &name);
            proof {
                lemma_procs_grow(all, i as int);
                lemma_procs_grow(all, i + 1);
                assert forall|name: Seq<char>| #[trigger]
                    Total::memory_of(done, name) <= u64::MAX by {
                    assert(Total::memory_of(all, name) <= u64::MAX);
                }
                lemma_tallies(done, secs);
                lemma_find(before, name@, 0);
                assert(all.take(i + 1).drop_last() =~= done);
                assert(all[i as int] == p.deep_view());
                assert(Total::memory_of(all.take(i + 1), name@) == Total::memory_of(done, name@) + p.mem);
                assert(Total::memory_of(all.take(i + 1), name@) <= Total::memory_of(all, name@));
                assert(Total::memory_of(all, name@) <= u64::MAX);
            }
            if at == groups.len() {
                let fresh = Gathering::empty(name).add(p, secs);
                groups.push(fresh);
                proof {
                    assert(groups.deep_view() =~= before.push(
                        Tally::empty(name@).with(p.deep_view(), secs),
                    ));
                }
            } else {
                let g = groups.remove(at);
                proof {
                    assert(before[at as int] == g.deep_view());
                }
                let g = g.add(p, secs);
                groups.insert(at, g);
                proof {
                    assert(groups.deep_view() =~= before.update(at as int, g.deep_view()));
                }
            }
            i = i + 1;
        }
        assert(all.take(procs@.len() as int) =~= all);
        groups
    }
}

proof fn lemma_find(t: Seq<Tally>, name: Seq<char>, from: int)
    requires
        0 <= from <= t.len(),
    ensures
        from <= Tally::find(t, name, from) <= t.len(),
        Tally::find(t, name, from) < t.len() ==> t[Tally::find(t, name, from)].group.name == name,
        forall|i: int|
            from <= i < Tally::find(t, name, from) ==> (#[trigger] t[i]).group.name != name,
    decreases t.len() - from,
{
    if from < t.len() && t[from].group.name != name {
        lemma_find(t, name, from + 1);
    }
}

/// What the groups of a list of processes are like.
proof fn lemma_tallies(procs: Seq<ProcView>, secs: Double)
    requires
        forall|name: Seq<char>| #[trigger] Total::memory_of(procs, name) <= u64::MAX,
        procs.len() <= usize::MAX,
    ensures
        ({
            let t = Tally::of(procs, secs);
            &&& forall|i: int|
                0 <= i < t.len() ==> (#[trigger] t[i]).group.mem == Total::memory_of(
                    procs,
                    t[i].group.name,
                )
            &&& forall|i: int| 0 <= i < t.len() ==> (#[trigger] t[i]).group.count <= procs.len()
            &&& forall|i: int, j: int|
                0 <= i < j < t.len() ==> (#[trigger] t[i]).group.name != (
                #[trigger] t[j]).group.name
            &&& forall|name: Seq<char>|
                Tally::find(t, name, 0) == t.len() ==> #[trigger] Total::memory_of(procs, name)
                    == 0
        }),
    decreases procs.len(),
{
    let t = Tally::of(procs, secs);
    if procs.len() > 0 {
        let rest = procs.drop_last();
        let p = procs.last();
        let u = Tally::of(rest, secs);
        assert forall|name: Seq<char>| #[trigger] Total::memory_of(rest, name) <= u64::MAX by {
            assert(Total::memory_of(procs, name) <= u64::MAX);
        }
        lemma_tallies(rest, secs);
        let at = Tally::find(u, p.group(), 0);
        lemma_find(u, p.group(), 0);
        assert forall|i: int| 0 <= i < t.len() implies (#[trigger] t[i]).group.mem
            == Total::memory_of(procs, t[i].group.name) && t[i].group.count <= procs.len() by {
            assert(Total::memory_of(procs, t[i].group.name) <= u64::MAX);
            if i == at {
                if at < u.len() {
                    assert(u[at].group.name == p.group());
                } else {
                    assert(Total::memory_of(rest, p.group()) == 0);
                }
            } else {
                assert(t[i] == u[i]);
                if at < u.len() {
                    assert(u[at].group.name == p.group());
                    if i < at {
                        assert(u[i].group.name != u[at].group.name);
                    } else {
                        assert(u[at].group.name != u[i].group.name);
                    }
                }
            }
        }
        assert forall|i: int, j: int| 0 <= i < j < t.len() implies (#[trigger] t[i]).group.name != (
        #[trigger] t[j]).group.name by {
            if j < u.len() {
                assert(u[i].group.name != u[j].group.name);
            }
        }
        assert forall|name: Seq<char>| Tally::find(t, name, 0) == t.len() implies
            #[trigger] Total::memory_of(procs, name) == 0 by {
            lemma_find(t, name, 0);
            lemma_find(u, name, 0);
            let k = Tally::find(u, name, 0);
            if k < u.len() {
                assert(t[k].group.name == name);
            }
            assert(Total::memory_of(rest, name) == 0);
            if p.group() == name {
                assert(t[at].group.name == name);
            }
        }
    }
}

impl AggProcess {
    /// The group with CPU shares of the whole machine in place of shares of one
    /// core, and with only its five largest samples.
    pub fn settle(self, cores: Single) -> (r: AggProcess)
        requires
            0 < cores.bits < crate::float::SINGLE_INFINITY,
        ensures
            r.deep_view() == self.deep_view().settled(cores),
    {
        let ghost start = self.deep_view();
        let mut keys: Vec<u64> = Vec::new();
        let mut i: usize = 0;
        while i < self.samples.len()
            invariant
                i <= self.samples@.len(),
                keys@.len() == i,
                forall|k: int| 0 <= k < i ==> #[trigger] keys@[k] == self.samples@[k].mem,
            decreases self.samples@.len() - i,
        {
            keys.push(self.samples[i].mem);
            i = i + 1;
        }
        let order = rank::rank(&keys);
        let ghost scaled = start.samples.map_values(
            |s: ProcSample|
                ProcSample { pid: s.pid, cpu: s.cpu.over(cores), mem: s.mem, disk_bps: s.disk_bps },
        );
        let ghost shown = rank::picked(scaled, rank::ranking(keys@));
        proof {
            assert(keys@ =~= start.samples.map_values(|s: ProcSample| s.mem));
        }
        let mut samples: Vec<ProcSample> = Vec::new();
        let mut k: usize = 0;
        while k < order.len() && k < 5
            invariant
                k <= order@.len() == order.len(),
                k <= 5,
                0 < cores.bits < crate::float::SINGLE_INFINITY,
                order@.len() == self.samples@.len() == scaled.len(),
                order@.map_values(|i: usize| i as int) == rank::ranking(keys@),
                start == self.deep_view(),
                scaled == start.samples.map_values(
                    |s: ProcSample|
                        ProcSample {
                            pid: s.pid,
                            cpu: s.cpu.over(cores),
                            mem: s.mem,
                            disk_bps: s.disk_bps,
                        },
                ),
                shown == rank::picked(scaled, rank::ranking(keys@)),
                forall|i: int| 0 <= i < order@.len() ==> #[trigger] order@[i] < self.samples@.len(),
                samples@ == shown.take(k as int),
            decreases order@.len() - k,
        {
            proof {
                assert(order@.map_values(|i: usize| i as int)[k as int] == order@[k as int]);
            }
            let s = self.samples[order[k]];
            let t = ProcSample { pid: s.pid, cpu: s.cpu.div(cores), mem: s.mem, disk_bps: s.disk_bps };
            samples.push(t);
            proof {
                assert(shown[k as int] == t);
                assert(shown.take(k + 1) =~= shown.take(k as int).push(t));
            }
            k = k + 1;
        }
        proof {
            assert(shown.len() == order@.len());
            assert(samples@ =~= first_of(shown, 5));
        }
        let mut g = self;
        g.cpu = g.cpu.div(cores);
        g.samples = samples;
        g
    }
}

impl Reading {
    /// Every sum over this reading can be counted in 64 bits.
    pub open spec fn fits(self) -> bool {
        &&& Total::disk_fits(self.procs.deep_view())
        &&& Total::nets_fit(self.nets@)
        &&& Total::groups_fit(self.procs.deep_view())
    }

    /// The groups of the processes, over `secs` seconds.
    pub open spec fn groups(self, secs: Double) -> Seq<AggView> {
        let cores = Single::of(diagnose::at_least_one(self.logical_cores as u64) as nat);
        Tally::of(self.procs.deep_view(), secs).map_values(|t: Tally| t.group.settled(cores))
    }
}

impl MetricsView {
    /// What two readings, `ms` milliseconds apart, come to. Swap use and the network
    /// counters have grown since the first; what a process read and wrote is counted
    /// since the first already.
    pub open spec fn between(before: Reading, after: Reading, ms: u64, top_n: nat) -> MetricsView {
        let secs = Double::of(ms as nat).over(Double::of(1000));
        let rate = |a: nat, b: nat| Double::of(growth(a as u64, b as u64)).over(secs);
        let procs = after.procs.deep_view();
        let groups = after.groups(secs);
        MetricsView {
            cpu: CpuMetrics {
                usage_pct: after.cpu_usage,
                load1: after.load1,
                logical_cores: after.logical_cores,
            },
            mem: MemMetrics {
                total: after.total_memory,
                used: after.used_memory,
                swap_total: after.total_swap,
                swap_used: after.used_swap,
                swap_rate: crate::float::at_most(
                    rate(before.used_swap as nat, after.used_swap as nat).whole(),
                    u64::MAX as nat,
                ) as u64,
            },
            disk: DiskMetrics {
                read_bps: Double::of(Total::read(procs)).over(secs),
                write_bps: Double::of(Total::written(procs)).over(secs),
            },
            net: NetMetrics {
                rx_bps: rate(Total::received(before.nets@), Total::received(after.nets@)),
                tx_bps: rate(Total::transmitted(before.nets@), Total::transmitted(after.nets@)),
                errors: growth(
                    Total::errors(before.nets@) as u64,
                    Total::errors(after.nets@) as u64,
                ) as u64,
                drops: 0,
            },
            top_cpu: AggView::top_by_cpu(groups, top_n),
            top_mem: AggView::top_by_mem(groups, top_n),
            top_disk: AggView::top_by_disk(groups, top_n),
        }
    }
}

/// The metrics between two readings, `sample_interval_ms` milliseconds apart,
/// with the `top_n` heaviest programs by CPU, by memory and by disk use.
pub fn collect(before: &Reading, after: &Reading, sample_interval_ms: u64, top_n: usize) -> (r:
    Metrics)
    requires
        Total::nets_fit(before.nets@),
        after.fits(),
        sample_interval_ms > 0,
    ensures
        r.deep_view() == MetricsView::between(*before, *after, sample_interval_ms, top_n as nat),
{
    let secs = Double::from_int(sample_interval_ms).div(Double::from_int(1000));
    proof {
        crate::exact::lemma_seconds(sample_interval_ms);
    }
    let (disk_read, disk_write) = proc_disk_totals(&after.procs);
    let (rx_1, tx_1, errs_1, drops_1) = net_totals(&before.nets);
    let (rx_2, tx_2, errs_2, drops_2) = net_totals(&after.nets);
    let swap_rate: u64 = delta_rate(before.used_swap, after.used_swap, secs).to_int();
    let cores = Single::from_int(diagnose::one_or_more(after.logical_cores as u64));
    let mut rest = Gathering::all(&after.procs, secs);
    let ghost tallies = rest.deep_view();
    let ghost groups = tallies.map_values(|t: Tally| t.group.settled(cores));
    let mut procs: Vec<AggProcess> = Vec::new();
    let mut left: usize = rest.len();
    while left > 0
        invariant
            left == rest@.len(),
            0 < cores.bits < crate::float::SINGLE_INFINITY,
            rest@.len() + procs@.len() == groups.len() == tallies.len(),
            groups == tallies.map_values(|t: Tally| t.group.settled(cores)),
            rest.deep_view() == tallies.skip(procs@.len() as int),
            procs.deep_view() == groups.take(procs@.len() as int),
        decreases left,
    {
        proof {
            assert(rest.deep_view()[0] == tallies[procs@.len() as int]);
        }
        let ghost old_rest = rest.deep_view();
        let g = rest.remove(0);
        let ghost n = procs@.len() as int;
        procs.push(g.agg.settle(cores));
        proof {
            assert(rest.deep_view() =~= old_rest.skip(1));
            assert(old_rest.skip(1) =~= tallies.skip(n + 1));
            assert(procs.deep_view() =~= groups.take(n + 1));
        }
        left = left - 1;
    }
    proof {
        assert(procs.deep_view() =~= groups);
    }
    Metrics {
        cpu: CpuMetrics {
            usage_pct: after.cpu_usage,
            load1: after.load1,
            logical_cores: after.logical_cores,
        },
        mem: MemMetrics {
            total: after.total_memory,
            used: after.used_memory,
            swap_total: after.total_swap,
            swap_used: after.used_swap,
            swap_rate,
        },
        disk: DiskMetrics {
            read_bps: Double::from_int(disk_read).div(secs),
            write_bps: Double::from_int(disk_write).div(secs),
        },
        net: NetMetrics {
            rx_bps: delta_rate(rx_1, rx_2, secs),
            tx_bps: delta_rate(tx_1, tx_2, secs),
            errors: errs_2.saturating_sub(errs_1),
            drops: drops_2.saturating_sub(drops_1),
        },
        top_cpu: top_cpu(&procs, top_n),
        top_mem: top_mem(&procs, top_n),
        top_disk: top_disk(&procs, top_n),
    }
}

/// Whether the memory of each program can be counted in 64 bits.
fn memory_countable(procs: &Vec<ProcReading>) -> (r: bool)
    ensures
        r == forall|name: Seq<char>| #[trigger]
            Total::memory_of(procs.deep_view(), name) <= u64::MAX,
{
    let ghost all = procs.deep_view();
    let mut names: Vec<String> = Vec::new();
    let mut sums: Vec<u64> = Vec::new();
    let mut i: usize = 0;
    while i < procs.len()
        invariant
            all == procs.deep_view(),
            i <= procs@.len(),
            names@.len() == sums@.len(),
            forall|k: int|
                0 <= k < names@.len() ==> sums@[k] == Total::memory_of(
                    all.take(i as int),
                    (#[trigger] names@[k])@,
                ),
            forall|k: int, l: int|
                0 <= k < l < names@.len() ==> (#[trigger] names@[k])@ != (#[trigger] names@[l])@,
            forall|name: Seq<char>|
                !text::texts(names@).contains(name) ==> #[trigger] Total::memory_of(
                    all.take(i as int),
                    name,
                ) == 0,
        decreases procs@.len() - i,
    {
        let p = &procs[i];
        let ghost done = all.take(i as int);
        let ghost next = all.take(i + 1);
        let ghost old_names = names@;
        let name = normalize_name(p.name.as_str());
        let ghost n = name@;
        let mut at: usize = 0;
        while at < names.len() && !(names[at] == name)
            invariant
                at <= names@.len(),
                forall|k: int| 0 <= k < at ==> (#[trigger] names@[k])@ != name@,
            ensures
                at <= names@.len(),
                forall|k: int| 0 <= k < at ==> (#[trigger] names@[k])@ != name@,
                at < names@.len() ==> names@[at as int]@ == name@,
            decreases names@.len() - at,
        {
            at = at + 1;
        }
        proof {
            lemma_procs_grow(all, i + 1);
            assert(next.drop_last() =~= done);
            assert(all[i as int] == p.deep_view());
            assert(Total::memory_of(next, n) == Total::memory_of(done, n) + p.mem);
            assert(Total::memory_of(next, n) <= Total::memory_of(all, n));
        }
        if at == names.len() {
            proof {
                assert(!text::texts(old_names).contains(n)) by {
                    if text::texts(old_names).contains(n) {
                        let k = choose|k: int|
                            0 <= k < old_names.len() && text::texts(old_names)[k] == n;
                        assert(old_names[k]@ == n);
                    }
                }
            }
            names.push(name);
            sums.push(p.mem);
        } else {
            match sums[at].checked_add(p.mem) {
                Some(sum) => {
                    sums.set(at, sum);
                },
                None => {
                    return false;
                },
            }
        }
        proof {
            assert(names@[at as int]@ == n);
            assert forall|k: int| 0 <= k < names@.len() implies sums@[k] == Total::memory_of(
                next,
                (#[trigger] names@[k])@,
            ) by {
                if k != at {
                    assert(names@[k]@ == old_names[k]@);
                    assert(names@[k]@ != n) by {
                        if k > at {
                            assert(old_names[at as int]@ != old_names[k]@);
                        }
                    }
                }
            }
            assert forall|name: Seq<char>|
                !text::texts(names@).contains(name) implies #[trigger] Total::memory_of(next, name)
                == 0 by {
                assert(text::texts(names@)[at as int] == n);
                assert(n != name);
                assert(!text::texts(old_names).contains(name)) by {
                    if text::texts(old_names).contains(name) {
                        let k = choose|k: int|
                            0 <= k < old_names.len() && text::texts(old_names)[k] == name;
                        assert(text::texts(names@)[k] == name);
                    }
                }
                assert(Total::memory_of(done, name) == 0);
            }
        }
        i = i + 1;
    }
    proof {
        assert(all.take(all.len() as int) =~= all);
        assert forall|name: Seq<char>| #[trigger] Total::memory_of(all, name) <= u64::MAX by {
            if text::texts(names@).contains(name) {
                let k = choose|k: int| 0 <= k < names@.len() && text::texts(names@)[k] == name;
                assert(names@[k]@ == name);
            }
        }
    }
    true
}

impl Reading {
    fn nets_countable(&self) -> (r: bool)
        ensures
            r == Total::nets_fit(self.nets@),
    {
        let mut rx: u64 = 0;
        let mut tx: u64 = 0;
        let mut errs: u64 = 0;
        let mut i: usize = 0;
        while i < self.nets.len()
            invariant
                i <= self.nets@.len(),
                rx == Total::received(self.nets@.take(i as int)),
                tx == Total::transmitted(self.nets@.take(i as int)),
                errs == Total::errors(self.nets@.take(i as int)),
            decreases self.nets@.len() - i,
        {
            let n = self.nets[i];
            proof {
                lemma_nets_grow(self.nets@, i + 1);
                assert(self.nets@.take(i + 1).drop_last() =~= self.nets@.take(i as int));
            }
            match (
                rx.checked_add(n.received),
                tx.checked_add(n.transmitted),
                errs.checked_add(n.errors_on_received),
            ) {
                (Some(a), Some(b), Some(c)) => {
                    rx = a;
                    tx = b;
                    match c.checked_add(n.errors_on_transmitted) {
                        Some(d) => {
                            errs = d;
                        },
                        None => {
                            return false;
                        },
                    }
                },
                _ => {
                    return false;
                },
            }
            i = i + 1;
        }
        assert(self.nets@.take(self.nets@.len() as int) =~= self.nets@);
        true
    }

    /// Whether every sum over this reading can be counted in 64 bits.
    pub fn is_countable(&self) -> (r: bool)
        ensures
            r == self.fits(),
    {
        if !self.nets_countable() || !memory_countable(&self.procs) {
            return false;
        }
        let ghost all = self.procs.deep_view();
        let mut read: u64 = 0;
        let mut write: u64 = 0;
        let mut i: usize = 0;
        while i < self.procs.len()
            invariant
                all == self.procs.deep_view(),
                i <= self.procs@.len(),
                read == Total::read(all.take(i as int)),
                write == Total::written(all.take(i as int)),
                forall|k: int|
                    0 <= k < i ==> (#[trigger] all[k]).read_bytes + all[k].written_bytes
                        <= u64::MAX,
            decreases self.procs@.len() - i,
        {
            let p = &self.procs[i];
            proof {
                lemma_procs_grow(all, i + 1);
                assert(all.take(i + 1).drop_last() =~= all.take(i as int));
                assert(all[i as int] == p.deep_view());
            }
            match (
                read.checked_add(p.read_bytes),
                write.checked_add(p.written_bytes),
                p.read_bytes.checked_add(p.written_bytes),
            ) {
                (Some(a), Some(b), Some(_)) => {
                    read = a;
                    write = b;
                },
                _ => {
                    return false;
                },
            }
            i = i + 1;
        }
        assert(all.take(all.len() as int) =~= all);
        true
    }
}

/// The metrics between two readings, as `collect` gives them, where there was
/// time between the readings and what is summed can be counted in 64 bits.
pub fn measure(before: &Reading, after: &Reading, sample_interval_ms: u64, top_n: usize) -> (r:
    Option<Metrics>)
    ensures
        r is Some <==> Total::nets_fit(before.nets@) && after.fits() && sample_interval_ms > 0,
        r matches Some(m) ==> m.deep_view() == MetricsView::between(
            *before,
            *after,
            sample_interval_ms,
            top_n as nat,
        ),
{
    if sample_interval_ms > 0 && before.nets_countable() && after.is_countable() {
        Some(collect(before, after, sample_interval_ms, top_n))
    } else {
        None
    }
}

/// The `n` groups that use the most CPU.
pub fn top_cpu(procs: &Vec<AggProcess>, n: usize) -> (r: Vec<AggProcess>)
    ensures
        r.deep_view() == AggView::top_by_cpu(procs.deep_view(), n as nat),
{
    let mut keys: Vec<u64> = Vec::new();
    let mut i: usize = 0;
    while i < procs.len()
        invariant
            i <= procs@.len(),
            keys@.len() == i,
            forall|k: int| 0 <= k < i ==> #[trigger] keys@[k] == procs@[k].cpu.bits as u64,
        decreases procs@.len() - i,
    {
        keys.push(procs[i].cpu.bits as u64);
        i = i + 1;
    }
    proof {
        assert(keys@ =~= procs.deep_view().map_values(|g: AggView| g.cpu.bits as u64));
    }
    cut(AggProcess::pick(procs, &rank::rank(&keys)), n)
}

/// The `n` groups that move the most bytes to and from disk.
pub fn top_disk(procs: &Vec<AggProcess>, n: usize) -> (r: Vec<AggProcess>)
    ensures
        r.deep_view() == AggView::top_by_disk(procs.deep_view(), n as nat),
{
    let mut keys: Vec<u64> = Vec::new();
    let mut i: usize = 0;
    while i < procs.len()
        invariant
            i <= procs@.len(),
            keys@.len() == i,
            forall|k: int| 0 <= k < i ==> #[trigger] keys@[k] == procs@[k].disk_bps.bits,
        decreases procs@.len() - i,
    {
        keys.push(procs[i].disk_bps.bits);
        i = i + 1;
    }
    proof {
        assert(keys@ =~= procs.deep_view().map_values(|g: AggView| g.disk_bps.bits));
    }
    cut(AggProcess::pick(procs, &rank::rank(&keys)), n)
}

/// The `n` groups that hold the most memory.
pub fn top_mem(procs: &Vec<AggProcess>, n: usize) -> (r: Vec<AggProcess>)
    ensures
        r.deep_view() == AggView::top_by_mem(procs.deep_view(), n as nat),
{
    let mut keys: Vec<u64> = Vec::new();
    let mut i: usize = 0;
    while i < procs.len()
        invariant
            i <= procs@.len(),
            keys@.len() == i,
            forall|k: int| 0 <= k < i ==> #[trigger] keys@[k] == procs@[k].mem,
        decreases procs@.len() - i,
    {
        keys.push(procs[i].mem);
        i = i + 1;
    }
    proof {
        assert(keys@ =~= procs.deep_view().map_values(|g: AggView| g.mem));
    }
    cut(AggProcess::pick(procs, &rank::rank(&keys)), n)
}

fn cut(groups: Vec<AggProcess>, n: usize) -> (r: Vec<AggProcess>)
    ensures
        r.deep_view() == first_of(groups.deep_view(), n as nat),
{
    let ghost all = groups.deep_view();
    let mut groups = groups;
    if groups.len() > n {
        groups.truncate(n);
    }
    proof {
        assert(groups.deep_view() =~= first_of(all, n as nat));
    }
    groups
}

// ---------------------------------------------------------------------------
// What holds of every collection
// ---------------------------------------------------------------------------

impl ProcView {
    /// The processes of one program.
    pub open spec fn members(procs: Seq<ProcView>, name: Seq<char>) -> Seq<ProcView> {
        procs.filter(|p: ProcView| p.group() == name)
    }

    /// The sample is of one of these processes.
    pub open spec fn sampled(procs: Seq<ProcView>, sample: ProcSample) -> bool {
        exists|k: int|
            0 <= k < procs.len() && (#[trigger] procs[k]).pid == sample.pid && procs[k].mem
                == sample.mem
    }

    /// The owner, root where it cannot be read.
    pub open spec fn owner(self) -> u32 {
        match self.uid {
            Some(u) => u,
            None => 0,
        }
    }
}

impl AggView {
    /// The group lists these processes and the owner of each, and its uptime is that
    /// of the one that runs longest.
    pub open spec fn gathers(self, members: Seq<ProcView>) -> bool {
        &&& self.count == members.len()
        &&& self.all_pids == members.map_values(|p: ProcView| p.pid)
        &&& self.all_uids == members.map_values(|p: ProcView| p.owner())
        &&& forall|k: int|
            0 <= k < members.len() ==> (#[trigger] members[k]).uptime_secs <= self.max_uptime_secs
        &&& members.len() > 0 ==> exists|k: int|
            0 <= k < members.len() && (#[trigger] members[k]).uptime_secs == self.max_uptime_secs
    }

    /// The group is made up of these processes, and has samples of five of them, or of
    /// all where they are fewer.
    pub open spec fn consists_of(self, members: Seq<ProcView>) -> bool {
        &&& self.gathers(members)
        &&& self.samples.len() == if self.count < 5 {
            self.count as nat
        } else {
            5
        }
        &&& forall|i: int|
            0 <= i < self.samples.len() ==> ProcView::sampled(members, #[trigger] self.samples[i])
    }
}

proof fn lemma_members(procs: Seq<ProcView>, name: Seq<char>)
    requires
        procs.len() > 0,
    ensures
        ProcView::members(procs, name) == if procs.last().group() == name {
            ProcView::members(procs.drop_last(), name).push(procs.last())
        } else {
            ProcView::members(procs.drop_last(), name)
        },
        ProcView::members(procs.drop_last(), name).len() <= procs.len() - 1,
{
    reveal(Seq::filter);
    lemma_members_len(procs.drop_last(), name);
}

proof fn lemma_members_len(procs: Seq<ProcView>, name: Seq<char>)
    ensures
        ProcView::members(procs, name).len() <= procs.len(),
    decreases procs.len(),
{
    reveal(Seq::filter);
    if procs.len() > 0 {
        lemma_members_len(procs.drop_last(), name);
    }
}

/// Before it is cut, a group has one sample of each process, in their order.
spec fn samples_follow(g: AggView, members: Seq<ProcView>) -> bool {
    &&& g.samples.len() == members.len()
    &&& forall|k: int|
        0 <= k < members.len() ==> (#[trigger] g.samples[k]).pid == members[k].pid && g.samples[k].mem
            == members[k].mem
    &&& members.len() == 0 ==> g.max_uptime_secs == 0
}

proof fn lemma_settled(g: AggView, members: Seq<ProcView>, cores: Single)
    requires
        g.gathers(members),
        samples_follow(g, members),
    ensures
        g.settled(cores).consists_of(members),
{
    let keys = g.samples.map_values(|s: ProcSample| s.mem);
    let order = rank::ranking(keys);
    let r = g.settled(cores);
    rank::ranking_exists(keys);
    assert forall|i: int| 0 <= i < r.samples.len() implies ProcView::sampled(
        members,
        #[trigger] r.samples[i],
    ) by {
        assert(0 <= order[i] < keys.len());
        assert(r.samples[i].pid == g.samples[order[i]].pid);
        assert(members[order[i]].pid == r.samples[i].pid);
    }
}

proof fn lemma_groups(procs: Seq<ProcView>, secs: Double)
    requires
        procs.len() <= usize::MAX,
    ensures
        ({
            let t = Tally::of(procs, secs);
            &&& forall|i: int|
                0 <= i < t.len() ==> (#[trigger] t[i]).group.gathers(
                    ProcView::members(procs, t[i].group.name),
                ) && samples_follow(t[i].group, ProcView::members(procs, t[i].group.name))
            &&& forall|i: int, j: int|
                0 <= i < j < t.len() ==> (#[trigger] t[i]).group.name != (
                #[trigger] t[j]).group.name
            &&& forall|name: Seq<char>|
                Tally::find(t, name, 0) == t.len() ==> (#[trigger] ProcView::members(
                    procs,
                    name,
                )).len() == 0
        }),
    decreases procs.len(),
{
    reveal(Seq::filter);
    let t = Tally::of(procs, secs);
    if procs.len() > 0 {
        let rest = procs.drop_last();
        let p = procs.last();
        let u = Tally::of(rest, secs);
        lemma_groups(rest, secs);
        let at = Tally::find(u, p.group(), 0);
        lemma_find(u, p.group(), 0);
        assert forall|i: int| 0 <= i < t.len() implies (#[trigger] t[i]).group.gathers(
            ProcView::members(procs, t[i].group.name),
        ) && samples_follow(t[i].group, ProcView::members(procs, t[i].group.name)) by {
            lemma_members(procs, t[i].group.name);
            let now = ProcView::members(procs, t[i].group.name);
            let then = ProcView::members(rest, t[i].group.name);
            if i == at {
                assert(now == then.push(p));
                let g = if at < u.len() {
                    u[at].group
                } else {
                    Tally::empty(p.group()).group
                };
                assert(g.gathers(then) && samples_follow(g, then)) by {
                    if at < u.len() {
                        assert(u[at].group.name == p.group());
                    } else {
                        assert(then.len() == 0);
                        assert(g.all_pids =~= then.map_values(|p: ProcView| p.pid));
                        assert(g.all_uids =~= then.map_values(|p: ProcView| p.owner()));
                    }
                }
                assert(t[i].group.all_pids =~= now.map_values(|p: ProcView| p.pid));
                assert(t[i].group.all_uids =~= now.map_values(|p: ProcView| p.owner()));
                assert forall|k: int| 0 <= k < now.len() implies (#[trigger] now[k]).uptime_secs
                    <= t[i].group.max_uptime_secs by {
                    if k < then.len() {
                        assert(now[k] == then[k]);
                    }
                }
                if p.uptime_secs >= g.max_uptime_secs || then.len() == 0 {
                    assert(now[then.len() as int].uptime_secs == t[i].group.max_uptime_secs);
                } else {
                    let k = choose|k: int|
                        0 <= k < then.len() && (#[trigger] then[k]).uptime_secs
                            == g.max_uptime_secs;
                    assert(now[k].uptime_secs == t[i].group.max_uptime_secs);
                }
            } else {
                assert(t[i] == u[i]);
                if at < u.len() {
                    assert(u[at].group.name == p.group());
                    if i < at {
                        assert(u[i].group.name != u[at].group.name);
                    } else {
                        assert(u[at].group.name != u[i].group.name);
                    }
                }
            }
        }
        assert forall|i: int, j: int| 0 <= i < j < t.len() implies (#[trigger] t[i]).group.name != (
        #[trigger] t[j]).group.name by {
            if j < u.len() {
                assert(u[i].group.name != u[j].group.name);
            }
        }
        assert forall|name: Seq<char>| Tally::find(t, name, 0) == t.len() implies (
        #[trigger] ProcView::members(procs, name)).len() == 0 by {
            lemma_find(t, name, 0);
            lemma_find(u, name, 0);
            lemma_members(procs, name);
            let k = Tally::find(u, name, 0);
            if k < u.len() {
                assert(t[k].group.name == name);
            }
            assert(ProcView::members(rest, name).len() == 0);
            if p.group() == name {
                assert(t[at].group.name == name);
            }
        }
    }
}

proof fn lemma_member(procs: Seq<ProcView>, k: int)
    requires
        0 <= k < procs.len(),
    ensures
        ProcView::members(procs, procs[k].group()).len() > 0,
    decreases procs.len(),
{
    lemma_members(procs, procs[k].group());
    if k < procs.len() - 1 {
        lemma_member(procs.drop_last(), k);
    }
}

/// Processes are grouped by program: no two groups have the same name, every process
/// is in the group of its program, and a group lists the processes of its program and
/// the owner of each, knows how many they are, the memory that they hold and how long
/// the oldest has run, and has samples of five of them at most.
pub proof fn groups_gather_programs(reading: Reading, secs: Double)
    requires
        reading.fits(),
        reading.procs@.len() <= usize::MAX,
    ensures
        forall|i: int, j: int|
            0 <= i < j < reading.groups(secs).len() ==> (#[trigger] reading.groups(secs)[i]).name != (
            #[trigger] reading.groups(secs)[j]).name,
        forall|k: int|
            0 <= k < reading.procs@.len() ==> AggView::lists(
                reading.groups(secs),
                (#[trigger] reading.procs.deep_view()[k]).group(),
            ),
        forall|i: int|
            0 <= i < reading.groups(secs).len() ==> (#[trigger] reading.groups(
                secs,
            )[i]).consists_of(
                ProcView::members(reading.procs.deep_view(), reading.groups(secs)[i].name),
            ),
        forall|i: int|
            0 <= i < reading.groups(secs).len() ==> (#[trigger] reading.groups(secs)[i]).mem
                == Total::memory_of(reading.procs.deep_view(), reading.groups(secs)[i].name),
{
    let procs = reading.procs.deep_view();
    let t = Tally::of(procs, secs);
    let groups = reading.groups(secs);
    lemma_groups(procs, secs);
    lemma_tallies(procs, secs);
    assert(groups.len() == t.len());
    assert forall|i: int| 0 <= i < groups.len() implies (#[trigger] groups[i]).consists_of(
        ProcView::members(procs, groups[i].name),
    ) && groups[i].mem == Total::memory_of(procs, groups[i].name) by {
        let cores = Single::of(diagnose::at_least_one(reading.logical_cores as u64) as nat);
        assert(t[i].group.gathers(ProcView::members(procs, t[i].group.name)));
        lemma_settled(t[i].group, ProcView::members(procs, t[i].group.name), cores);
        assert(groups[i] == t[i].group.settled(cores));
    }
    assert forall|i: int, j: int| 0 <= i < j < groups.len() implies (#[trigger] groups[i]).name != (
    #[trigger] groups[j]).name by {
        assert(t[i].group.name != t[j].group.name);
    }
    assert forall|k: int| 0 <= k < reading.procs@.len() implies AggView::lists(
        groups,
        (#[trigger] procs[k]).group(),
    ) by {
        lemma_member(procs, k);
        let name = procs[k].group();
        lemma_find(t, name, 0);
        let i = Tally::find(t, name, 0);
        assert(groups[i].name == name);
    }
}

/// `top` has `n` of the groups, or all where they are fewer, each no lighter than those
/// after it and than the groups that are left out.
pub open spec fn heaviest_first(
    top: Seq<AggView>,
    groups: Seq<AggView>,
    n: nat,
    no_lighter: spec_fn(AggView, AggView) -> bool,
) -> bool {
    &&& top.len() == if groups.len() <= n {
        groups.len()
    } else {
        n
    }
    &&& forall|i: int| 0 <= i < top.len() ==> groups.contains(#[trigger] top[i])
    &&& forall|i: int, j: int|
        0 <= i < j < top.len() ==> no_lighter(#[trigger] top[i], #[trigger] top[j])
    &&& forall|v: int|
        #![trigger groups[v]]
        0 <= v < groups.len() ==> top.contains(groups[v]) || (forall|i: int|
            0 <= i < top.len() ==> no_lighter(#[trigger] top[i], groups[v]))
}

proof fn lemma_heaviest_first(
    groups: Seq<AggView>,
    keys: Seq<u64>,
    n: nat,
    no_lighter: spec_fn(AggView, AggView) -> bool,
)
    requires
        keys.len() == groups.len(),
        forall|a: int, b: int|
            #![trigger keys[a], keys[b]]
            0 <= a < keys.len() && 0 <= b < keys.len() && keys[a] >= keys[b] ==> no_lighter(
                groups[a],
                groups[b],
            ),
    ensures
        heaviest_first(
            first_of(rank::picked(groups, rank::ranking(keys)), n),
            groups,
            n,
            no_lighter,
        ),
{
    let order = rank::ranking(keys);
    let top = first_of(rank::picked(groups, order), n);
    rank::ranking_exists(keys);
    assert forall|i: int, j: int| 0 <= i < j < order.len() implies keys[#[trigger] order[i]]
        >= keys[#[trigger] order[j]] by {
        assert(rank::before(keys, order[i], order[j]));
    }
    assert forall|i: int| 0 <= i < top.len() implies groups.contains(#[trigger] top[i]) && top[i]
        == groups[order[i]] by {}
    assert forall|i: int, j: int| 0 <= i < j < top.len() implies no_lighter(
        #[trigger] top[i],
        #[trigger] top[j],
    ) by {
        assert(keys[order[i]] >= keys[order[j]]);
    }
    assert forall|v: int|
        #![trigger groups[v]]
        0 <= v < groups.len() implies top.contains(groups[v]) || (forall|i: int|
        0 <= i < top.len() ==> no_lighter(#[trigger] top[i], groups[v])) by {
        assert(order.contains(v));
        let j = choose|j: int| 0 <= j < order.len() && order[j] == v;
        if j < top.len() {
            assert(top[j] == groups[v]);
        } else {
            assert forall|i: int| 0 <= i < top.len() implies no_lighter(
                #[trigger] top[i],
                groups[v],
            ) by {
                assert(keys[order[i]] >= keys[order[j]]);
            }
        }
    }
}

/// The programs that a collection keeps are the heaviest by CPU, by memory and by disk
/// use, the heaviest first.
pub proof fn top_lists_are_the_heaviest(before: Reading, after: Reading, ms: u64, top_n: nat)
    ensures
        ({
            let m = MetricsView::between(before, after, ms, top_n);
            let groups = after.groups(Double::of(ms as nat).over(Double::of(1000)));
            &&& heaviest_first(m.top_cpu, groups, top_n, |a: AggView, b: AggView| a.cpu.ge(b.cpu))
            &&& heaviest_first(m.top_mem, groups, top_n, |a: AggView, b: AggView| a.mem >= b.mem)
            &&& heaviest_first(
                m.top_disk,
                groups,
                top_n,
                |a: AggView, b: AggView| a.disk_bps.ge(b.disk_bps),
            )
        }),
{
    let groups = after.groups(Double::of(ms as nat).over(Double::of(1000)));
    let by_cpu = |a: AggView, b: AggView| a.cpu.ge(b.cpu);
    let by_mem = |a: AggView, b: AggView| a.mem >= b.mem;
    let by_disk = |a: AggView, b: AggView| a.disk_bps.ge(b.disk_bps);
    let cpu_keys = groups.map_values(|g: AggView| g.cpu.bits as u64);
    let mem_keys = groups.map_values(|g: AggView| g.mem);
    let disk_keys = groups.map_values(|g: AggView| g.disk_bps.bits);
    assert forall|a: int, b: int|
        #![trigger cpu_keys[a], cpu_keys[b]]
        0 <= a < cpu_keys.len() && 0 <= b < cpu_keys.len() && cpu_keys[a] >= cpu_keys[b] implies by_cpu(
        groups[a],
        groups[b],
    ) by {
        crate::rounding::lemma_units_order(
            crate::float::SINGLE_BINADE as nat,
            groups[b].cpu.bits as nat,
            groups[a].cpu.bits as nat,
        );
    }
    assert forall|a: int, b: int|
        #![trigger disk_keys[a], disk_keys[b]]
        0 <= a < disk_keys.len() && 0 <= b < disk_keys.len() && disk_keys[a]
            >= disk_keys[b] implies by_disk(groups[a], groups[b]) by {
        crate::rounding::lemma_units_order(
            crate::float::DOUBLE_BINADE as nat,
            groups[b].disk_bps.bits as nat,
            groups[a].disk_bps.bits as nat,
        );
    }
    lemma_heaviest_first(groups, cpu_keys, top_n, by_cpu);
    lemma_heaviest_first(groups, mem_keys, top_n, by_mem);
    lemma_heaviest_first(groups, disk_keys, top_n, by_disk);
}

/// The samples of a group are at most five, with the most memory first, and are those
/// of the processes that hold the most.
pub proof fn samples_are_the_largest(g: AggView, cores: Single)
    ensures
        g.settled(cores).samples.len() == if g.samples.len() <= 5 {
            g.samples.len()
        } else {
            5
        },
        forall|i: int, j: int|
            0 <= i < j < g.settled(cores).samples.len() ==> (#[trigger] g.settled(
                cores,
            ).samples[i]).mem >= (#[trigger] g.settled(cores).samples[j]).mem,
        forall|v: int|
            #![trigger g.samples[v]]
            0 <= v < g.samples.len() ==> (exists|i: int|
                0 <= i < g.settled(cores).samples.len() && (#[trigger] g.settled(
                    cores,
                ).samples[i]).pid == g.samples[v].pid) || (forall|i: int|
                0 <= i < g.settled(cores).samples.len() ==> (#[trigger] g.settled(
                    cores,
                ).samples[i]).mem >= g.samples[v].mem),
{
    let keys = g.samples.map_values(|s: ProcSample| s.mem);
    let order = rank::ranking(keys);
    let samples = g.settled(cores).samples;
    rank::ranking_exists(keys);
    assert forall|i: int| 0 <= i < samples.len() implies (#[trigger] samples[i]).mem
        == keys[order[i]] && samples[i].pid == g.samples[order[i]].pid by {}
    assert forall|i: int, j: int| 0 <= i < j < samples.len() implies (#[trigger] samples[i]).mem >= (
    #[trigger] samples[j]).mem by {
        assert(rank::before(keys, order[i], order[j]));
    }
    assert forall|v: int|
        #![trigger g.samples[v]]
        0 <= v < g.samples.len() implies (exists|i: int|
        0 <= i < samples.len() && (#[trigger] samples[i]).pid == g.samples[v].pid) || (forall|i: int|
        0 <= i < samples.len() ==> (#[trigger] samples[i]).mem >= g.samples[v].mem) by {
        assert(order.contains(v));
        let j = choose|j: int| 0 <= j < order.len() && order[j] == v;
        if j < samples.len() {
            assert(samples[j].pid == g.samples[v].pid);
        } else {
            assert forall|i: int| 0 <= i < samples.len() implies (#[trigger] samples[i]).mem
                >= g.samples[v].mem by {
                assert(rank::before(keys, order[i], order[j]));
                assert(keys[v] == g.samples[v].mem);
            }
        }
    }
}

// ---------------------------------------------------------------------------
// What the figures of a collection are
// ---------------------------------------------------------------------------

impl Single {
    /// These numbers added up, one after the other.
    pub open spec fn sum(numbers: Seq<Single>) -> Single
        decreases numbers.len(),
    {
        if numbers.len() == 0 {
            Single { bits: 0 }
        } else {
            Single::sum(numbers.drop_last()).plus(numbers.last())
        }
    }
}

impl Double {
    /// These numbers added up, one after the other.
    pub open spec fn sum(numbers: Seq<Double>) -> Double
        decreases numbers.len(),
    {
        if numbers.len() == 0 {
            Double { bits: 0 }
        } else {
            Double::sum(numbers.drop_last()).plus(numbers.last())
        }
    }
}

impl ProcView {
    /// What the process read and wrote per second.
    pub open spec fn bytes_per_second(self, secs: Double) -> Double {
        Double::of(self.read_bytes as nat + self.written_bytes as nat).over(secs)
    }

    /// What each of these processes read and wrote per second.
    pub open spec fn rates(procs: Seq<ProcView>, secs: Double) -> Seq<Double> {
        procs.map_values(|p: ProcView| p.bytes_per_second(secs))
    }

    /// The share of a core that each of these processes uses.
    pub open spec fn shares(procs: Seq<ProcView>) -> Seq<Single> {
        procs.map_values(|p: ProcView| p.cpu)
    }

    /// The text is the command line of the process that holds the most memory, among
    /// those that have one; the last such where there are more.
    pub open spec fn told_by_the_largest(procs: Seq<ProcView>, cmd: Seq<char>) -> bool {
        if cmd.len() == 0 {
            forall|j: int| 0 <= j < procs.len() ==> (#[trigger] procs[j]).command().len() == 0
        } else {
            exists|k: int|
                0 <= k < procs.len() && (#[trigger] procs[k]).command() == cmd && forall|j: int|
                    0 <= j < procs.len() && (#[trigger] procs[j]).command().len() > 0
                        ==> procs[j].mem < procs[k].mem || (procs[j].mem == procs[k].mem && j <= k)
        }
    }
}

impl Tally {
    /// The group adds up what these processes use.
    spec fn adds_up(self, members: Seq<ProcView>, secs: Double) -> bool {
        &&& self.group.cpu == Single::sum(ProcView::shares(members))
        &&& self.group.disk_bps == Double::sum(ProcView::rates(members, secs))
        &&& self.group.samples == members.map_values(
            |p: ProcView|
                ProcSample {
                    pid: p.pid,
                    cpu: p.cpu,
                    mem: p.mem,
                    disk_bps: p.bytes_per_second(secs),
                },
        )
        &&& ProcView::told_by_the_largest(members, self.group.cmd)
        &&& self.group.cmd.len() == 0 ==> self.best == 0
        &&& self.group.cmd.len() > 0 ==> exists|k: int|
            0 <= k < members.len() && (#[trigger] members[k]).command() == self.group.cmd
                && members[k].mem == self.best && forall|j: int|
                0 <= j < members.len() && (#[trigger] members[j]).command().len() > 0
                    ==> members[j].mem < members[k].mem || (members[j].mem == members[k].mem && j
                    <= k)
    }
}

proof fn lemma_empty_adds_up(name: Seq<char>, secs: Double)
    ensures
        Tally::empty(name).adds_up(Seq::empty(), secs),
{
    let none: Seq<ProcView> = Seq::empty();
    assert(ProcView::shares(none).len() == 0);
    assert(ProcView::rates(none, secs).len() == 0);
    assert(Tally::empty(name).group.samples =~= none.map_values(
        |p: ProcView|
            ProcSample { pid: p.pid, cpu: p.cpu, mem: p.mem, disk_bps: p.bytes_per_second(secs) },
    ));
}

proof fn lemma_adds_up(t: Tally, members: Seq<ProcView>, p: ProcView, secs: Double)
    requires
        t.adds_up(members, secs),
    ensures
        t.with(p, secs).adds_up(members.push(p), secs),
{
    let now = members.push(p);
    let r = t.with(p, secs);
    let sample = |p: ProcView|
        ProcSample { pid: p.pid, cpu: p.cpu, mem: p.mem, disk_bps: p.bytes_per_second(secs) };
    assert(ProcView::shares(now).drop_last() =~= ProcView::shares(members));
    assert(ProcView::shares(now).last() == p.cpu);
    assert(ProcView::rates(now, secs).drop_last() =~= ProcView::rates(members, secs));
    assert(ProcView::rates(now, secs).last() == p.bytes_per_second(secs));
    assert(r.group.samples =~= now.map_values(sample));
    let n = members.len() as int;
    assert(now[n] == p);
    assert forall|j: int| 0 <= j < now.len() implies j == n || #[trigger] now[j] == members[j] by {}
    if p.mem >= t.best && p.command().len() > 0 {
        assert forall|j: int|
            0 <= j < now.len() && (#[trigger] now[j]).command().len() > 0 implies now[j].mem
            < now[n].mem || (now[j].mem == now[n].mem && j <= n) by {
            if j < n {
                assert(members[j].command().len() > 0);
            }
        }
        assert(now[n].command() == r.group.cmd);
    } else if t.group.cmd.len() > 0 {
        let k = choose|k: int|
            0 <= k < members.len() && (#[trigger] members[k]).command() == t.group.cmd
                && members[k].mem == t.best && forall|j: int|
                0 <= j < members.len() && (#[trigger] members[j]).command().len() > 0
                    ==> members[j].mem < members[k].mem || (members[j].mem == members[k].mem && j
                    <= k);
        assert(now[k] == members[k]);
        assert forall|j: int|
            0 <= j < now.len() && (#[trigger] now[j]).command().len() > 0 implies now[j].mem
            < now[k].mem || (now[j].mem == now[k].mem && j <= k) by {
            if j < n {
                assert(members[j].command().len() > 0);
            }
        }
        assert(now[k].command() == r.group.cmd);
    } else {
        assert forall|j: int| 0 <= j < now.len() implies (#[trigger] now[j]).command().len()
            == 0 by {
            if j < n {
                assert(members[j].command().len() == 0);
            }
        }
    }
}

proof fn lemma_tallies_add_up(procs: Seq<ProcView>, secs: Double)
    requires
        procs.len() <= usize::MAX,
    ensures
        forall|i: int|
            0 <= i < Tally::of(procs, secs).len() ==> (#[trigger] Tally::of(procs, secs)[i]).adds_up(
                ProcView::members(procs, Tally::of(procs, secs)[i].group.name),
                secs,
            ),
    decreases procs.len(),
{
    if procs.len() > 0 {
        let rest = procs.drop_last();
        let p = procs.last();
        let t = Tally::of(procs, secs);
        let u = Tally::of(rest, secs);
        let at = Tally::find(u, p.group(), 0);
        lemma_tallies_add_up(rest, secs);
        lemma_groups(rest, secs);
        lemma_find(u, p.group(), 0);
        assert forall|i: int| 0 <= i < t.len() implies (#[trigger] t[i]).adds_up(
            ProcView::members(procs, t[i].group.name),
            secs,
        ) by {
            let name = t[i].group.name;
            lemma_members(procs, name);
            let then = ProcView::members(rest, name);
            if i == at {
                if at < u.len() {
                    assert(u[at].adds_up(ProcView::members(rest, u[at].group.name), secs));
                    lemma_adds_up(u[at], then, p, secs);
                } else {
                    assert(then.len() == 0);
                    assert(then =~= Seq::empty());
                    lemma_empty_adds_up(p.group(), secs);
                    lemma_adds_up(Tally::empty(p.group()), then, p, secs);
                }
            } else {
                assert(t[i] == u[i]);
                if at < u.len() {
                    if i < at {
                        assert(u[i].group.name != u[at].group.name);
                    } else {
                        assert(u[at].group.name != u[i].group.name);
                    }
                }
                assert(name != p.group());
            }
        }
    }
}

/// A group uses what its processes use together: its share of the machine is the sum of
/// their shares of a core over the number of cores, and its disk rate is the sum of what
/// each reads and writes per second. Its command line is that of its largest process that
/// has one, and its samples show the figures of its largest processes.
pub proof fn groups_add_up(reading: Reading, secs: Double, i: int)
    requires
        reading.procs@.len() <= usize::MAX,
        0 <= i < reading.groups(secs).len(),
    ensures
        ({
            let g = reading.groups(secs)[i];
            let members = ProcView::members(reading.procs.deep_view(), g.name);
            let cores = Single::of(
                if reading.logical_cores == 0 {
                    1
                } else {
                    reading.logical_cores as nat
                },
            );
            let order = rank::ranking(members.map_values(|p: ProcView| p.mem));
            &&& g.cpu == Single::sum(ProcView::shares(members)).over(cores)
            &&& g.disk_bps == Double::sum(ProcView::rates(members, secs))
            &&& ProcView::told_by_the_largest(members, g.cmd)
            &&& g.samples.len() <= members.len() == order.len()
            &&& forall|k: int|
                0 <= k < g.samples.len() ==> #[trigger] g.samples[k] == (ProcSample {
                    pid: members[order[k]].pid,
                    cpu: members[order[k]].cpu.over(cores),
                    mem: members[order[k]].mem,
                    disk_bps: members[order[k]].bytes_per_second(secs),
                })
        }),
{
    let procs = reading.procs.deep_view();
    let t = Tally::of(procs, secs);
    lemma_tallies_add_up(procs, secs);
    let g = reading.groups(secs)[i];
    let cores = Single::of(
        if reading.logical_cores == 0 {
            1
        } else {
            reading.logical_cores as nat
        },
    );
    assert(g == t[i].group.settled(cores));
    assert(t[i].adds_up(ProcView::members(procs, t[i].group.name), secs));
    let members = ProcView::members(procs, g.name);
    let keys = members.map_values(|p: ProcView| p.mem);
    assert(t[i].group.samples.map_values(|s: ProcSample| s.mem) =~= keys);
    rank::ranking_exists(keys);
}

proof fn lemma_exact_sum(numbers: Seq<Double>, whole: Seq<nat>)
    requires
        numbers.len() == whole.len(),
        forall|k: int| 0 <= k < numbers.len() ==> #[trigger] numbers[k] == Double::of(whole[k]),
        Total::of(whole) < 0x20_0000_0000_0000,
    ensures
        Double::sum(numbers) == Double::of(Total::of(whole)),
    decreases numbers.len(),
{
    if numbers.len() == 0 {
        crate::exact::lemma_plus_nothing(Double { bits: 0 }, Single { bits: 0 });
    } else {
        assert forall|k: int| 0 <= k < numbers.drop_last().len() implies #[trigger] numbers.drop_last()[k]
            == Double::of(whole.drop_last()[k]) by {
            assert(numbers[k] == Double::of(whole[k]));
        }
        assert(numbers[numbers.len() - 1] == Double::of(whole[numbers.len() - 1]));
        lemma_exact_sum(numbers.drop_last(), whole.drop_last());
        crate::exact::double_integers_are_integers(Total::of(whole.drop_last()), whole.last());
    }
}

impl Total {
    /// These integers added up.
    pub open spec fn of(numbers: Seq<nat>) -> nat
        decreases numbers.len(),
    {
        if numbers.len() == 0 {
            0
        } else {
            Total::of(numbers.drop_last()) + numbers.last()
        }
    }
}

/// Where each process of a group reads and writes a whole number of bytes per second,
/// the group's disk rate is exactly their total.
pub proof fn disk_rates_add_up(reading: Reading, k: nat, i: int, rates: Seq<nat>)
    requires
        reading.procs@.len() <= usize::MAX,
        0 <= i < reading.groups(Double::of(k)).len(),
        1 <= k < 0x20_0000_0000_0000,
        ({
            let members = ProcView::members(
                reading.procs.deep_view(),
                reading.groups(Double::of(k))[i].name,
            );
            &&& rates.len() == members.len()
            &&& forall|j: int|
                0 <= j < members.len() ==> (#[trigger] members[j]).read_bytes
                    + members[j].written_bytes == rates[j] * k && rates[j] * k
                    < 0x20_0000_0000_0000
        }),
        Total::of(rates) < 0x20_0000_0000_0000,
    ensures
        reading.groups(Double::of(k))[i].disk_bps == Double::of(Total::of(rates)),
{
    let secs = Double::of(k);
    let members = ProcView::members(reading.procs.deep_view(), reading.groups(secs)[i].name);
    groups_add_up(reading, secs, i);
    let each = ProcView::rates(members, secs);
    assert forall|j: int| 0 <= j < each.len() implies #[trigger] each[j] == Double::of(rates[j]) by {
        assert(members[j].read_bytes + members[j].written_bytes == rates[j] * k);
        crate::exact::division_is_exact(rates[j], k);
    }
    lemma_exact_sum(each, rates);
}

/// The totals over two lists are those over the one and those over the other.
pub proof fn totals_add_up(a: Seq<ProcView>, b: Seq<ProcView>, name: Seq<char>)
    ensures
        Total::read(a + b) == Total::read(a) + Total::read(b),
        Total::written(a + b) == Total::written(a) + Total::written(b),
        Total::memory_of(a + b, name) == Total::memory_of(a, name) + Total::memory_of(b, name),
    decreases b.len(),
{
    if b.len() == 0 {
        assert(a + b =~= a);
    } else {
        totals_add_up(a, b.drop_last(), name);
        assert((a + b).drop_last() =~= a + b.drop_last());
    }
}

/// The totals over one process are what it read, what it wrote, and the memory that it
/// holds in its own group.
pub proof fn totals_of_one_process(p: ProcView, name: Seq<char>)
    ensures
        Total::read(seq![p]) == p.read_bytes,
        Total::written(seq![p]) == p.written_bytes,
        Total::memory_of(seq![p], name) == if canonical(p.name, text::lowercase(p.name)) == name {
            p.mem
        } else {
            0
        },
{
    let one = seq![p];
    assert(one.drop_last() =~= Seq::empty());
    assert(one.last() == p);
    assert(Total::read(one.drop_last()) == 0);
    assert(Total::written(one.drop_last()) == 0);
    assert(Total::memory_of(one.drop_last(), name) == 0);
}

/// The totals over the interfaces of two lists are those over the one and those over the
/// other, and those over one interface are its counters.
pub proof fn network_totals_add_up(a: Seq<NetReading>, b: Seq<NetReading>, n: NetReading)
    ensures
        Total::received(a + b) == Total::received(a) + Total::received(b),
        Total::transmitted(a + b) == Total::transmitted(a) + Total::transmitted(b),
        Total::errors(a + b) == Total::errors(a) + Total::errors(b),
        Total::received(seq![n]) == n.received,
        Total::transmitted(seq![n]) == n.transmitted,
        Total::errors(seq![n]) == n.errors_on_received + n.errors_on_transmitted,
    decreases b.len(),
{
    let one = seq![n];
    assert(one.drop_last() =~= Seq::empty());
    assert(one.last() == n);
    assert(Total::received(one.drop_last()) == 0);
    assert(Total::transmitted(one.drop_last()) == 0);
    assert(Total::errors(one.drop_last()) == 0);
    if b.len() == 0 {
        assert(a + b =~= a);
    } else {
        network_totals_add_up(a, b.drop_last(), n);
        assert((a + b).drop_last() =~= a + b.drop_last());
    }
}

/// What is not a rate is as the second reading has it, and errors are those that came
/// since the first.
pub proof fn metrics_show_the_second_reading(before: Reading, after: Reading, ms: u64, top_n: nat)
    requires
        Total::nets_fit(before.nets@),
        Total::nets_fit(after.nets@),
    ensures
        ({
            let m = MetricsView::between(before, after, ms, top_n);
            &&& m.cpu.usage_pct == after.cpu_usage
            &&& m.cpu.load1 == after.load1
            &&& m.cpu.logical_cores == after.logical_cores
            &&& m.mem.total == after.total_memory
            &&& m.mem.used == after.used_memory
            &&& m.mem.swap_total == after.total_swap
            &&& m.mem.swap_used == after.used_swap
            &&& m.net.drops == 0
            &&& m.net.errors == more_than(
                Total::errors(after.nets@) as int,
                Total::errors(before.nets@) as int,
            )
        }),
{
}

/// What is over, or nothing.
pub open spec fn more_than(a: int, b: int) -> int {
    if a > b {
        a - b
    } else {
        0
    }
}

/// Over whole seconds, a counter that grew by a whole number each second has that number
/// as its rate; one that did not grow has none. What a process read and wrote since the
/// first reading is spread over the same seconds.
pub proof fn rates_are_per_second(
    before: Reading,
    after: Reading,
    secs: nat,
    top_n: nat,
    each: (nat, nat, nat, nat, nat),
)
    requires
        1 <= secs,
        secs * 1000 < 0x20_0000_0000_0000,
        Total::nets_fit(before.nets@),
        Total::nets_fit(after.nets@),
        each.0 * secs < 0x20_0000_0000_0000,
        each.1 * secs < 0x20_0000_0000_0000,
        each.2 * secs < 0x20_0000_0000_0000,
        each.3 * secs < 0x20_0000_0000_0000,
        each.4 * secs < 0x20_0000_0000_0000,
    ensures
        ({
            let m = MetricsView::between(before, after, (secs * 1000) as u64, top_n);
            let procs = after.procs.deep_view();
            &&& Total::received(after.nets@) == Total::received(before.nets@) + each.0 * secs
                ==> m.net.rx_bps == Double::of(each.0)
            &&& Total::transmitted(after.nets@) == Total::transmitted(before.nets@) + each.1 * secs
                ==> m.net.tx_bps == Double::of(each.1)
            &&& Total::read(procs) == each.2 * secs ==> m.disk.read_bps == Double::of(each.2)
            &&& Total::written(procs) == each.3 * secs ==> m.disk.write_bps == Double::of(each.3)
            &&& after.used_swap == before.used_swap + each.4 * secs ==> m.mem.swap_rate == each.4
            &&& Total::received(after.nets@) <= Total::received(before.nets@) ==> m.net.rx_bps
                == Double::of(0)
            &&& Total::transmitted(after.nets@) <= Total::transmitted(before.nets@)
                ==> m.net.tx_bps == Double::of(0)
            &&& after.used_swap <= before.used_swap ==> m.mem.swap_rate == 0
        }),
{
    crate::exact::division_is_exact(secs, 1000);
    crate::exact::division_is_exact(0, secs);
    assert(0 * secs == 0) by (nonlinear_arith);
    crate::exact::division_is_exact(each.0, secs);
    crate::exact::division_is_exact(each.1, secs);
    crate::exact::division_is_exact(each.2, secs);
    crate::exact::division_is_exact(each.3, secs);
    crate::exact::division_is_exact(each.4, secs);
    assert(each.4 <= each.4 * secs) by (nonlinear_arith)
        requires
            secs >= 1,
    ;
    crate::exact::double_integers_are_integers(each.4, 0);
    crate::exact::double_integers_are_integers(0, 0);
}

/// Over any window, a rate is what was counted over the window's seconds.
pub proof fn rates_are_counts_over_time(before: Reading, after: Reading, ms: u64, top_n: nat)
    requires
        Total::nets_fit(before.nets@),
        Total::nets_fit(after.nets@),
    ensures
        ({
            let m = MetricsView::between(before, after, ms, top_n);
            let secs = Double::of(ms as nat).over(Double::of(1000));
            let procs = after.procs.deep_view();
            &&& m.disk.read_bps == Double::of(Total::read(procs)).over(secs)
            &&& m.disk.write_bps == Double::of(Total::written(procs)).over(secs)
            &&& m.net.rx_bps == Double::of(
                more_than(
                    Total::received(after.nets@) as int,
                    Total::received(before.nets@) as int,
                ) as nat,
            ).over(secs)
            &&& m.net.tx_bps == Double::of(
                more_than(
                    Total::transmitted(after.nets@) as int,
                    Total::transmitted(before.nets@) as int,
                ) as nat,
            ).over(secs)
            &&& m.mem.swap_rate == crate::float::at_most(
                Double::of(more_than(after.used_swap as int, before.used_swap as int) as nat).over(
                    secs,
                ).whole(),
                u64::MAX as nat,
            )
        }),
{
}

/// Some browser is told by a name in small letters.
pub open spec fn is_browser(lower: Seq<char>) -> bool {
    ||| text::contains(lower, "chrome"@)
    ||| text::contains(lower, "chromium"@)
    ||| text::contains(lower, "firefox"@)
    ||| text::contains(lower, "safari"@)
}

proof fn lemma_trim(s: Seq<char>, suffix: Seq<char>)
    requires
        suffix.len() > 0,
    ensures
        text::trim_end(s + suffix, suffix) == text::trim_end(s, suffix),
{
    let t = s + suffix;
    assert(t.subrange(t.len() - suffix.len(), t.len() as int) =~= suffix);
    assert(text::ends_with(t, suffix));
    assert(t.take(t.len() - suffix.len()) =~= s);
}

proof fn lemma_other_ending(s: Seq<char>, a: Seq<char>, b: Seq<char>)
    requires
        a.len() == b.len() > 0,
        a != b,
    ensures
        text::trim_end(s + a, b) == s + a,
{
    let t = s + a;
    if text::ends_with(t, b) {
        assert(t.subrange(t.len() - b.len(), t.len() as int) =~= a);
    }
}

/// A helper is in the group of the program that it helps, and a program that is neither a
/// browser nor a helper goes by its own name.
pub proof fn helpers_go_with_their_program(raw: Seq<char>, lower: Seq<char>, helper: Seq<char>)
    requires
        !is_browser(lower),
        !is_browser(helper),
    ensures
        canonical(raw + " Helper"@, helper) == canonical(raw, lower),
        !text::ends_with(raw, " Helper"@) ==> canonical(raw + " helper"@, helper) == canonical(
            raw,
            lower,
        ),
        !text::ends_with(raw, " Helper"@) && !text::ends_with(raw, " helper"@) ==> canonical(
            raw + "_helper"@,
            helper,
        ) == canonical(raw, lower),
        !text::ends_with(raw, " Helper"@) && !text::ends_with(raw, " helper"@) && !text::ends_with(
            raw,
            "_helper"@,
        ) ==> canonical(raw, lower) == raw,
{
    reveal_strlit(" Helper");
    reveal_strlit(" helper");
    reveal_strlit("_helper");
    assert(" Helper"@[1] == 'H' && " helper"@[1] == 'h' && " helper"@[0] == ' ');
    assert(" Helper"@[0] == ' ' && "_helper"@[0] == '_');
    lemma_trim(raw, " Helper"@);
    lemma_trim(raw, " helper"@);
    lemma_trim(raw, "_helper"@);
    lemma_other_ending(raw, " helper"@, " Helper"@);
    lemma_other_ending(raw, "_helper"@, " Helper"@);
    lemma_other_ending(raw, "_helper"@, " helper"@);
}

/// The processes of a browser are in the group of that browser, whatever kind of process
/// each is, and processes of one name are in one group.
pub proof fn browsers_are_one_group(p: ProcView, other: ProcView)
    ensures
        ({
            let lower = text::lowercase(p.name);
            let chrome = text::contains(lower, "chrome"@) || text::contains(lower, "chromium"@);
            &&& chrome ==> p.group() == "Chrome"@
            &&& !chrome && text::contains(lower, "firefox"@) ==> p.group() == "Firefox"@
            &&& !chrome && !text::contains(lower, "firefox"@) && text::contains(lower, "safari"@)
                ==> p.group() == "Safari"@
        }),
        p.name == other.name ==> p.group() == other.group(),
{
}

/// A command line is its words with one space between them, and a process without one is
/// told by its executable.
pub proof fn command_lines_are_joined(p: ProcView, word: Seq<char>)
    ensures
        p.cmd.len() > 0 ==> (ProcView { cmd: p.cmd.push(word), ..p }).command() == p.command()
            + " "@ + word,
        p.cmd.len() == 0 ==> (ProcView { cmd: p.cmd.push(word), ..p }).command() == word,
        p.cmd.len() == 0 ==> (p.exe matches Some(path) ==> p.command() == path),
        p.cmd.len() == 0 && p.exe is None ==> p.command().len() == 0,
{
    assert(p.cmd.push(word).drop_last() =~= p.cmd);
}

/// A reading can be measured where each sum over it can be counted in 64 bits: what all
/// processes read and what they wrote, what each read and wrote, the memory of each
/// program, and the counters of all interfaces.
pub proof fn readings_fit_where_their_sums_do(reading: Reading)
    ensures
        ({
            let procs = reading.procs.deep_view();
            reading.fits() <==> {
                &&& Total::read(procs) <= u64::MAX
                &&& Total::written(procs) <= u64::MAX
                &&& Total::received(reading.nets@) <= u64::MAX
                &&& Total::transmitted(reading.nets@) <= u64::MAX
                &&& Total::errors(reading.nets@) <= u64::MAX
                &&& forall|i: int|
                    0 <= i < procs.len() ==> (#[trigger] procs[i]).read_bytes
                        + procs[i].written_bytes <= u64::MAX
                &&& forall|name: Seq<char>| #[trigger] Total::memory_of(procs, name) <= u64::MAX
            }
        }),
{
}

} // verus!
