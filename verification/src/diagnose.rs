//! Diagnosis: how stressed each subsystem is, and in whose name.
use crate::blameboard::{build_blameboard, EntryView, Weights};
pub use crate::blameboard::BlameEntry;
use crate::collect::{AggProcess, AggView, Metrics, MetricsView};
use crate::decimal;
use crate::float::{Double, Single};
use crate::rank;
use crate::verdict::build_verdict;
use vstd::prelude::*;

verus! {

pub const KIB: u64 = 1_024;

pub const MIB: u64 = 1_048_576;

pub const GIB: u64 = 1_073_741_824;

/// One subsystem, with how stressed it is from 0 to 100.
#[derive(Debug)]
pub struct Culprit {
    pub label: &'static str,
    pub score: u8,
    /// Short stat summary shown in the System Load bar row
    pub detail: String,
    /// One-line blame shown in the Blameboard ("what exactly is causing this")
    pub blame_line: String,
}

/// What a `Culprit` says.
pub struct CulpritView {
    pub label: Seq<char>,
    pub score: u8,
    pub detail: Seq<char>,
    pub blame_line: Seq<char>,
}

impl DeepView for Culprit {
    type V = CulpritView;

    open spec fn deep_view(&self) -> CulpritView {
        CulpritView {
            label: self.label@,
            score: self.score,
            detail: self.detail@,
            blame_line: self.blame_line@,
        }
    }
}

impl Double {
    /// A number of bytes per second, in the largest unit that leaves at least one.
    pub open spec fn bps_text(self) -> Seq<char> {
        if self.ge(Double::of(GIB as nat)) {
            self.over(Double::of(GIB as nat)).text1() + " GB/s"@
        } else if self.ge(Double::of(MIB as nat)) {
            self.over(Double::of(MIB as nat)).text1() + " MB/s"@
        } else if self.ge(Double::of(KIB as nat)) {
            self.over(Double::of(KIB as nat)).text0() + " KB/s"@
        } else {
            self.text0() + " B/s"@
        }
    }

    /// A number of bytes, in the largest unit that leaves at least one.
    pub open spec fn bytes_text(bytes: u64) -> Seq<char> {
        let b = Double::of(bytes as nat);
        if bytes >= GIB {
            b.over(Double::of(GIB as nat)).text1() + " GB"@
        } else if bytes >= MIB {
            b.over(Double::of(MIB as nat)).text0() + " MB"@
        } else if bytes >= KIB {
            b.over(Double::of(KIB as nat)).text0() + " KB"@
        } else {
            decimal::dec(bytes as nat) + " B"@
        }
    }

    /// A number of bytes, in gigabytes.
    pub open spec fn gigabytes(bytes: u64) -> Double {
        Double::of(bytes as nat).over(Double::of(GIB as nat))
    }

    /// What percentage `part` is of `whole`.
    pub open spec fn percent(part: u64, whole: u64) -> Double {
        Double::of(part as nat).over(Double::of(whole as nat)).times(Double::of(100))
    }
}

pub fn fmt_bps(bps: Double) -> (r: String)
    ensures
        r@ == bps.bps_text(),
{
    let gib = Double::from_int(GIB);
    let mib = Double::from_int(MIB);
    let kib = Double::from_int(KIB);
    if bps.at_least(gib) {
        bps.div(gib).fixed1().concat(" GB/s")
    } else if bps.at_least(mib) {
        bps.div(mib).fixed1().concat(" MB/s")
    } else if bps.at_least(kib) {
        bps.div(kib).fixed0().concat(" KB/s")
    } else {
        bps.fixed0().concat(" B/s")
    }
}

pub fn fmt_bytes(bytes: u64) -> (r: String)
    ensures
        r@ == Double::bytes_text(bytes),
{
    let b = Double::from_int(bytes);
    if bytes >= GIB {
        b.div(Double::from_int(GIB)).fixed1().concat(" GB")
    } else if bytes >= MIB {
        b.div(Double::from_int(MIB)).fixed0().concat(" MB")
    } else if bytes >= KIB {
        b.div(Double::from_int(KIB)).fixed0().concat(" KB")
    } else {
        decimal::decimal(bytes).concat(" B")
    }
}

pub(crate) fn gigabytes(bytes: u64) -> (r: Double)
    ensures
        r == Double::gigabytes(bytes),
{
    Double::from_int(bytes).div(Double::from_int(GIB))
}

/// What percentage `part` is of `whole`.
pub fn percent(part: u64, whole: u64) -> (r: Double)
    requires
        whole > 0,
    ensures
        r == Double::percent(part, whole),
{
    Double::from_int(part).div(Double::from_int(whole)).mul(Double::from_int(100))
}

pub open spec fn at_least_one(n: u64) -> u64 {
    if n == 0 {
        1
    } else {
        n
    }
}

pub(crate) fn one_or_more(n: u64) -> (r: u64)
    ensures
        r == at_least_one(n),
{
    if n == 0 {
        1
    } else {
        n
    }
}

// ---------------------------------------------------------------------------
// Scores
// ---------------------------------------------------------------------------

impl MetricsView {
    /// Tasks that want to run, per core.
    pub open spec fn load_ratio(self) -> Double {
        self.cpu.load1.over(Double::of(at_least_one(self.cpu.logical_cores as u64) as nat))
    }

    pub open spec fn congested(self) -> bool {
        self.load_ratio().gt(Double::of(2))
    }

    pub open spec fn oversubscribed(self) -> bool {
        self.load_ratio().gt(Double::of(1))
    }

    pub open spec fn disk_mbps(self) -> Double {
        self.disk.read_bps.plus(self.disk.write_bps).over(Double::of(MIB as nat))
    }

    pub open spec fn net_mbps(self) -> Double {
        self.net.rx_bps.plus(self.net.tx_bps).over(Double::of(MIB as nat))
    }

    pub open spec fn packet_loss(self) -> bool {
        self.net.errors > 0 || self.net.drops > 0
    }

    /// CPU usage, with a penalty for a queue of tasks.
    pub open spec fn cpu_score(self) -> u8 {
        let penalty: nat = if self.congested() {
            25
        } else if self.oversubscribed() {
            10
        } else {
            0
        };
        self.cpu.usage_pct.plus(Single::of(penalty)).smaller(Single::of(100)).byte()
    }

    /// RAM in use counts for at most 70. The rest is for active paging and for
    /// large use of swap.
    pub open spec fn mem_score(self) -> u8 {
        let used = if self.mem.total > 0 {
            Double::percent(self.mem.used, self.mem.total).narrowed()
        } else {
            Single { bits: 0 }
        };
        let paging_rate = Double::of(self.mem.swap_rate as nat).over(Double::of(MIB as nat));
        let base = used.times(Single::of(7).over(Single::of(10)));
        let paging = if paging_rate.gt(Double::of(10)) {
            base.plus(Single::of(40))
        } else if paging_rate.gt(Double::of(1)) {
            base.plus(Single::of(20))
        } else {
            base
        };
        let swap = Double::gigabytes(self.mem.swap_used);
        let total = if swap.gt(Double::of(2)) {
            paging.plus(Single::of(15))
        } else if swap.gt(Double::of(1).over(Double::of(2))) {
            paging.plus(Single::of(5))
        } else {
            paging
        };
        total.smaller(Single::of(100)).byte()
    }

    /// Throughput: in three steps above 40 MB/s, half a point per MB/s below.
    pub open spec fn disk_score(self) -> u8 {
        let mbps = self.disk_mbps();
        let s = if mbps.gt(Double::of(200)) {
            Double::of(60)
        } else if mbps.gt(Double::of(80)) {
            Double::of(40)
        } else if mbps.gt(Double::of(40)) {
            Double::of(20)
        } else {
            mbps.over(Double::of(2))
        };
        s.smaller(Double::of(100)).byte()
    }

    /// One point per MB/s up to 50, and 30 for lost packets.
    pub open spec fn net_score(self) -> u8 {
        let base = self.net_mbps().smaller(Double::of(50)).narrowed();
        let s = if self.packet_loss() {
            base.plus(Single::of(30))
        } else {
            base
        };
        s.smaller(Single::of(100)).byte()
    }
}

pub(crate) fn load_ratio(m: &Metrics) -> (r: Double)
    ensures
        r == m.deep_view().load_ratio(),
{
    m.cpu.load1.div(Double::from_int(one_or_more(m.cpu.logical_cores as u64)))
}

pub(crate) fn disk_mbps(m: &Metrics) -> (r: Double)
    ensures
        r == m.deep_view().disk_mbps(),
{
    m.disk.read_bps.add(m.disk.write_bps).div(Double::from_int(MIB))
}

pub(crate) fn net_mbps(m: &Metrics) -> (r: Double)
    ensures
        r == m.deep_view().net_mbps(),
{
    m.net.rx_bps.add(m.net.tx_bps).div(Double::from_int(MIB))
}

pub fn score_cpu(m: &Metrics) -> (r: u8)
    ensures
        r == m.deep_view().cpu_score(),
{
    let load_ratio = load_ratio(m);
    let penalty: u64 = if load_ratio.above(Double::from_int(2)) {
        25
    } else if load_ratio.above(Double::from_int(1)) {
        10
    } else {
        0
    };
    m.cpu.usage_pct.add(Single::from_int(penalty)).min(Single::from_int(100)).to_byte()
}

pub fn score_memory(m: &Metrics) -> (r: u8)
    ensures
        r == m.deep_view().mem_score(),
{
    let used_pct = if m.mem.total > 0 {
        percent(m.mem.used, m.mem.total).to_single()
    } else {
        Single { bits: 0 }
    };
    proof {
        crate::exact::lemma_seven_tenths();
    }
    let mut s = used_pct.mul(Single::from_int(7).div(Single::from_int(10)));
    let swap_mbps = Double::from_int(m.mem.swap_rate).div(Double::from_int(MIB));
    if swap_mbps.above(Double::from_int(10)) {
        s = s.add(Single::from_int(40));
    } else if swap_mbps.above(Double::from_int(1)) {
        s = s.add(Single::from_int(20));
    }
    let swap_gb = gigabytes(m.mem.swap_used);
    if swap_gb.above(Double::from_int(2)) {
        s = s.add(Single::from_int(15));
    } else if swap_gb.above(Double::from_int(1).div(Double::from_int(2))) {
        s = s.add(Single::from_int(5));
    }
    s.min(Single::from_int(100)).to_byte()
}

pub fn score_disk(m: &Metrics) -> (r: u8)
    ensures
        r == m.deep_view().disk_score(),
{
    let mbps = disk_mbps(m);
    let s = if mbps.above(Double::from_int(200)) {
        Double::from_int(60)
    } else if mbps.above(Double::from_int(80)) {
        Double::from_int(40)
    } else if mbps.above(Double::from_int(40)) {
        Double::from_int(20)
    } else {
        mbps.div(Double::from_int(2))
    };
    s.min(Double::from_int(100)).to_byte()
}

pub fn score_network(m: &Metrics) -> (r: u8)
    ensures
        r == m.deep_view().net_score(),
{
    let mut s = net_mbps(m).min(Double::from_int(50)).to_single();
    if m.net.errors > 0 || m.net.drops > 0 {
        s = s.add(Single::from_int(30));
    }
    s.min(Single::from_int(100)).to_byte()
}

// ---------------------------------------------------------------------------
// Stat detail strings (shown in System Load bar row)
// ---------------------------------------------------------------------------

impl MetricsView {
    pub open spec fn cpu_detail(self) -> Seq<char> {
        let used = self.cpu.usage_pct.text0() + "% used"@ + ", "@;
        let load = used + "load "@ + self.cpu.load1.text1();
        if self.congested() {
            load + " on "@ + decimal::dec(self.cpu.logical_cores as nat) + " cores: queue congested"@
        } else if self.oversubscribed() {
            load + ": slightly oversubscribed"@
        } else {
            load
        }
    }

    pub open spec fn mem_detail(self) -> Seq<char> {
        let ram = Double::gigabytes(self.mem.used).text1() + "/"@ + Double::gigabytes(
            self.mem.total,
        ).text1() + " GB"@;
        if self.mem.swap_used > 0 {
            let swap = ram + "  swap: "@ + Double::gigabytes(self.mem.swap_used).text1() + " GB"@;
            if self.mem.swap_rate > 1_000_000 {
                swap + " (PAGING)"@
            } else {
                swap
            }
        } else {
            ram
        }
    }

    pub open spec fn disk_detail(self) -> Seq<char> {
        "R: "@ + self.disk.read_bps.bps_text() + "  W: "@ + self.disk.write_bps.bps_text()
    }

    pub open spec fn net_detail(self) -> Seq<char> {
        let s = "in: "@ + self.net.rx_bps.bps_text() + "  out: "@ + self.net.tx_bps.bps_text();
        if self.packet_loss() {
            s + "  err: "@ + decimal::dec(self.net.errors as nat) + "  drop: "@ + decimal::dec(
                self.net.drops as nat,
            )
        } else {
            s
        }
    }
}

pub fn cpu_detail(m: &Metrics) -> (r: String)
    ensures
        r@ == m.deep_view().cpu_detail(),
{
    let load_ratio = load_ratio(m);
    let mut s = m.cpu.usage_pct.fixed0();
    s.append("% used");
    s.append(", ");
    s.append("load ");
    s.append(m.cpu.load1.fixed1().as_str());
    if load_ratio.above(Double::from_int(2)) {
        s.append(" on ");
        s.append(decimal::decimal(m.cpu.logical_cores as u64).as_str());
        s.append(" cores: queue congested");
    } else if load_ratio.above(Double::from_int(1)) {
        s.append(": slightly oversubscribed");
    }
    s
}

pub fn mem_detail(m: &Metrics) -> (r: String)
    ensures
        r@ == m.deep_view().mem_detail(),
{
    let mut s = gigabytes(m.mem.used).fixed1();
    s.append("/");
    s.append(gigabytes(m.mem.total).fixed1().as_str());
    s.append(" GB");
    if m.mem.swap_used > 0 {
        s.append("  swap: ");
        s.append(gigabytes(m.mem.swap_used).fixed1().as_str());
        s.append(" GB");
        if m.mem.swap_rate > 1_000_000 {
            s.append(" (PAGING)");
        }
    }
    s
}

pub fn disk_detail(m: &Metrics) -> (r: String)
    ensures
        r@ == m.deep_view().disk_detail(),
{
    let mut s = "R: ".to_owned();
    s.append(fmt_bps(m.disk.read_bps).as_str());
    s.append("  W: ");
    s.append(fmt_bps(m.disk.write_bps).as_str());
    s
}

pub fn net_detail(m: &Metrics) -> (r: String)
    ensures
        r@ == m.deep_view().net_detail(),
{
    let mut s = "in: ".to_owned();
    s.append(fmt_bps(m.net.rx_bps).as_str());
    s.append("  out: ");
    s.append(fmt_bps(m.net.tx_bps).as_str());
    if m.net.errors > 0 || m.net.drops > 0 {
        s.append("  err: ");
        s.append(decimal::decimal(m.net.errors).as_str());
        s.append("  drop: ");
        s.append(decimal::decimal(m.net.drops).as_str());
    }
    s
}

// ---------------------------------------------------------------------------
// Blame one-liners (shown in Blameboard)
// ---------------------------------------------------------------------------

/// The ending of a noun after this number.
pub open spec fn plural(n: usize) -> Seq<char> {
    if n == 1 {
        ""@
    } else {
        "s"@
    }
}

pub(crate) fn plural_ending(n: usize) -> (r: &'static str)
    ensures
        r@ == plural(n),
{
    if n == 1 {
        ""
    } else {
        "s"
    }
}

impl AggView {
    /// The program and how many processes it has.
    pub open spec fn headline(self) -> Seq<char> {
        self.name + " ("@ + decimal::dec(self.count as nat) + " proc"@ + plural(self.count)
    }
}

impl MetricsView {
    pub open spec fn cpu_blame(self) -> Seq<char> {
        let load = "load "@ + self.cpu.load1.text1() + "/"@ + decimal::dec(
            self.cpu.logical_cores as nat,
        );
        let reason = if self.congested() {
            load + " cores: tasks queuing"@
        } else if self.oversubscribed() {
            load + " cores: oversubscribed"@
        } else {
            self.cpu.usage_pct.text0() + "% total CPU"@
        };
        if self.top_cpu.len() > 0 {
            self.top_cpu[0].headline() + ", "@ + self.top_cpu[0].cpu.text1() + "% CPU)  "@ + reason
        } else {
            reason
        }
    }

    pub open spec fn mem_blame(self) -> Seq<char> {
        let used = Double::percent(self.mem.used, at_least_one(self.mem.total));
        let reason = if self.mem.swap_rate > 1_000_000 {
            "ACTIVELY PAGING TO DISK"@
        } else if self.mem.swap_used > 0 {
            used.text0() + "% RAM used, "@ + Double::gigabytes(self.mem.swap_used).text1()
                + " GB spilled to swap"@
        } else {
            used.text0() + "% RAM used"@
        };
        if self.top_mem.len() > 0 {
            self.top_mem[0].headline() + ", "@ + Double::bytes_text(self.top_mem[0].mem) + ")  "@
                + reason
        } else {
            reason
        }
    }

    pub open spec fn disk_blame(self) -> Seq<char> {
        let mbps = self.disk_mbps();
        if !mbps.ge(Double::of(1).over(Double::of(10))) {
            "Minimal disk activity"@
        } else {
            "Read: "@ + self.disk.read_bps.bps_text() + "  Write: "@
                + self.disk.write_bps.bps_text() + "  ("@ + mbps.text0() + " MB/s total)"@
        }
    }

    pub open spec fn net_blame(self) -> Seq<char> {
        if self.packet_loss() {
            decimal::dec(self.net.errors as nat) + " error(s), "@ + decimal::dec(
                self.net.drops as nat,
            ) + " drop(s): packet loss causing retransmits"@
        } else if !self.net_mbps().ge(Double::of(1).over(Double::of(100))) {
            "Minimal network activity"@
        } else {
            "In: "@ + self.net.rx_bps.bps_text() + "  Out: "@ + self.net.tx_bps.bps_text()
        }
    }
}

pub(crate) fn headline(p: &AggProcess) -> (r: String)
    ensures
        r@ == p.deep_view().headline(),
{
    let mut s = p.name.clone();
    s.append(" (");
    s.append(decimal::decimal(p.count as u64).as_str());
    s.append(" proc");
    s.append(plural_ending(p.count));
    s
}

pub fn cpu_blame(m: &Metrics) -> (r: String)
    ensures
        r@ == m.deep_view().cpu_blame(),
{
    let load_ratio = load_ratio(m);
    let congested = load_ratio.above(Double::from_int(2));
    let load_str: String = if congested || load_ratio.above(Double::from_int(1)) {
        let mut s = "load ".to_owned();
        s.append(m.cpu.load1.fixed1().as_str());
        s.append("/");
        s.append(decimal::decimal(m.cpu.logical_cores as u64).as_str());
        if congested {
            s.append(" cores: tasks queuing");
        } else {
            s.append(" cores: oversubscribed");
        }
        s
    } else {
        let mut s = m.cpu.usage_pct.fixed0();
        s.append("% total CPU");
        s
    };
    if m.top_cpu.len() > 0 {
        let p = &m.top_cpu[0];
        let mut s = headline(p);
        s.append(", ");
        s.append(p.cpu.fixed1().as_str());
        s.append("% CPU)  ");
        s.append(load_str.as_str());
        s
    } else {
        load_str
    }
}

pub fn mem_blame(m: &Metrics) -> (r: String)
    ensures
        r@ == m.deep_view().mem_blame(),
{
    let used_pct = percent(m.mem.used, one_or_more(m.mem.total));
    let reason: String = if m.mem.swap_rate > 1_000_000 {
        "ACTIVELY PAGING TO DISK".to_owned()
    } else if m.mem.swap_used > 0 {
        let mut s = used_pct.fixed0();
        s.append("% RAM used, ");
        s.append(gigabytes(m.mem.swap_used).fixed1().as_str());
        s.append(" GB spilled to swap");
        s
    } else {
        let mut s = used_pct.fixed0();
        s.append("% RAM used");
        s
    };
    if m.top_mem.len() > 0 {
        let p = &m.top_mem[0];
        let mut s = headline(p);
        s.append(", ");
        s.append(fmt_bytes(p.mem).as_str());
        s.append(")  ");
        s.append(reason.as_str());
        s
    } else {
        reason
    }
}

pub fn disk_blame(m: &Metrics) -> (r: String)
    ensures
        r@ == m.deep_view().disk_blame(),
{
    let mbps = disk_mbps(m);
    if !mbps.at_least(Double::from_int(1).div(Double::from_int(10))) {
        "Minimal disk activity".to_owned()
    } else {
        let mut s = "Read: ".to_owned();
        s.append(fmt_bps(m.disk.read_bps).as_str());
        s.append("  Write: ");
        s.append(fmt_bps(m.disk.write_bps).as_str());
        s.append("  (");
        s.append(mbps.fixed0().as_str());
        s.append(" MB/s total)");
        s
    }
}

pub fn net_blame(m: &Metrics) -> (r: String)
    ensures
        r@ == m.deep_view().net_blame(),
{
    if m.net.errors > 0 || m.net.drops > 0 {
        let mut s = decimal::decimal(m.net.errors);
        s.append(" error(s), ");
        s.append(decimal::decimal(m.net.drops).as_str());
        s.append(" drop(s): packet loss causing retransmits");
        s
    } else {
        let mbps = net_mbps(m);
        if !mbps.at_least(Double::from_int(1).div(Double::from_int(100))) {
            "Minimal network activity".to_owned()
        } else {
            let mut s = "In: ".to_owned();
            s.append(fmt_bps(m.net.rx_bps).as_str());
            s.append("  Out: ");
            s.append(fmt_bps(m.net.tx_bps).as_str());
            s
        }
    }
}

// ---------------------------------------------------------------------------
// The report
// ---------------------------------------------------------------------------

/// The whole diagnosis.
#[derive(Debug)]
pub struct Report {
    pub culprits: Vec<Culprit>,
    pub blameboard: Vec<BlameEntry>,
    pub top_cpu: Vec<AggProcess>,
    pub top_mem: Vec<AggProcess>,
    pub verdict: String,
    /// Total system RAM in bytes, propagated for display percent math
    pub total_mem: u64,
    /// How the blameboard was sorted: "CPU" | "MEMORY" | "DISK" | "IMPACT"
    pub sort_basis: &'static str,
}

/// What a `Report` says.
pub struct ReportView {
    pub culprits: Seq<CulpritView>,
    pub blameboard: Seq<EntryView>,
    pub top_cpu: Seq<AggView>,
    pub top_mem: Seq<AggView>,
    pub verdict: Seq<char>,
    pub total_mem: u64,
    pub sort_basis: Seq<char>,
}

impl DeepView for Report {
    type V = ReportView;

    open spec fn deep_view(&self) -> ReportView {
        ReportView {
            culprits: self.culprits.deep_view(),
            blameboard: self.blameboard.deep_view(),
            top_cpu: self.top_cpu.deep_view(),
            top_mem: self.top_mem.deep_view(),
            verdict: self.verdict@,
            total_mem: self.total_mem,
            sort_basis: self.sort_basis@,
        }
    }
}

impl MetricsView {
    /// The four subsystems, in the order in which they are looked at.
    pub open spec fn subsystems(self) -> Seq<CulpritView> {
        seq![
            CulpritView {
                label: "CPU"@,
                score: self.cpu_score(),
                detail: self.cpu_detail(),
                blame_line: self.cpu_blame(),
            },
            CulpritView {
                label: "MEMORY"@,
                score: self.mem_score(),
                detail: self.mem_detail(),
                blame_line: self.mem_blame(),
            },
            CulpritView {
                label: "DISK"@,
                score: self.disk_score(),
                detail: self.disk_detail(),
                blame_line: self.disk_blame(),
            },
            CulpritView {
                label: "NETWORK"@,
                score: self.net_score(),
                detail: self.net_detail(),
                blame_line: self.net_blame(),
            },
        ]
    }

    /// The four subsystems, the most stressed first.
    pub open spec fn culprits(self) -> Seq<CulpritView> {
        rank::picked(
            self.subsystems(),
            rank::ranking(self.subsystems().map_values(|c: CulpritView| c.score as u64)),
        )
    }

    pub open spec fn weights(self) -> Weights {
        Weights {
            total_mem: at_least_one(self.mem.total),
            cpu_score: self.cpu_score(),
            mem_score: self.mem_score(),
            disk_score: self.disk_score(),
        }
    }

    pub open spec fn report(self) -> ReportView {
        ReportView {
            culprits: self.culprits(),
            blameboard: self.board(self.weights()),
            top_cpu: self.top_cpu,
            top_mem: self.top_mem,
            verdict: self.verdict(self.culprits()),
            total_mem: self.mem.total,
            sort_basis: self.weights().basis(),
        }
    }
}

impl Clone for Culprit {
    fn clone(&self) -> (r: Culprit)
        ensures
            r.deep_view() == self.deep_view(),
    {
        Culprit {
            label: self.label,
            score: self.score,
            detail: self.detail.clone(),
            blame_line: self.blame_line.clone(),
        }
    }
}

impl Clone for Report {
    fn clone(&self) -> (r: Report)
        ensures
            r.deep_view() == self.deep_view(),
    {
        let r = Report {
            culprits: self.culprits.clone(),
            blameboard: self.blameboard.clone(),
            top_cpu: self.top_cpu.clone(),
            top_mem: self.top_mem.clone(),
            verdict: self.verdict.clone(),
            total_mem: self.total_mem,
            sort_basis: self.sort_basis,
        };
        proof {
            assert(r.culprits.deep_view() =~= self.culprits.deep_view());
            assert(r.blameboard.deep_view() =~= self.blameboard.deep_view());
            assert(r.top_cpu.deep_view() =~= self.top_cpu.deep_view());
            assert(r.top_mem.deep_view() =~= self.top_mem.deep_view());
        }
        r
    }
}

/// The report on these metrics.
pub fn diagnose(m: &Metrics) -> (r: Report)
    ensures
        r.deep_view() == m.deep_view().report(),
{
    let cpu_score = score_cpu(m);
    let mem_score = score_memory(m);
    let disk_score = score_disk(m);
    let net_score = score_network(m);
    let mut list: Vec<Culprit> = Vec::new();
    list.push(
        Culprit { label: "CPU", score: cpu_score, detail: cpu_detail(m), blame_line: cpu_blame(m) },
    );
    list.push(
        Culprit {
            label: "MEMORY",
            score: mem_score,
            detail: mem_detail(m),
            blame_line: mem_blame(m),
        },
    );
    list.push(
        Culprit {
            label: "DISK",
            score: disk_score,
            detail: disk_detail(m),
            blame_line: disk_blame(m),
        },
    );
    list.push(
        Culprit {
            label: "NETWORK",
            score: net_score,
            detail: net_detail(m),
            blame_line: net_blame(m),
        },
    );
    let mut keys: Vec<u64> = Vec::new();
    keys.push(cpu_score as u64);
    keys.push(mem_score as u64);
    keys.push(disk_score as u64);
    keys.push(net_score as u64);
    let ghost mv = m.deep_view();
    proof {
        assert(list.deep_view() =~= mv.subsystems());
        assert(keys@ =~= mv.subsystems().map_values(|c: CulpritView| c.score as u64));
    }
    let order = rank::rank(&keys);
    let mut culprits: Vec<Culprit> = Vec::new();
    let mut i: usize = 0;
    while i < order.len()
        invariant
            i <= order@.len() == order.len(),
            forall|i: int| 0 <= i < order@.len() ==> #[trigger] order@[i] < list@.len(),
            culprits@.len() == i,
            forall|k: int|
                0 <= k < i ==> (#[trigger] culprits@[k]).deep_view()
                    == list@[order@[k] as int].deep_view(),
        decreases order@.len() - i,
    {
        culprits.push(list[order[i]].clone());
        i = i + 1;
    }
    proof {
        let o = order@.map_values(|i: usize| i as int);
        assert(culprits.deep_view() =~= rank::picked(list.deep_view(), o));
    }
    let (blameboard, sort_basis) = build_blameboard(m, cpu_score, mem_score, disk_score);
    let verdict = build_verdict(&culprits, m);
    let top_cpu = m.top_cpu.clone();
    let top_mem = m.top_mem.clone();
    proof {
        assert(top_cpu.deep_view() =~= m.top_cpu.deep_view());
        assert(top_mem.deep_view() =~= m.top_mem.deep_view());
    }
    Report {
        culprits,
        blameboard,
        top_cpu,
        top_mem,
        verdict,
        total_mem: m.mem.total,
        sort_basis,
    }
}

// ---------------------------------------------------------------------------
// What holds of every diagnosis
// ---------------------------------------------------------------------------

impl CulpritView {
    /// No two subsystems have the same label.
    pub open spec fn one_each(culprits: Seq<CulpritView>) -> bool {
        forall|i: int, j: int|
            0 <= i < j < culprits.len() ==> (#[trigger] culprits[i]).label != (
            #[trigger] culprits[j]).label
    }

    /// Some subsystem has this label.
    pub open spec fn lists(culprits: Seq<CulpritView>, label: Seq<char>) -> bool {
        exists|i: int| 0 <= i < culprits.len() && (#[trigger] culprits[i]).label == label
    }
}

proof fn lemma_labels_differ(m: MetricsView)
    ensures
        CulpritView::one_each(m.subsystems()),
{
    reveal_strlit("CPU");
    reveal_strlit("MEMORY");
    reveal_strlit("DISK");
    reveal_strlit("NETWORK");
    assert("CPU"@.len() == 3);
    assert("MEMORY"@.len() == 6);
    assert("DISK"@.len() == 4);
    assert("NETWORK"@.len() == 7);
}

/// A diagnosis ranks each of the four subsystems once, the most stressed first.
pub proof fn culprits_are_ranked(m: MetricsView)
    ensures
        m.report().culprits.len() == 4,
        forall|i: int, j: int|
            0 <= i < j < 4 ==> (#[trigger] m.report().culprits[i]).score >= (
            #[trigger] m.report().culprits[j]).score,
        forall|k: int|
            0 <= k < 4 ==> m.report().culprits.contains(#[trigger] m.subsystems()[k]),
        forall|i: int| 0 <= i < 4 ==> m.subsystems().contains(#[trigger] m.report().culprits[i]),
        CulpritView::one_each(m.report().culprits),
{
    let subs = m.subsystems();
    let keys = subs.map_values(|c: CulpritView| c.score as u64);
    let order = rank::ranking(keys);
    rank::ranking_exists(keys);
    let culprits = m.report().culprits;
    assert forall|i: int, j: int| 0 <= i < j < 4 implies (#[trigger] culprits[i]).score >= (
    #[trigger] culprits[j]).score by {
        assert(rank::before(keys, order[i], order[j]));
        assert(keys[order[i]] == culprits[i].score);
        assert(keys[order[j]] == culprits[j].score);
    }
    assert forall|k: int| 0 <= k < 4 implies culprits.contains(#[trigger] subs[k]) by {
        assert(order.contains(k));
        let i = choose|i: int| 0 <= i < order.len() && order[i] == k;
        assert(culprits[i] == subs[k]);
    }
    assert forall|i: int| 0 <= i < 4 implies subs.contains(#[trigger] culprits[i]) by {
        assert(culprits[i] == subs[order[i]]);
    }
    lemma_labels_differ(m);
    assert forall|i: int, j: int| 0 <= i < j < culprits.len() implies (#[trigger] culprits[i]).label
        != (#[trigger] culprits[j]).label by {
        assert(order[i] != order[j]);
        assert(culprits[i] == subs[order[i]]);
        assert(culprits[j] == subs[order[j]]);
        if order[i] < order[j] {
            assert(subs[order[i]].label != subs[order[j]].label);
        } else {
            assert(subs[order[j]].label != subs[order[i]].label);
        }
    }
}

/// A system is said to be healthy when no subsystem scores 20 or more.
pub proof fn healthy_below_twenty(m: MetricsView)
    requires
        m.cpu_score() < 20,
        m.mem_score() < 20,
        m.disk_score() < 20,
        m.net_score() < 20,
    ensures
        m.report().verdict == "System appears healthy. No significant bottlenecks detected."@,
{
    culprits_are_ranked(m);
    let top = m.report().culprits[0];
    assert(m.subsystems().contains(top));
}

/// A diagnosis ranks under each label the score of that subsystem, with what is told of
/// it, weighs the programs by those scores, and takes over the rest of the metrics.
/// Subsystems that score the same keep the order CPU, memory, disk, network.
pub proof fn diagnoses_put_scores_under_their_labels(m: MetricsView, i: int, j: int)
    requires
        0 <= i < j < 4,
    ensures
        ({
            let r = m.report();
            let c = r.culprits[i];
            let w = Weights {
                total_mem: if m.mem.total == 0 {
                    1
                } else {
                    m.mem.total
                },
                cpu_score: m.cpu_score(),
                mem_score: m.mem_score(),
                disk_score: m.disk_score(),
            };
            let place = |label: Seq<char>|
                if label == "CPU"@ {
                    0int
                } else if label == "MEMORY"@ {
                    1
                } else if label == "DISK"@ {
                    2
                } else {
                    3
                };
            &&& c.label == "CPU"@ ==> c.score == m.cpu_score() && c.detail == m.cpu_detail()
                && c.blame_line == m.cpu_blame()
            &&& c.label == "MEMORY"@ ==> c.score == m.mem_score() && c.detail == m.mem_detail()
                && c.blame_line == m.mem_blame()
            &&& c.label == "DISK"@ ==> c.score == m.disk_score() && c.detail == m.disk_detail()
                && c.blame_line == m.disk_blame()
            &&& c.label == "NETWORK"@ ==> c.score == m.net_score() && c.detail == m.net_detail()
                && c.blame_line == m.net_blame()
            &&& c.score == r.culprits[j].score ==> place(c.label) < place(r.culprits[j].label)
            &&& r.blameboard == m.board(w)
            &&& r.sort_basis == w.basis()
            &&& r.verdict == m.verdict(r.culprits)
            &&& r.total_mem == m.mem.total
            &&& r.top_cpu == m.top_cpu
            &&& r.top_mem == m.top_mem
        }),
{
    let subs = m.subsystems();
    let keys = subs.map_values(|c: CulpritView| c.score as u64);
    let order = rank::ranking(keys);
    rank::ranking_exists(keys);
    lemma_labels_differ(m);
    assert(m.report().culprits[i] == subs[order[i]]);
    assert(m.report().culprits[j] == subs[order[j]]);
    assert(rank::before(keys, order[i], order[j]));
    assert(subs[0].label != subs[1].label && subs[0].label != subs[2].label && subs[0].label
        != subs[3].label);
    assert(subs[1].label != subs[2].label && subs[1].label != subs[3].label);
    assert(subs[2].label != subs[3].label);
    assert(m.report().blameboard == m.board(m.weights()));
}

/// The load is told as congested where more than two tasks a core want to run, and as
/// oversubscribed where more than one does, beside the use and the load themselves.
pub proof fn cpu_is_told_by_use_and_queue(m: MetricsView)
    requires
        m.cpu.load1.bits < crate::float::DOUBLE_INFINITY,
        m.cpu.logical_cores <= 0x4000_0000,
    ensures
        ({
            let cores = m.cpu.logical_cores as nat;
            let n: nat = if cores == 0 {
                1
            } else {
                cores
            };
            let one = Double::one();
            let load = m.cpu.load1.units();
            // by a billionth of the cores
            let above = |k: nat| load * 0x4000_0000 >= (k * 0x4000_0000 + 1) * n * one;
            let load_text = m.cpu.load1.text1();
            let used = m.cpu.usage_pct.text0();
            let detail = used + "% used"@ + ", "@ + "load "@ + load_text;
            let who = if m.top_cpu.len() > 0 {
                m.top_cpu[0].headline() + ", "@ + m.top_cpu[0].cpu.text1() + "% CPU)  "@
            } else {
                Seq::empty()
            };
            &&& above(2) ==> m.cpu_detail() == detail + " on "@ + decimal::dec(cores)
                + " cores: queue congested"@
            &&& above(1) && load <= 2 * n * one ==> m.cpu_detail() == detail
                + ": slightly oversubscribed"@
            &&& load <= 1 * n * one ==> m.cpu_detail() == detail
            &&& above(2) ==> m.cpu_blame() == who + ("load "@ + load_text + "/"@ + decimal::dec(
                cores,
            ) + " cores: tasks queuing"@)
            &&& above(1) && load <= 2 * n * one ==> m.cpu_blame() == who + ("load "@ + load_text
                + "/"@ + decimal::dec(cores) + " cores: oversubscribed"@)
            &&& load <= 1 * n * one ==> m.cpu_blame() == who + (used + "% total CPU"@)
        }),
{
    let cores = m.cpu.logical_cores as nat;
    let n: nat = if cores == 0 {
        1
    } else {
        cores
    };
    let one = Double::one();
    crate::exact::loads_compare_with_cores(m.cpu.load1, n, 2);
    crate::exact::loads_compare_with_cores(m.cpu.load1, n, 1);
    crate::exact::double_holds_integers(1);
    crate::exact::double_holds_integers(2);
    assert(1 * n * one <= 2 * n * one) by (nonlinear_arith);
    assert(1 * one <= 2 * one);
    let load_text = m.cpu.load1.text1();
    let congested = "load "@ + load_text + "/"@ + decimal::dec(cores) + " cores: tasks queuing"@;
    let over = "load "@ + load_text + "/"@ + decimal::dec(cores) + " cores: oversubscribed"@;
    let calm = m.cpu.usage_pct.text0() + "% total CPU"@;
    assert(Seq::empty() + congested =~= congested);
    assert(Seq::empty() + over =~= over);
    assert(Seq::empty() + calm =~= calm);
}

/// Memory is told in gigabytes used and in all, with the swap in use where there is any,
/// and with a word on paging where swap grows by more than a million bytes a second.
pub proof fn memory_is_told_in_gigabytes(m: MetricsView)
    requires
        m.mem.used < 0x20_0000_0000_0000,
        m.mem.total < 0x20_0000_0000_0000,
        m.mem.swap_used < 0x20_0000_0000_0000,
    ensures
        ({
            let gb = |bytes: u64|
                decimal::tenths(crate::rounding::nearest(bytes as nat * 10, 1_073_741_824));
            let ram = gb(m.mem.used) + "/"@ + gb(m.mem.total) + " GB"@;
            let swap = ram + "  swap: "@ + gb(m.mem.swap_used) + " GB"@;
            let total: nat = if m.mem.total == 0 {
                1
            } else {
                m.mem.total as nat
            };
            let used = Double::of(m.mem.used as nat).over(Double::of(total)).times(
                Double::of(100),
            ).text0();
            let who = if m.top_mem.len() > 0 {
                m.top_mem[0].headline() + ", "@ + Double::bytes_text(m.top_mem[0].mem) + ")  "@
            } else {
                Seq::empty()
            };
            &&& m.mem.swap_used == 0 ==> m.mem_detail() == ram
            &&& m.mem.swap_used > 0 && m.mem.swap_rate <= 1_000_000 ==> m.mem_detail() == swap
            &&& m.mem.swap_used > 0 && m.mem.swap_rate > 1_000_000 ==> m.mem_detail() == swap
                + " (PAGING)"@
            &&& m.mem.swap_rate > 1_000_000 ==> m.mem_blame() == who + "ACTIVELY PAGING TO DISK"@
            &&& m.mem.swap_rate <= 1_000_000 && m.mem.swap_used > 0 ==> m.mem_blame() == who + (used
                + "% RAM used, "@ + gb(m.mem.swap_used) + " GB spilled to swap"@)
            &&& m.mem.swap_rate <= 1_000_000 && m.mem.swap_used == 0 ==> m.mem_blame() == who + (
            used + "% RAM used"@)
        }),
{
    crate::exact::gigabytes_are_nearest(m.mem.used);
    crate::exact::gigabytes_are_nearest(m.mem.total);
    crate::exact::gigabytes_are_nearest(m.mem.swap_used);
    let used = Double::percent(m.mem.used, at_least_one(m.mem.total)).text0();
    let paging = "ACTIVELY PAGING TO DISK"@;
    let spilled = used + "% RAM used, "@ + Double::gigabytes(m.mem.swap_used).text1()
        + " GB spilled to swap"@;
    let calm = used + "% RAM used"@;
    assert(Seq::empty() + paging =~= paging);
    assert(Seq::empty() + spilled =~= spilled);
    assert(Seq::empty() + calm =~= calm);
}

/// Disk use is told by what is read and what is written, each by itself, and together in
/// whole MB/s. The network is told by what comes in and what goes out, and by what is
/// lost where something is.
pub proof fn traffic_is_told_by_direction(m: MetricsView, read: nat, written: nat)
    requires
        (read + written) * 1_048_576 < 0x20_0000_0000_0000,
        m.disk.read_bps == Double::of(read * 1_048_576),
        m.disk.write_bps == Double::of(written * 1_048_576),
    ensures
        m.disk_detail() == "R: "@ + m.disk.read_bps.bps_text() + "  W: "@
            + m.disk.write_bps.bps_text(),
        read + written > 0 ==> m.disk_blame() == "Read: "@ + m.disk.read_bps.bps_text()
            + "  Write: "@ + m.disk.write_bps.bps_text() + "  ("@ + decimal::dec(read + written)
            + " MB/s total)"@,
        read + written == 0 ==> m.disk_blame() == "Minimal disk activity"@,
        ({
            let s = "in: "@ + m.net.rx_bps.bps_text() + "  out: "@ + m.net.tx_bps.bps_text();
            let lost = "  err: "@ + decimal::dec(m.net.errors as nat) + "  drop: "@ + decimal::dec(
                m.net.drops as nat,
            );
            &&& m.net.errors == 0 && m.net.drops == 0 ==> m.net_detail() == s
            &&& m.net.errors > 0 || m.net.drops > 0 ==> m.net_detail() == s + lost
            &&& m.net.errors > 0 || m.net.drops > 0 ==> m.net_blame() == decimal::dec(
                m.net.errors as nat,
            ) + " error(s), "@ + decimal::dec(m.net.drops as nat)
                + " drop(s): packet loss causing retransmits"@
            &&& m.net.errors == 0 && m.net.drops == 0 ==> m.net_blame()
                == "Minimal network activity"@ || m.net_blame() == "In: "@
                + m.net.rx_bps.bps_text() + "  Out: "@ + m.net.tx_bps.bps_text()
        }),
{
    crate::exact::double_integers_are_integers(read * 1_048_576, written * 1_048_576);
    crate::exact::division_is_exact(read + written, 1_048_576);
    crate::exact::double_integers_are_integers(read + written, 0);
    crate::exact::lemma_tenth(read + written);
    let s = "in: "@ + m.net.rx_bps.bps_text() + "  out: "@ + m.net.tx_bps.bps_text();
    let lost = "  err: "@ + decimal::dec(m.net.errors as nat) + "  drop: "@ + decimal::dec(
        m.net.drops as nat,
    );
    assert(s + "  err: "@ + decimal::dec(m.net.errors as nat) + "  drop: "@ + decimal::dec(
        m.net.drops as nat,
    ) =~= s + lost);
}

/// A network with a MiB/s of traffic is not told as idle, and one without any is.
pub proof fn network_traffic_is_told(m: MetricsView, received: nat, sent: nat)
    requires
        (received + sent) * 1_048_576 < 0x20_0000_0000_0000,
        m.net.rx_bps == Double::of(received * 1_048_576),
        m.net.tx_bps == Double::of(sent * 1_048_576),
        m.net.errors == 0,
        m.net.drops == 0,
    ensures
        m.net_blame() == if received + sent > 0 {
            "In: "@ + m.net.rx_bps.bps_text() + "  Out: "@ + m.net.tx_bps.bps_text()
        } else {
            "Minimal network activity"@
        },
{
    crate::exact::double_integers_are_integers(received * 1_048_576, sent * 1_048_576);
    crate::exact::division_is_exact(received + sent, 1_048_576);
    crate::exact::lemma_tenth(received + sent);
}

/// Traffic is told from a tenth of a MB/s on for the disk, both directions together, and
/// from a hundredth on for the network; below, it is minimal.
pub proof fn little_traffic_is_minimal(m: MetricsView)
    ensures
        ({
            let mbps = m.disk.read_bps.plus(m.disk.write_bps).over(Double::of(1_048_576));
            m.disk_blame() == if mbps.units() < Double::of(1).over(Double::of(10)).units() {
                "Minimal disk activity"@
            } else {
                "Read: "@ + m.disk.read_bps.bps_text() + "  Write: "@ + m.disk.write_bps.bps_text()
                    + "  ("@ + mbps.text0() + " MB/s total)"@
            }
        }),
        m.disk_detail() == "R: "@ + m.disk.read_bps.bps_text() + "  W: "@
            + m.disk.write_bps.bps_text(),
        m.net.errors == 0 && m.net.drops == 0 ==> ({
            let mbps = m.net.rx_bps.plus(m.net.tx_bps).over(Double::of(1_048_576));
            m.net_blame() == if mbps.units() < Double::of(1).over(Double::of(100)).units() {
                "Minimal network activity"@
            } else {
                "In: "@ + m.net.rx_bps.bps_text() + "  Out: "@ + m.net.tx_bps.bps_text()
            }
        }),
{
}

/// A program is named with the number of its processes.
pub proof fn programs_are_named_with_their_count(p: AggView)
    ensures
        p.count == 1 ==> p.headline() == p.name + " ("@ + decimal::dec(1) + " proc"@ + ""@,
        p.count != 1 ==> p.headline() == p.name + " ("@ + decimal::dec(p.count as nat) + " proc"@
            + "s"@,
{
}

} // verus!
