//! The whole diagnosis, told in a few sentences.
use crate::collect::{Metrics, MetricsView};
use crate::decimal;
use crate::diagnose;
use crate::diagnose::{Culprit, CulpritView};
use crate::exact;
use crate::float::Double;
use crate::text;
use vstd::prelude::*;

verus! {

impl CulpritView {
    /// The first two culprits that score at least 40.
    pub open spec fn heavy(culprits: Seq<CulpritView>) -> Seq<CulpritView>
        decreases culprits.len(),
    {
        if culprits.len() == 0 {
            Seq::empty()
        } else {
            let h = CulpritView::heavy(culprits.drop_last());
            if h.len() < 2 && culprits.last().score >= 40 {
                h.push(culprits.last())
            } else {
                h
            }
        }
    }
}

impl MetricsView {
    /// What is said of the CPU.
    pub open spec fn cpu_sentences(self) -> Seq<Seq<char>> {
        let first = if self.congested() {
            "CPU is the primary bottleneck: load average "@ + self.cpu.load1.text1() + " on "@
                + decimal::dec(self.cpu.logical_cores as nat) + " cores means tasks are queuing."@
        } else {
            "CPU usage is high at "@ + self.cpu.usage_pct.text0() + "%."@
        };
        if self.top_cpu.len() > 0 {
            seq![
                first,
                self.top_cpu[0].headline() + ") is consuming "@ + self.top_cpu[0].cpu.text1()
                    + "% CPU."@,
            ]
        } else {
            seq![first]
        }
    }

    /// What is said of memory.
    pub open spec fn mem_sentences(self) -> Seq<Seq<char>> {
        let used = Double::percent(self.mem.used, diagnose::at_least_one(self.mem.total)).text0();
        let first = if self.mem.swap_rate > 1_000_000 {
            "RAM is exhausted and the system is actively paging to swap. Severe latency expected."@
        } else if self.mem.swap_used > 0 {
            "Memory at "@ + used + "%: spilled into swap, currently stable but at risk."@
        } else {
            "Memory usage is high at "@ + used + "%."@
        };
        if self.top_mem.len() > 0 {
            seq![
                first,
                self.top_mem[0].headline() + ") holds "@ + Double::gigabytes(
                    self.top_mem[0].mem,
                ).text1() + " GB."@,
            ]
        } else {
            seq![first]
        }
    }

    /// What is said of disk use.
    pub open spec fn disk_sentences(self) -> Seq<Seq<char>> {
        seq!["Disk I/O is heavy at "@ + self.disk_mbps().text0() + " MB/s total."@]
    }

    /// What is said of the network.
    pub open spec fn net_sentences(self) -> Seq<Seq<char>> {
        if self.packet_loss() {
            seq![
                "Network has "@ + decimal::dec(self.net.errors as nat) + " error(s) and "@
                    + decimal::dec(self.net.drops as nat)
                    + " drop(s). Packet loss may cause retransmits."@,
            ]
        } else {
            seq!["Network throughput is "@ + self.net_mbps().text0() + " MB/s."@]
        }
    }

    /// What is said of the subsystem of this label.
    pub open spec fn sentences_on(self, label: Seq<char>) -> Seq<Seq<char>> {
        if label == "CPU"@ {
            self.cpu_sentences()
        } else if label == "MEMORY"@ {
            self.mem_sentences()
        } else if label == "DISK"@ {
            self.disk_sentences()
        } else if label == "NETWORK"@ {
            self.net_sentences()
        } else {
            Seq::empty()
        }
    }

    /// What is said of these culprits.
    pub open spec fn sentences(self, culprits: Seq<CulpritView>) -> Seq<Seq<char>>
        decreases culprits.len(),
    {
        if culprits.len() == 0 {
            Seq::empty()
        } else {
            self.sentences(culprits.drop_last()) + self.sentences_on(culprits.last().label)
        }
    }

    /// The verdict on these culprits, the most stressed of which comes first.
    pub open spec fn verdict(self, culprits: Seq<CulpritView>) -> Seq<char> {
        let said = self.sentences(CulpritView::heavy(culprits));
        if culprits.len() == 0 || culprits[0].score < 20 {
            "System appears healthy. No significant bottlenecks detected."@
        } else if said.len() == 0 {
            "System load is moderate. Monitor for changes."@
        } else {
            text::join(said, "  "@)
        }
    }
}

fn say_cpu(m: &Metrics, out: &mut Vec<String>)
    ensures
        text::texts(final(out)@) == text::texts(old(out)@) + m.deep_view().cpu_sentences(),
{
    let ghost start = text::texts(out@);
    let ratio = diagnose::load_ratio(m);
    let first: String = if ratio.above(Double::from_int(2)) {
        let mut s = "CPU is the primary bottleneck: load average ".to_owned();
        s.append(m.cpu.load1.fixed1().as_str());
        s.append(" on ");
        s.append(decimal::decimal(m.cpu.logical_cores as u64).as_str());
        s.append(" cores means tasks are queuing.");
        s
    } else {
        let mut s = "CPU usage is high at ".to_owned();
        s.append(m.cpu.usage_pct.fixed0().as_str());
        s.append("%.");
        s
    };
    out.push(first);
    if m.top_cpu.len() > 0 {
        let p = &m.top_cpu[0];
        let mut s = diagnose::headline(p);
        s.append(") is consuming ");
        s.append(p.cpu.fixed1().as_str());
        s.append("% CPU.");
        out.push(s);
    }
    proof {
        assert(text::texts(out@) =~= start + m.deep_view().cpu_sentences());
    }
}

fn say_mem(m: &Metrics, out: &mut Vec<String>)
    ensures
        text::texts(final(out)@) == text::texts(old(out)@) + m.deep_view().mem_sentences(),
{
    let ghost start = text::texts(out@);
    let used_pct = diagnose::percent(m.mem.used, diagnose::one_or_more(m.mem.total));
    let first: String = if m.mem.swap_rate > 1_000_000 {
        "RAM is exhausted and the system is actively paging to swap. Severe latency expected.".to_owned()
    } else if m.mem.swap_used > 0 {
        let mut s = "Memory at ".to_owned();
        s.append(used_pct.fixed0().as_str());
        s.append("%: spilled into swap, currently stable but at risk.");
        s
    } else {
        let mut s = "Memory usage is high at ".to_owned();
        s.append(used_pct.fixed0().as_str());
        s.append("%.");
        s
    };
    out.push(first);
    if m.top_mem.len() > 0 {
        let p = &m.top_mem[0];
        let mut s = diagnose::headline(p);
        s.append(") holds ");
        s.append(diagnose::gigabytes(p.mem).fixed1().as_str());
        s.append(" GB.");
        out.push(s);
    }
    proof {
        assert(text::texts(out@) =~= start + m.deep_view().mem_sentences());
    }
}

fn say_disk(m: &Metrics, out: &mut Vec<String>)
    ensures
        text::texts(final(out)@) == text::texts(old(out)@) + m.deep_view().disk_sentences(),
{
    let ghost start = text::texts(out@);
    let mut s = "Disk I/O is heavy at ".to_owned();
    s.append(diagnose::disk_mbps(m).fixed0().as_str());
    s.append(" MB/s total.");
    out.push(s);
    proof {
        assert(text::texts(out@) =~= start + m.deep_view().disk_sentences());
    }
}

fn say_net(m: &Metrics, out: &mut Vec<String>)
    ensures
        text::texts(final(out)@) == text::texts(old(out)@) + m.deep_view().net_sentences(),
{
    let ghost start = text::texts(out@);
    if m.net.errors > 0 || m.net.drops > 0 {
        let mut s = "Network has ".to_owned();
        s.append(decimal::decimal(m.net.errors).as_str());
        s.append(" error(s) and ");
        s.append(decimal::decimal(m.net.drops).as_str());
        s.append(" drop(s). Packet loss may cause retransmits.");
        out.push(s);
    } else {
        let mut s = "Network throughput is ".to_owned();
        s.append(diagnose::net_mbps(m).fixed0().as_str());
        s.append(" MB/s.");
        out.push(s);
    }
    proof {
        assert(text::texts(out@) =~= start + m.deep_view().net_sentences());
    }
}

/// The verdict on these culprits, the most stressed of which comes first.
pub fn build_verdict(culprits: &Vec<Culprit>, m: &Metrics) -> (r: String)
    ensures
        r@ == m.deep_view().verdict(culprits.deep_view()),
{
    if culprits.len() == 0 || culprits[0].score < 20 {
        return "System appears healthy. No significant bottlenecks detected.".to_owned();
    }
    let ghost mv = m.deep_view();
    let ghost all = culprits.deep_view();
    let mut said: Vec<String> = Vec::new();
    let mut taken: usize = 0;
    let mut i: usize = 0;
    proof {
        assert(text::texts(said@) =~= mv.sentences(CulpritView::heavy(all.take(0))));
    }
    while i < culprits.len()
        invariant
            i <= culprits@.len(),
            mv == m.deep_view(),
            all == culprits.deep_view(),
            taken == CulpritView::heavy(all.take(i as int)).len(),
            taken <= 2,
            text::texts(said@) == mv.sentences(CulpritView::heavy(all.take(i as int))),
        decreases culprits@.len() - i,
    {
        let c = &culprits[i];
        proof {
            let next = all.take(i + 1);
            let h = CulpritView::heavy(all.take(i as int));
            assert(next.drop_last() =~= all.take(i as int));
            assert(next.last() == c.deep_view());
            assert(h.push(c.deep_view()).drop_last() =~= h);
            let before = text::texts(said@);
            assert(before + Seq::<Seq<char>>::empty() =~= before);
        }
        if taken < 2 && c.score >= 40 {
            taken = taken + 1;
            if text::same(c.label, "CPU") {
                say_cpu(m, &mut said);
            } else if text::same(c.label, "MEMORY") {
                say_mem(m, &mut said);
            } else if text::same(c.label, "DISK") {
                say_disk(m, &mut said);
            } else if text::same(c.label, "NETWORK") {
                say_net(m, &mut said);
            }
        }
        i = i + 1;
    }
    proof {
        assert(all.take(culprits@.len() as int) =~= all);
    }
    if said.len() == 0 {
        "System load is moderate. Monitor for changes.".to_owned()
    } else {
        text::joined(&said, "  ")
    }
}

// ---------------------------------------------------------------------------
// What every verdict says
// ---------------------------------------------------------------------------

proof fn lemma_no_heavy(culprits: Seq<CulpritView>)
    requires
        forall|k: int| 0 <= k < culprits.len() ==> (#[trigger] culprits[k]).score < 40,
    ensures
        CulpritView::heavy(culprits).len() == 0,
    decreases culprits.len(),
{
    if culprits.len() > 0 {
        let rest = culprits.drop_last();
        assert forall|k: int| 0 <= k < rest.len() implies (#[trigger] rest[k]).score < 40 by {
            assert(culprits[k].score < 40);
        }
        assert(culprits[culprits.len() - 1].score < 40);
        lemma_no_heavy(rest);
    }
}

proof fn lemma_one_heavy(culprits: Seq<CulpritView>, i: int)
    requires
        0 <= i < culprits.len(),
        culprits[i].score >= 40,
        forall|k: int| 0 <= k < culprits.len() && k != i ==> (#[trigger] culprits[k]).score < 40,
    ensures
        CulpritView::heavy(culprits) == seq![culprits[i]],
    decreases culprits.len(),
{
    let rest = culprits.drop_last();
    assert forall|k: int| 0 <= k < rest.len() && k != i implies (#[trigger] rest[k]).score
        < 40 by {
        assert(culprits[k].score < 40);
    }
    if i == culprits.len() - 1 {
        lemma_no_heavy(rest);
        assert(CulpritView::heavy(culprits) =~= seq![culprits[i]]);
    } else {
        assert(culprits[culprits.len() - 1].score < 40);
        lemma_one_heavy(rest, i);
    }
}

proof fn lemma_two_heavy(culprits: Seq<CulpritView>, i: int, j: int)
    requires
        0 <= i < j < culprits.len(),
        culprits[i].score >= 40,
        culprits[j].score >= 40,
        forall|k: int| 0 <= k < j && k != i ==> (#[trigger] culprits[k]).score < 40,
    ensures
        CulpritView::heavy(culprits) == seq![culprits[i], culprits[j]],
    decreases culprits.len(),
{
    let rest = culprits.drop_last();
    assert forall|k: int| 0 <= k < j && k != i implies (#[trigger] rest[k]).score < 40 by {
        assert(culprits[k].score < 40);
    }
    if j == culprits.len() - 1 {
        lemma_one_heavy(rest, i);
        assert(CulpritView::heavy(culprits) =~= seq![culprits[i], culprits[j]]);
    } else {
        lemma_two_heavy(rest, i, j);
    }
}

/// The verdict speaks of the first two subsystems that score 40 or more, in the order in
/// which they come, and of no other.
pub proof fn verdicts_speak_of_the_two_worst(
    m: MetricsView,
    culprits: Seq<CulpritView>,
    i: int,
    j: int,
)
    requires
        culprits.len() > 0,
        culprits[0].score >= 20,
        0 <= i < culprits.len(),
        culprits[i].score >= 40,
        i < j <= culprits.len(),
        forall|k: int| 0 <= k < j && k != i ==> (#[trigger] culprits[k]).score < 40,
        j < culprits.len() ==> culprits[j].score >= 40,
        m.sentences_on(culprits[i].label).len() > 0,
    ensures
        j == culprits.len() ==> m.verdict(culprits) == text::join(
            m.sentences_on(culprits[i].label),
            "  "@,
        ),
        j < culprits.len() ==> m.verdict(culprits) == text::join(
            m.sentences_on(culprits[i].label) + m.sentences_on(culprits[j].label),
            "  "@,
        ),
{
    let first = seq![culprits[i]];
    assert(first.drop_last() =~= Seq::empty());
    assert(m.sentences(first.drop_last()) =~= Seq::empty());
    assert(m.sentences(first) =~= m.sentences_on(culprits[i].label));
    if j == culprits.len() {
        lemma_one_heavy(culprits, i);
    } else {
        lemma_two_heavy(culprits, i, j);
        let both = seq![culprits[i], culprits[j]];
        assert(both.drop_last() =~= first);
        assert(m.sentences(both) =~= m.sentences_on(culprits[i].label) + m.sentences_on(
            culprits[j].label,
        ));
    }
}

/// Where no subsystem scores 40, a system is healthy below 20 and moderately loaded from
/// there on.
pub proof fn light_loads_are_told_apart(m: MetricsView, culprits: Seq<CulpritView>)
    requires
        forall|k: int| 0 <= k < culprits.len() ==> (#[trigger] culprits[k]).score < 40,
    ensures
        m.verdict(culprits) == if culprits.len() > 0 && culprits[0].score >= 20 {
            "System load is moderate. Monitor for changes."@
        } else {
            "System appears healthy. No significant bottlenecks detected."@
        },
{
    lemma_no_heavy(culprits);
}

proof fn lemma_labels()
    ensures
        "CPU"@ != "MEMORY"@,
        "CPU"@ != "DISK"@,
        "CPU"@ != "NETWORK"@,
        "MEMORY"@ != "DISK"@,
        "MEMORY"@ != "NETWORK"@,
        "DISK"@ != "NETWORK"@,
{
    reveal_strlit("CPU");
    reveal_strlit("MEMORY");
    reveal_strlit("DISK");
    reveal_strlit("NETWORK");
    assert("CPU"@.len() == 3);
    assert("MEMORY"@.len() == 6);
    assert("DISK"@.len() == 4);
    assert("NETWORK"@.len() == 7);
}

/// Of disk use the verdict tells how much is read and written together: for whole MiB/s,
/// their sum.
pub proof fn disk_verdicts_tell_the_total(m: MetricsView, read: nat, written: nat)
    requires
        (read + written) * 1_048_576 < 0x20_0000_0000_0000,
        m.disk.read_bps == Double::of(read * 1_048_576),
        m.disk.write_bps == Double::of(written * 1_048_576),
    ensures
        m.sentences_on("DISK"@) == seq![
            "Disk I/O is heavy at "@ + decimal::dec(read + written) + " MB/s total."@,
        ],
{
    lemma_labels();
    exact::double_integers_are_integers(read * 1_048_576, written * 1_048_576);
    exact::division_is_exact(read + written, 1_048_576);
    exact::double_integers_are_integers(read + written, 0);
}

/// At any rates, the verdict tells of the sum of the two directions, to the nearest MB/s:
/// of what is read and written, and of what comes in and goes out.
pub proof fn verdicts_tell_sums(m: MetricsView, a: nat, b: nat)
    requires
        a + b < 0x20_0000_0000_0000,
    ensures
        m.disk.read_bps == Double::of(a) && m.disk.write_bps == Double::of(b) ==> m.sentences_on(
            "DISK"@,
        ) == seq![
            "Disk I/O is heavy at "@ + decimal::dec(crate::rounding::nearest(a + b, 1_048_576))
                + " MB/s total."@,
        ],
        m.net.rx_bps == Double::of(a) && m.net.tx_bps == Double::of(b) && m.net.errors == 0
            && m.net.drops == 0 ==> m.sentences_on("NETWORK"@) == seq![
            "Network throughput is "@ + decimal::dec(crate::rounding::nearest(a + b, 1_048_576))
                + " MB/s."@,
        ],
        m.sentences_on("DISK"@) == seq![
            "Disk I/O is heavy at "@ + m.disk.read_bps.plus(m.disk.write_bps).over(
                Double::of(1_048_576),
            ).text0() + " MB/s total."@,
        ],
{
    lemma_labels();
    vstd::arithmetic::power2::lemma2_to64();
    exact::double_integers_are_integers(a, b);
    exact::halving_is_exact(a + b, 20);
    exact::lemma_shown(a + b, 20, 1);
    assert((a + b) * 1 == a + b);
}

/// Of the network the verdict tells how much comes in and goes out together: for whole
/// MiB/s, their sum. Where packets are lost it tells of those instead.
pub proof fn network_verdicts_tell_the_total(m: MetricsView, received: nat, sent: nat)
    requires
        (received + sent) * 1_048_576 < 0x20_0000_0000_0000,
        m.net.rx_bps == Double::of(received * 1_048_576),
        m.net.tx_bps == Double::of(sent * 1_048_576),
    ensures
        m.net.errors == 0 && m.net.drops == 0 ==> m.sentences_on("NETWORK"@) == seq![
            "Network throughput is "@ + decimal::dec(received + sent) + " MB/s."@,
        ],
        m.net.errors > 0 || m.net.drops > 0 ==> m.sentences_on("NETWORK"@) == seq![
            "Network has "@ + decimal::dec(m.net.errors as nat) + " error(s) and "@ + decimal::dec(
                m.net.drops as nat,
            ) + " drop(s). Packet loss may cause retransmits."@,
        ],
{
    lemma_labels();
    exact::double_integers_are_integers(received * 1_048_576, sent * 1_048_576);
    exact::division_is_exact(received + sent, 1_048_576);
    exact::double_integers_are_integers(received + sent, 0);
}

/// How a program is named in a verdict.
pub open spec fn program_of(name: Seq<char>, count: usize) -> Seq<char> {
    name + " ("@ + decimal::dec(count as nat) + " proc"@ + if count == 1 {
        ""@
    } else {
        "s"@
    }
}

/// Of the CPU the verdict tells the load where more than two tasks a core want to run,
/// and the use otherwise; then the program that uses the most, and how much. The figures
/// are those of the metrics.
pub proof fn cpu_verdicts_tell_use_and_queue(m: MetricsView)
    requires
        m.cpu.load1.bits < crate::float::DOUBLE_INFINITY,
        m.cpu.logical_cores <= 0x4000_0000,
    ensures
        ({
            let cores: nat = if m.cpu.logical_cores == 0 {
                1
            } else {
                m.cpu.logical_cores as nat
            };
            let load = m.cpu.load1.units();
            let said = m.sentences_on("CPU"@);
            &&& said.len() == if m.top_cpu.len() > 0 {
                2nat
            } else {
                1nat
            }
            // by a billionth of the cores
            &&& load * 0x4000_0000 >= (2 * 0x4000_0000 + 1) * cores * Double::one() ==> said[0]
                == "CPU is the primary bottleneck: load average "@ + m.cpu.load1.text1() + " on "@
                + decimal::dec(m.cpu.logical_cores as nat) + " cores means tasks are queuing."@
            &&& load <= 2 * cores * Double::one() ==> said[0] == "CPU usage is high at "@
                + m.cpu.usage_pct.text0() + "%."@
            &&& m.top_cpu.len() > 0 ==> said[1] == program_of(
                m.top_cpu[0].name,
                m.top_cpu[0].count,
            ) + ") is consuming "@ + m.top_cpu[0].cpu.text1() + "% CPU."@
        }),
{
    let cores: nat = if m.cpu.logical_cores == 0 {
        1
    } else {
        m.cpu.logical_cores as nat
    };
    lemma_labels();
    exact::loads_compare_with_cores(m.cpu.load1, cores, 2);
}

/// Of memory the verdict tells that the system is paging, else that swap is in use, else
/// how much RAM is; then the program that holds the most, and how much in gigabytes.
pub proof fn memory_verdicts_tell_what_is_short(m: MetricsView)
    requires
        m.top_mem.len() > 0 ==> m.top_mem[0].mem < 0x20_0000_0000_0000,
    ensures
        ({
            let total: nat = if m.mem.total == 0 {
                1
            } else {
                m.mem.total as nat
            };
            let used = Double::of(m.mem.used as nat).over(Double::of(total)).times(
                Double::of(100),
            ).text0();
            let said = m.sentences_on("MEMORY"@);
            &&& said.len() == if m.top_mem.len() > 0 {
                2nat
            } else {
                1nat
            }
            &&& m.mem.swap_rate > 1_000_000 ==> said[0]
                == "RAM is exhausted and the system is actively paging to swap. Severe latency expected."@
            &&& m.mem.swap_rate <= 1_000_000 && m.mem.swap_used > 0 ==> said[0] == "Memory at "@
                + used + "%: spilled into swap, currently stable but at risk."@
            &&& m.mem.swap_rate <= 1_000_000 && m.mem.swap_used == 0 ==> said[0]
                == "Memory usage is high at "@ + used + "%."@
            &&& m.top_mem.len() > 0 ==> said[1] == program_of(
                m.top_mem[0].name,
                m.top_mem[0].count,
            ) + ") holds "@ + decimal::tenths(
                crate::rounding::nearest(m.top_mem[0].mem as nat * 10, 1_073_741_824),
            ) + " GB."@
        }),
{
    lemma_labels();
    if m.top_mem.len() > 0 {
        exact::gigabytes_are_nearest(m.top_mem[0].mem);
    }
}

/// Two rankings list the same subsystems with the same scores.
pub open spec fn same_ranking(a: Seq<CulpritView>, b: Seq<CulpritView>) -> bool {
    a.len() == b.len() && forall|k: int|
        0 <= k < a.len() ==> (#[trigger] a[k]).label == b[k].label && a[k].score == b[k].score
}

proof fn lemma_same_ranking(m: MetricsView, n: MetricsView, a: Seq<CulpritView>, b: Seq<CulpritView>)
    requires
        same_ranking(a, b),
        forall|label: Seq<char>| #[trigger] m.sentences_on(label) == n.sentences_on(label),
    ensures
        m.sentences(CulpritView::heavy(a)) == n.sentences(CulpritView::heavy(b)),
        CulpritView::heavy(a).len() == CulpritView::heavy(b).len(),
    decreases a.len(),
{
    if a.len() > 0 {
        assert forall|k: int| 0 <= k < a.drop_last().len() implies (#[trigger] a.drop_last()[k]).label
            == b.drop_last()[k].label && a.drop_last()[k].score == b.drop_last()[k].score by {
            assert(a[k].label == b[k].label);
        }
        lemma_same_ranking(m, n, a.drop_last(), b.drop_last());
        let last = a.len() - 1;
        assert(a[last].label == b[last].label && a[last].score == b[last].score);
        let h = CulpritView::heavy(a.drop_last());
        let g = CulpritView::heavy(b.drop_last());
        assert(h.push(a.last()).drop_last() =~= h);
        assert(g.push(b.last()).drop_last() =~= g);
    }
}

/// It makes no difference to a verdict which part of the disk use was read and which was
/// written.
pub proof fn verdicts_ignore_the_direction(
    m: MetricsView,
    turned: MetricsView,
    culprits: Seq<CulpritView>,
)
    requires
        turned == (MetricsView {
            disk: crate::collect::DiskMetrics {
                read_bps: m.disk.write_bps,
                write_bps: m.disk.read_bps,
            },
            ..m
        }),
    ensures
        turned.verdict(culprits) == m.verdict(culprits),
        turned.report().verdict == m.report().verdict,
{
    assert(turned.disk_mbps() == m.disk_mbps());
    assert forall|label: Seq<char>| #[trigger] turned.sentences_on(label) == m.sentences_on(
        label,
    ) by {
        assert(turned.cpu_sentences() == m.cpu_sentences());
        assert(turned.mem_sentences() == m.mem_sentences());
        assert(turned.disk_sentences() == m.disk_sentences());
        assert(turned.net_sentences() == m.net_sentences());
    }
    lemma_same_ranking(turned, m, culprits, culprits);
    let a = turned.culprits();
    let b = m.culprits();
    let keys = m.subsystems().map_values(|c: CulpritView| c.score as u64);
    assert(turned.subsystems().map_values(|c: CulpritView| c.score as u64) =~= keys);
    crate::rank::ranking_exists(keys);
    let order = crate::rank::ranking(keys);
    assert forall|k: int| 0 <= k < a.len() implies (#[trigger] a[k]).label == b[k].label
        && a[k].score == b[k].score by {
        assert(a[k] == turned.subsystems()[order[k]]);
        assert(b[k] == m.subsystems()[order[k]]);
    }
    lemma_same_ranking(turned, m, a, b);
}

} // verus!
