//! The Blameboard: one ranking of all the programs in the metrics, by their
//! impact on whatever is stressed.
use crate::collect::{copy_all, AggProcess, AggView, Metrics, MetricsView, ProcSample};
use crate::diagnose;
use crate::float::Double;
use crate::rank;
use vstd::prelude::*;

verus! {

/// One program on the Blameboard.
#[derive(Debug)]
pub struct BlameEntry {
    pub name: String,
    pub count: usize,
    pub cpu: crate::float::Single,
    pub mem: u64,
    pub disk_bps: Double,
    /// 0-100 composite impact score, weighted by subsystem stress
    pub impact: u8,
    /// Which axis drives this entry's guilt: "CPU", "MEM", "DISK", or combos
    pub why: &'static str,
    pub max_uptime_secs: u64,
    pub cmd: String,
    pub samples: Vec<ProcSample>,
    pub all_pids: Vec<u32>,
    pub all_uids: Vec<u32>,
}

/// What a `BlameEntry` says.
pub struct EntryView {
    pub name: Seq<char>,
    pub count: usize,
    pub cpu: crate::float::Single,
    pub mem: u64,
    pub disk_bps: Double,
    pub impact: u8,
    pub why: Seq<char>,
    pub max_uptime_secs: u64,
    pub cmd: Seq<char>,
    pub samples: Seq<ProcSample>,
    pub all_pids: Seq<u32>,
    pub all_uids: Seq<u32>,
}

impl DeepView for BlameEntry {
    type V = EntryView;

    open spec fn deep_view(&self) -> EntryView {
        EntryView {
            name: self.name@,
            count: self.count,
            cpu: self.cpu,
            mem: self.mem,
            disk_bps: self.disk_bps,
            impact: self.impact,
            why: self.why@,
            max_uptime_secs: self.max_uptime_secs,
            cmd: self.cmd@,
            samples: self.samples@,
            all_pids: self.all_pids@,
            all_uids: self.all_uids@,
        }
    }
}

pub open spec fn or_else<T>(a: Seq<T>, b: Seq<T>) -> Seq<T> {
    if a.len() == 0 {
        b
    } else {
        a
    }
}

impl EntryView {
    /// The entry of a program that has none yet.
    pub open spec fn new(p: AggView) -> EntryView {
        EntryView {
            name: p.name,
            count: p.count,
            cpu: p.cpu,
            mem: p.mem,
            disk_bps: p.disk_bps,
            impact: 0,
            why: ""@,
            max_uptime_secs: p.max_uptime_secs,
            cmd: p.cmd,
            samples: p.samples,
            all_pids: p.all_pids,
            all_uids: p.all_uids,
        }
    }

    /// The entry after it met its program once more: the larger of each figure,
    /// and each list from where it is first given.
    pub open spec fn met(self, p: AggView) -> EntryView {
        EntryView {
            count: if p.count > self.count {
                p.count
            } else {
                self.count
            },
            cpu: self.cpu.larger(p.cpu),
            mem: if p.mem > self.mem {
                p.mem
            } else {
                self.mem
            },
            disk_bps: self.disk_bps.larger(p.disk_bps),
            max_uptime_secs: if p.max_uptime_secs > self.max_uptime_secs {
                p.max_uptime_secs
            } else {
                self.max_uptime_secs
            },
            cmd: or_else(self.cmd, p.cmd),
            samples: or_else(self.samples, p.samples),
            all_pids: or_else(self.all_pids, p.all_pids),
            all_uids: or_else(self.all_uids, p.all_uids),
            ..self
        }
    }

    /// The position of the entry of this name, or the end.
    pub open spec fn find(entries: Seq<EntryView>, name: Seq<char>, from: int) -> int
        decreases entries.len() - from,
    {
        if 0 <= from < entries.len() {
            if entries[from].name == name {
                from
            } else {
                EntryView::find(entries, name, from + 1)
            }
        } else {
            entries.len() as int
        }
    }

    /// The entries after one more program.
    pub open spec fn absorb(entries: Seq<EntryView>, p: AggView) -> Seq<EntryView> {
        let i = EntryView::find(entries, p.name, 0);
        if i < entries.len() {
            entries.update(i, entries[i].met(p))
        } else {
            entries.push(EntryView::new(p))
        }
    }

    /// One entry for each name in the list.
    pub open spec fn merged(list: Seq<AggView>) -> Seq<EntryView>
        decreases list.len(),
    {
        if list.len() == 0 {
            Seq::empty()
        } else {
            EntryView::absorb(EntryView::merged(list.drop_last()), list.last())
        }
    }

    /// The entry with its impact, and with the axes that it is guilty on.
    pub open spec fn weighed(self, w: Weights) -> EntryView {
        let cpu = self.cpu.widened().times(w.cpu_boost());
        let mem = Double::percent(self.mem, w.total_mem).times(w.mem_boost());
        let disk = self.disk_bps.over(Double::of(diagnose::MIB as nat)).times(w.disk_boost());
        EntryView {
            impact: cpu.larger(mem).larger(disk).smaller(Double::of(100)).byte(),
            why: guilt(cpu, mem, disk),
            ..self
        }
    }
}

/// What the impact of a program is measured against.
#[derive(Debug, Clone, Copy)]
pub struct Weights {
    pub total_mem: u64,
    pub cpu_score: u8,
    pub mem_score: u8,
    pub disk_score: u8,
}

impl Weights {
    /// From 1 on an idle subsystem to 3 on a stressed one.
    pub open spec fn boost(score: u8) -> Double {
        Double::of(1).plus(Double::of(score as nat).over(Double::of(50)))
    }

    pub open spec fn cpu_boost(self) -> Double {
        Weights::boost(self.cpu_score)
    }

    pub open spec fn mem_boost(self) -> Double {
        Weights::boost(self.mem_score)
    }

    pub open spec fn disk_boost(self) -> Double {
        Weights::boost(self.disk_score)
    }

    /// The label of the most stressed subsystem.
    pub open spec fn top_label(self) -> Seq<char> {
        if self.cpu_score >= self.mem_score && self.cpu_score >= self.disk_score {
            "CPU"@
        } else if self.mem_score >= self.disk_score {
            "MEMORY"@
        } else {
            "DISK"@
        }
    }

    /// The highest score.
    pub open spec fn top_score(self) -> int {
        max2(max2(self.cpu_score as int, self.mem_score as int), self.disk_score as int)
    }

    /// The highest score but one.
    pub open spec fn second_score(self) -> int {
        max2(
            max2(
                min2(self.cpu_score as int, self.mem_score as int),
                min2(self.cpu_score as int, self.disk_score as int),
            ),
            min2(self.mem_score as int, self.disk_score as int),
        )
    }

    /// What the Blameboard is sorted by: one subsystem if it is clearly the
    /// bottleneck, else the impact.
    pub open spec fn basis(self) -> Seq<char> {
        if self.top_score() >= 40 && self.top_score() - self.second_score() >= 20 {
            self.top_label()
        } else {
            "IMPACT"@
        }
    }
}

pub open spec fn max2(a: int, b: int) -> int {
    if a >= b {
        a
    } else {
        b
    }
}

pub open spec fn min2(a: int, b: int) -> int {
    if a <= b {
        a
    } else {
        b
    }
}

/// The axes on which a program weighs at least 10, in capitals; the heaviest
/// one, in small letters, where there is none.
pub open spec fn guilt(cpu: Double, mem: Double, disk: Double) -> Seq<char> {
    let c = cpu.ge(Double::of(10));
    let m = mem.ge(Double::of(10));
    let d = disk.ge(Double::of(10));
    if c && m && d {
        "CPU+MEM+DISK"@
    } else if c && m {
        "CPU+MEM"@
    } else if c && d {
        "CPU+DISK"@
    } else if m && d {
        "MEM+DISK"@
    } else if c {
        "CPU"@
    } else if m {
        "MEM"@
    } else if d {
        "DISK"@
    } else if cpu.ge(mem) && cpu.ge(disk) {
        "cpu"@
    } else if mem.ge(disk) {
        "mem"@
    } else {
        "disk"@
    }
}

impl EntryView {
    /// What an entry is ranked by.
    pub open spec fn key(self, basis: Seq<char>) -> u64 {
        if basis == "CPU"@ {
            self.cpu.bits as u64
        } else if basis == "MEMORY"@ {
            self.mem
        } else if basis == "DISK"@ {
            self.disk_bps.bits
        } else {
            self.impact as u64
        }
    }

    /// The entries in the order in which they are shown.
    pub open spec fn sorted(entries: Seq<EntryView>, basis: Seq<char>) -> Seq<EntryView> {
        rank::picked(
            entries,
            rank::ranking(entries.map_values(|e: EntryView| e.key(basis))),
        )
    }
}

impl MetricsView {
    /// The Blameboard for these scores.
    pub open spec fn board(self, w: Weights) -> Seq<EntryView> {
        let entries = EntryView::merged(self.top_cpu + self.top_mem + self.top_disk);
        EntryView::sorted(entries.map_values(|e: EntryView| e.weighed(w)), w.basis())
    }
}

impl Clone for BlameEntry {
    fn clone(&self) -> (r: BlameEntry)
        ensures
            r.deep_view() == self.deep_view(),
    {
        BlameEntry {
            name: self.name.clone(),
            count: self.count,
            cpu: self.cpu,
            mem: self.mem,
            disk_bps: self.disk_bps,
            impact: self.impact,
            why: self.why,
            max_uptime_secs: self.max_uptime_secs,
            cmd: self.cmd.clone(),
            samples: copy_all(&self.samples),
            all_pids: copy_all(&self.all_pids),
            all_uids: copy_all(&self.all_uids),
        }
    }
}

impl BlameEntry {
    fn new(p: &AggProcess) -> (r: BlameEntry)
        ensures
            r.deep_view() == EntryView::new(p.deep_view()),
    {
        BlameEntry {
            name: p.name.clone(),
            count: p.count,
            cpu: p.cpu,
            mem: p.mem,
            disk_bps: p.disk_bps,
            impact: 0,
            why: "",
            max_uptime_secs: p.max_uptime_secs,
            cmd: p.cmd.clone(),
            samples: copy_all(&p.samples),
            all_pids: copy_all(&p.all_pids),
            all_uids: copy_all(&p.all_uids),
        }
    }

    fn meet(self, p: &AggProcess) -> (r: BlameEntry)
        ensures
            r.deep_view() == self.deep_view().met(p.deep_view()),
    {
        let ghost start = self.deep_view();
        let mut e = self;
        if p.count > e.count {
            e.count = p.count;
        }
        if p.cpu.above(e.cpu) {
            e.cpu = p.cpu;
        }
        if p.mem > e.mem {
            e.mem = p.mem;
        }
        if p.disk_bps.above(e.disk_bps) {
            e.disk_bps = p.disk_bps;
        }
        if p.max_uptime_secs > e.max_uptime_secs {
            e.max_uptime_secs = p.max_uptime_secs;
        }
        if e.cmd.as_str().is_empty() {
            e.cmd = p.cmd.clone();
        }
        if e.samples.len() == 0 {
            e.samples = copy_all(&p.samples);
        }
        if e.all_pids.len() == 0 {
            e.all_pids = copy_all(&p.all_pids);
        }
        if e.all_uids.len() == 0 {
            e.all_uids = copy_all(&p.all_uids);
        }
        proof {
            assert(e.deep_view() == start.met(p.deep_view()));
        }
        e
    }

    /// The position of the entry of this name, or the end.
    pub fn find(entries: &Vec<BlameEntry>, name: &String) -> (r: usize)
        ensures
            r == EntryView::find(entries.deep_view(), name@, 0),
            r <= entries@.len(),
    {
        let ghost all = entries.deep_view();
        let mut i: usize = 0;
        while i < entries.len() && !(entries[i].name == *name)
            invariant
                all == entries.deep_view(),
                i <= entries@.len(),
                EntryView::find(all, name@, 0) == EntryView::find(all, name@, i as int),
            ensures
                i <= entries@.len(),
                i == EntryView::find(all, name@, 0),
            decreases entries@.len() - i,
        {
            i = i + 1;
        }
        i
    }

    /// The entries after the programs of one more list.
    fn absorb_all(entries: Vec<BlameEntry>, list: &Vec<AggProcess>, Ghost(done): Ghost<
        Seq<AggView>,
    >) -> (r: Vec<BlameEntry>)
        requires
            entries.deep_view() == EntryView::merged(done),
        ensures
            r.deep_view() == EntryView::merged(done + list.deep_view()),
    {
        let ghost all = list.deep_view();
        let mut entries = entries;
        let mut i: usize = 0;
        proof {
            assert(done + all.take(0) =~= done);
        }
        while i < list.len()
            invariant
                all == list.deep_view(),
                i <= list@.len(),
                entries.deep_view() == EntryView::merged(done + all.take(i as int)),
            decreases list@.len() - i,
        {
            let p = &list[i];
            let ghost before = entries.deep_view();
            let at = BlameEntry::find(&entries, &p.name);
            proof {
                let next = done + all.take(i + 1);
                assert(next.drop_last() =~= done + all.take(i as int));
                assert(next.last() == p.deep_view());
                lemma_find(before, p.name@, 0);
            }
            if at == entries.len() {
                entries.push(BlameEntry::new(p));
                proof {
                    assert(entries.deep_view() =~= before.push(EntryView::new(p.deep_view())));
                }
            } else {
                let e = entries.remove(at);
                proof {
                    assert(before[at as int] == e.deep_view());
                }
                let e = e.meet(p);
                entries.insert(at, e);
                proof {
                    assert(entries.deep_view() =~= before.update(at as int, e.deep_view()));
                }
            }
            i = i + 1;
        }
        assert(all.take(list@.len() as int) =~= all);
        entries
    }

    fn weigh(self, w: &Weights) -> (r: BlameEntry)
        requires
            w.total_mem > 0,
        ensures
            r.deep_view() == self.deep_view().weighed(*w),
    {
        let hundred = Double::from_int(100);
        let cpu = self.cpu.to_double().mul(boost(w.cpu_score));
        let mem = diagnose::percent(self.mem, w.total_mem).mul(boost(w.mem_score));
        let disk = self.disk_bps.div(Double::from_int(diagnose::MIB)).mul(boost(w.disk_score));
        let mut e = self;
        e.impact = cpu.max(mem).max(disk).min(hundred).to_byte();
        e.why = blame_axes(cpu, mem, disk);
        e
    }

    /// The entries at these positions, in this order.
    fn pick(entries: &Vec<BlameEntry>, order: &Vec<usize>) -> (r: Vec<BlameEntry>)
        requires
            forall|i: int| 0 <= i < order@.len() ==> #[trigger] order@[i] < entries@.len(),
        ensures
            r.deep_view() == rank::picked(
                entries.deep_view(),
                order@.map_values(|i: usize| i as int),
            ),
    {
        let mut r: Vec<BlameEntry> = Vec::new();
        let mut i: usize = 0;
        while i < order.len()
            invariant
                i <= order@.len() == order.len(),
                forall|i: int| 0 <= i < order@.len() ==> #[trigger] order@[i] < entries@.len(),
                r@.len() == i,
                forall|k: int|
                    0 <= k < i ==> (#[trigger] r@[k]).deep_view()
                        == entries@[order@[k] as int].deep_view(),
            decreases order@.len() - i,
        {
            r.push(entries[order[i]].clone());
            i = i + 1;
        }
        assert(r.deep_view() =~= rank::picked(
            entries.deep_view(),
            order@.map_values(|i: usize| i as int),
        ));
        r
    }
}

pub proof fn lemma_find(t: Seq<EntryView>, name: Seq<char>, from: int)
    requires
        0 <= from <= t.len(),
    ensures
        from <= EntryView::find(t, name, from) <= t.len(),
        EntryView::find(t, name, from) < t.len() ==> t[EntryView::find(t, name, from)].name == name,
        forall|i: int| from <= i < EntryView::find(t, name, from) ==> (#[trigger] t[i]).name != name,
    decreases t.len() - from,
{
    if from < t.len() && t[from].name != name {
        lemma_find(t, name, from + 1);
    }
}

fn boost(score: u8) -> (r: Double)
    ensures
        r == Weights::boost(score),
        0 < r.bits < crate::float::DOUBLE_INFINITY,
{
    proof {
        crate::exact::lemma_boost(score);
    }
    Double::from_int(1).add(Double::from_int(score as u64).div(Double::from_int(50)))
}

fn blame_axes(cpu: Double, mem: Double, disk: Double) -> (r: &'static str)
    ensures
        r@ == guilt(cpu, mem, disk),
{
    let ten = Double::from_int(10);
    match (cpu.at_least(ten), mem.at_least(ten), disk.at_least(ten)) {
        (true, true, true) => "CPU+MEM+DISK",
        (true, true, false) => "CPU+MEM",
        (true, false, true) => "CPU+DISK",
        (false, true, true) => "MEM+DISK",
        (true, false, false) => "CPU",
        (false, true, false) => "MEM",
        (false, false, true) => "DISK",
        (false, false, false) => {
            if cpu.at_least(mem) && cpu.at_least(disk) {
                "cpu"
            } else if mem.at_least(disk) {
                "mem"
            } else {
                "disk"
            }
        },
    }
}

/// What the Blameboard is sorted by.
fn sort_basis(w: &Weights) -> (r: &'static str)
    ensures
        r@ == w.basis(),
{
    let c: u8 = w.cpu_score;
    let m: u8 = w.mem_score;
    let d: u8 = w.disk_score;
    let (label, top, second): (&'static str, u8, u8) = if c >= m && c >= d {
        (
            "CPU",
            c,
            if m >= d {
                m
            } else {
                d
            },
        )
    } else if m >= d {
        (
            "MEMORY",
            m,
            if c >= d {
                c
            } else {
                d
            },
        )
    } else {
        (
            "DISK",
            d,
            if c >= m {
                c
            } else {
                m
            },
        )
    };
    if top >= 40 && top - second >= 20 {
        label
    } else {
        "IMPACT"
    }
}

/// The Blameboard, and what it is sorted by.
pub fn build_blameboard(m: &Metrics, cpu_score: u8, mem_score: u8, disk_score: u8) -> (r: (
    Vec<BlameEntry>,
    &'static str,
))
    ensures
        ({
            let w = Weights {
                total_mem: diagnose::at_least_one(m.mem.total),
                cpu_score,
                mem_score,
                disk_score,
            };
            r.0.deep_view() == m.deep_view().board(w) && r.1@ == w.basis()
        }),
{
    let w = Weights {
        total_mem: diagnose::one_or_more(m.mem.total),
        cpu_score,
        mem_score,
        disk_score,
    };
    let ghost mv = m.deep_view();
    let entries: Vec<BlameEntry> = Vec::new();
    proof {
        assert(entries.deep_view() =~= EntryView::merged(Seq::empty()));
    }
    let entries = BlameEntry::absorb_all(entries, &m.top_cpu, Ghost(Seq::empty()));
    proof {
        assert(Seq::empty() + mv.top_cpu =~= mv.top_cpu);
    }
    let entries = BlameEntry::absorb_all(entries, &m.top_mem, Ghost(mv.top_cpu));
    let mut rest = BlameEntry::absorb_all(entries, &m.top_disk, Ghost(mv.top_cpu + mv.top_mem));
    let ghost raw = rest.deep_view();
    let ghost heavy = raw.map_values(|e: EntryView| e.weighed(w));
    let basis = sort_basis(&w);
    let by_cpu = crate::text::same(basis, "CPU");
    let by_mem = crate::text::same(basis, "MEMORY");
    let by_disk = crate::text::same(basis, "DISK");
    let mut entries: Vec<BlameEntry> = Vec::new();
    let mut keys: Vec<u64> = Vec::new();
    let mut left: usize = rest.len();
    while left > 0
        invariant
            left == rest@.len(),
            w.total_mem > 0,
            rest@.len() + entries@.len() == heavy.len() == raw.len(),
            keys@.len() == entries@.len(),
            heavy == raw.map_values(|e: EntryView| e.weighed(w)),
            rest.deep_view() == raw.skip(entries@.len() as int),
            entries.deep_view() == heavy.take(entries@.len() as int),
            forall|k: int| 0 <= k < keys@.len() ==> #[trigger] keys@[k] == heavy[k].key(basis@),
            by_cpu == (basis@ == "CPU"@),
            by_mem == (basis@ == "MEMORY"@),
            by_disk == (basis@ == "DISK"@),
        decreases left,
    {
        let ghost old_rest = rest.deep_view();
        let ghost n = entries@.len() as int;
        proof {
            assert(old_rest[0] == raw[n]);
        }
        let e = rest.remove(0);
        let e = e.weigh(&w);
        proof {
            assert(e.deep_view() == heavy[n]);
        }
        let key: u64 = if by_cpu {
            e.cpu.bits as u64
        } else if by_mem {
            e.mem
        } else if by_disk {
            e.disk_bps.bits
        } else {
            e.impact as u64
        };
        keys.push(key);
        entries.push(e);
        proof {
            assert(rest.deep_view() =~= old_rest.skip(1));
            assert(old_rest.skip(1) =~= raw.skip(n + 1));
            assert(entries.deep_view() =~= heavy.take(n + 1));
        }
        left = left - 1;
    }
    proof {
        assert(entries.deep_view() =~= heavy);
        assert(keys@ =~= heavy.map_values(|e: EntryView| e.key(basis@)));
    }
    let order = rank::rank(&keys);
    (BlameEntry::pick(&entries, &order), basis)
}

// ---------------------------------------------------------------------------
// What holds of every Blameboard
// ---------------------------------------------------------------------------

impl EntryView {
    /// No two entries have the same name.
    pub open spec fn one_each(entries: Seq<EntryView>) -> bool {
        forall|i: int, j: int|
            0 <= i < j < entries.len() ==> (#[trigger] entries[i]).name != (
            #[trigger] entries[j]).name
    }

    /// Some entry has this name.
    pub open spec fn lists(entries: Seq<EntryView>, name: Seq<char>) -> bool {
        exists|i: int| 0 <= i < entries.len() && (#[trigger] entries[i]).name == name
    }

    /// No figure of the program is larger than that of the entry.
    pub open spec fn covers(self, p: AggView) -> bool {
        &&& self.count >= p.count
        &&& self.cpu.ge(p.cpu)
        &&& self.mem >= p.mem
        &&& self.disk_bps.ge(p.disk_bps)
        &&& self.max_uptime_secs >= p.max_uptime_secs
    }
}

/// Of these lists, this is the first that is not empty, or all of them are empty.
pub open spec fn first_given<T>(lists: Seq<Seq<T>>, given: Seq<T>) -> bool {
    if given.len() == 0 {
        forall|k: int| 0 <= k < lists.len() ==> (#[trigger] lists[k]).len() == 0
    } else {
        exists|k: int|
            0 <= k < lists.len() && #[trigger] lists[k] == given && forall|j: int|
                0 <= j < k ==> (#[trigger] lists[j]).len() == 0
    }
}

proof fn lemma_first_given<T>(lists: Seq<Seq<T>>, given: Seq<T>, next: Seq<T>)
    requires
        first_given(lists, given),
    ensures
        first_given(lists.push(next), or_else(given, next)),
{
    let all = lists.push(next);
    if given.len() > 0 {
        let k = choose|k: int|
            0 <= k < lists.len() && #[trigger] lists[k] == given && forall|j: int|
                0 <= j < k ==> (#[trigger] lists[j]).len() == 0;
        assert(all[k] == given);
        assert forall|j: int| 0 <= j < k implies (#[trigger] all[j]).len() == 0 by {
            assert(lists[j].len() == 0);
        }
    } else {
        assert forall|j: int| 0 <= j < lists.len() implies (#[trigger] all[j]).len() == 0 by {
            assert(lists[j].len() == 0);
        }
        assert(all[lists.len() as int] == next);
    }
}

impl EntryView {
    /// The entry tells of these programs the largest of each figure, and each text and
    /// list from where it is first given.
    pub open spec fn tells_of(self, programs: Seq<AggView>) -> bool {
        &&& forall|k: int| 0 <= k < programs.len() ==> self.covers(#[trigger] programs[k])
        &&& exists|k: int| 0 <= k < programs.len() && (#[trigger] programs[k]).count == self.count
        &&& exists|k: int| 0 <= k < programs.len() && (#[trigger] programs[k]).cpu == self.cpu
        &&& exists|k: int| 0 <= k < programs.len() && (#[trigger] programs[k]).mem == self.mem
        &&& exists|k: int|
            0 <= k < programs.len() && (#[trigger] programs[k]).disk_bps == self.disk_bps
        &&& exists|k: int|
            0 <= k < programs.len() && (#[trigger] programs[k]).max_uptime_secs
                == self.max_uptime_secs
        &&& first_given(programs.map_values(|p: AggView| p.cmd), self.cmd)
        &&& first_given(programs.map_values(|p: AggView| p.samples), self.samples)
        &&& first_given(programs.map_values(|p: AggView| p.all_pids), self.all_pids)
        &&& first_given(programs.map_values(|p: AggView| p.all_uids), self.all_uids)
    }
}

proof fn lemma_new(p: AggView)
    ensures
        EntryView::new(p).tells_of(seq![p]),
{
    let one = seq![p];
    assert(one[0] == p);
    assert(one.map_values(|p: AggView| p.cmd)[0] == p.cmd);
    assert(one.map_values(|p: AggView| p.samples)[0] == p.samples);
    assert(one.map_values(|p: AggView| p.all_pids)[0] == p.all_pids);
    assert(one.map_values(|p: AggView| p.all_uids)[0] == p.all_uids);
}

proof fn lemma_met(e: EntryView, programs: Seq<AggView>, p: AggView)
    requires
        e.tells_of(programs),
    ensures
        e.met(p).tells_of(programs.push(p)),
{
    let all = programs.push(p);
    let r = e.met(p);
    assert(all[programs.len() as int] == p);
    assert forall|k: int| 0 <= k < all.len() implies r.covers(#[trigger] all[k]) by {
        if k < programs.len() {
            assert(e.covers(programs[k]));
        }
    }
    let k = choose|k: int| 0 <= k < programs.len() && (#[trigger] programs[k]).count == e.count;
    assert(all[k].count == e.count);
    let k = choose|k: int| 0 <= k < programs.len() && (#[trigger] programs[k]).cpu == e.cpu;
    assert(all[k].cpu == e.cpu);
    let k = choose|k: int| 0 <= k < programs.len() && (#[trigger] programs[k]).mem == e.mem;
    assert(all[k].mem == e.mem);
    let k = choose|k: int| 0 <= k < programs.len() && (#[trigger] programs[k]).disk_bps == e.disk_bps;
    assert(all[k].disk_bps == e.disk_bps);
    let k = choose|k: int|
        0 <= k < programs.len() && (#[trigger] programs[k]).max_uptime_secs == e.max_uptime_secs;
    assert(all[k].max_uptime_secs == e.max_uptime_secs);
    let cmds = programs.map_values(|p: AggView| p.cmd);
    let samples = programs.map_values(|p: AggView| p.samples);
    let pids = programs.map_values(|p: AggView| p.all_pids);
    let uids = programs.map_values(|p: AggView| p.all_uids);
    lemma_first_given(cmds, e.cmd, p.cmd);
    lemma_first_given(samples, e.samples, p.samples);
    lemma_first_given(pids, e.all_pids, p.all_pids);
    lemma_first_given(uids, e.all_uids, p.all_uids);
    assert(all.map_values(|p: AggView| p.cmd) =~= cmds.push(p.cmd));
    assert(all.map_values(|p: AggView| p.samples) =~= samples.push(p.samples));
    assert(all.map_values(|p: AggView| p.all_pids) =~= pids.push(p.all_pids));
    assert(all.map_values(|p: AggView| p.all_uids) =~= uids.push(p.all_uids));
}

impl AggView {
    /// The programs of this name.
    pub open spec fn named(programs: Seq<AggView>, name: Seq<char>) -> Seq<AggView> {
        programs.filter(|p: AggView| p.name == name)
    }

    /// Some program has this name.
    pub open spec fn lists(programs: Seq<AggView>, name: Seq<char>) -> bool {
        exists|i: int| 0 <= i < programs.len() && (#[trigger] programs[i]).name == name
    }
}

impl MetricsView {
    /// The programs that are heaviest by CPU, by memory and by disk use.
    pub open spec fn heaviest(self) -> Seq<AggView> {
        self.top_cpu + self.top_mem + self.top_disk
    }
}

proof fn lemma_merged(list: Seq<AggView>)
    ensures
        EntryView::one_each(EntryView::merged(list)),
        forall|k: int|
            0 <= k < list.len() ==> EntryView::lists(
                EntryView::merged(list),
                (#[trigger] list[k]).name,
            ),
        forall|i: int|
            0 <= i < EntryView::merged(list).len() ==> AggView::lists(
                list,
                (#[trigger] EntryView::merged(list)[i]).name,
            ),
        forall|i: int, k: int|
            0 <= i < EntryView::merged(list).len() && 0 <= k < list.len() && (
            #[trigger] EntryView::merged(list)[i]).name == (#[trigger] list[k]).name
                ==> EntryView::merged(list)[i].covers(list[k]),
    decreases list.len(),
{
    if list.len() > 0 {
        let rest = list.drop_last();
        let p = list.last();
        let old = EntryView::merged(rest);
        let new = EntryView::merged(list);
        lemma_merged(rest);
        lemma_find(old, p.name, 0);
        let at = EntryView::find(old, p.name, 0);
        assert forall|k: int| 0 <= k < list.len() implies EntryView::lists(
            new,
            (#[trigger] list[k]).name,
        ) by {
            if k < rest.len() {
                assert(rest[k] == list[k]);
                let i = choose|i: int| 0 <= i < old.len() && (#[trigger] old[i]).name == rest[k].name;
                assert(new[i].name == list[k].name);
            } else {
                assert(new[at].name == p.name);
            }
        }
        assert forall|i: int| 0 <= i < new.len() implies AggView::lists(
            list,
            (#[trigger] new[i]).name,
        ) by {
            if i < old.len() {
                assert(new[i].name == old[i].name);
                let k = choose|k: int| 0 <= k < rest.len() && (#[trigger] rest[k]).name == old[i].name;
                assert(list[k].name == new[i].name);
            } else {
                assert(list[list.len() - 1].name == new[i].name);
            }
        }
        assert forall|i: int, k: int|
            0 <= i < new.len() && 0 <= k < list.len() && (#[trigger] new[i]).name == (
            #[trigger] list[k]).name implies new[i].covers(list[k]) by {
            if k < rest.len() {
                assert(rest[k] == list[k]);
                if i < old.len() {
                    assert(old[i].name == rest[k].name);
                    assert(old[i].covers(rest[k]));
                } else {
                    assert(EntryView::lists(old, rest[k].name));
                    let j = choose|j: int|
                        0 <= j < old.len() && (#[trigger] old[j]).name == rest[k].name;
                    assert(new[j].name == new[i].name);
                }
            } else if i != at {
                assert(old[i].name == p.name);
            }
        }
    }
}

proof fn lemma_told(list: Seq<AggView>)
    ensures
        forall|i: int|
            0 <= i < EntryView::merged(list).len() ==> (#[trigger] EntryView::merged(
                list,
            )[i]).tells_of(AggView::named(list, EntryView::merged(list)[i].name)),
        forall|name: Seq<char>|
            !EntryView::lists(EntryView::merged(list), name) ==> (#[trigger] AggView::named(
                list,
                name,
            )).len() == 0,
    decreases list.len(),
{
    reveal(Seq::filter);
    if list.len() > 0 {
        let rest = list.drop_last();
        let p = list.last();
        let old = EntryView::merged(rest);
        let new = EntryView::merged(list);
        lemma_told(rest);
        lemma_merged(rest);
        lemma_find(old, p.name, 0);
        let at = EntryView::find(old, p.name, 0);
        assert forall|i: int| 0 <= i < new.len() implies (#[trigger] new[i]).tells_of(
            AggView::named(list, new[i].name),
        ) by {
            let then = AggView::named(rest, new[i].name);
            if i == at {
                assert(AggView::named(list, new[i].name) == then.push(p));
                if at < old.len() {
                    lemma_met(old[at], then, p);
                } else {
                    assert(!EntryView::lists(old, p.name));
                    assert(then.len() == 0);
                    assert(then.push(p) =~= seq![p]);
                    lemma_new(p);
                }
            } else {
                assert(new[i] == old[i]);
                assert(old[i].name != p.name) by {
                    if old[i].name == p.name && at < old.len() {
                        if i < at {
                            assert(old[i].name != old[at].name);
                        } else {
                            assert(old[at].name != old[i].name);
                        }
                    }
                }
                assert(AggView::named(list, new[i].name) == then);
            }
        }
        assert forall|name: Seq<char>| !EntryView::lists(new, name) implies (
        #[trigger] AggView::named(list, name)).len() == 0 by {
            assert(new[at].name == p.name);
            assert(p.name != name);
            assert(!EntryView::lists(old, name)) by {
                if EntryView::lists(old, name) {
                    let i = choose|i: int| 0 <= i < old.len() && (#[trigger] old[i]).name == name;
                    assert(new[i].name == name);
                }
            }
            assert(AggView::named(rest, name).len() == 0);
        }
    }
}

/// Where an entry of the board stands in the list that it was sorted from.
proof fn lemma_board(m: MetricsView, w: Weights)
    ensures
        ({
            let entries = EntryView::merged(m.heaviest());
            let keys = entries.map_values(|e: EntryView| e.weighed(w)).map_values(
                |e: EntryView| e.key(w.basis()),
            );
            let order = rank::ranking(keys);
            &&& rank::ranked(keys, order)
            &&& order.no_duplicates()
            &&& m.board(w).len() == entries.len()
            &&& forall|i: int|
                0 <= i < m.board(w).len() ==> #[trigger] m.board(w)[i] == entries[order[i]].weighed(w)
            &&& forall|v: int|
                0 <= v < entries.len() ==> keys[v] == (#[trigger] entries[v]).weighed(w).key(
                    w.basis(),
                )
        }),
{
    let entries = EntryView::merged(m.heaviest());
    let weighed = entries.map_values(|e: EntryView| e.weighed(w));
    let keys = weighed.map_values(|e: EntryView| e.key(w.basis()));
    rank::ranking_exists(keys);
}

/// Every program that is among the heaviest by CPU, by memory or by disk use is on
/// the board, once, and no other is.
pub proof fn board_names_each_program_once(m: MetricsView, w: Weights)
    ensures
        EntryView::one_each(m.board(w)),
        forall|k: int|
            0 <= k < m.heaviest().len() ==> EntryView::lists(
                m.board(w),
                (#[trigger] m.heaviest()[k]).name,
            ),
        forall|i: int|
            0 <= i < m.board(w).len() ==> AggView::lists(
                m.heaviest(),
                (#[trigger] m.board(w)[i]).name,
            ),
{
    let list = m.heaviest();
    let entries = EntryView::merged(list);
    let board = m.board(w);
    let keys = entries.map_values(|e: EntryView| e.weighed(w)).map_values(
        |e: EntryView| e.key(w.basis()),
    );
    let order = rank::ranking(keys);
    lemma_merged(list);
    lemma_board(m, w);
    assert forall|i: int, j: int| 0 <= i < j < board.len() implies (#[trigger] board[i]).name != (
    #[trigger] board[j]).name by {
        assert(order[i] != order[j]);
        assert(board[i].name == entries[order[i]].name);
        assert(board[j].name == entries[order[j]].name);
        if order[i] < order[j] {
            assert(entries[order[i]].name != entries[order[j]].name);
        } else {
            assert(entries[order[j]].name != entries[order[i]].name);
        }
    }
    assert forall|k: int| 0 <= k < list.len() implies EntryView::lists(
        board,
        (#[trigger] list[k]).name,
    ) by {
        let v = choose|v: int| 0 <= v < entries.len() && (#[trigger] entries[v]).name == list[k].name;
        assert(order.contains(v));
        let i = choose|i: int| 0 <= i < order.len() && order[i] == v;
        assert(board[i].name == list[k].name);
    }
    assert forall|i: int| 0 <= i < board.len() implies AggView::lists(
        list,
        (#[trigger] board[i]).name,
    ) by {
        assert(board[i].name == entries[order[i]].name);
    }
}

/// An entry has the largest of each figure that was given for its program, and the
/// first command line, samples, processes and owners that were given for it.
pub proof fn board_shows_the_largest_figures(m: MetricsView, w: Weights, i: int)
    requires
        0 <= i < m.board(w).len(),
    ensures
        m.board(w)[i].tells_of(AggView::named(m.heaviest(), m.board(w)[i].name)),
        forall|k: int|
            0 <= k < m.heaviest().len() && (#[trigger] m.heaviest()[k]).name == m.board(w)[i].name
                ==> m.board(w)[i].covers(m.heaviest()[k]),
{
    let entries = EntryView::merged(m.heaviest());
    lemma_merged(m.heaviest());
    lemma_told(m.heaviest());
    lemma_board(m, w);
    let keys = entries.map_values(|e: EntryView| e.weighed(w)).map_values(
        |e: EntryView| e.key(w.basis()),
    );
    let at = rank::ranking(keys)[i];
    assert(m.board(w)[i] == entries[at].weighed(w));
    assert(entries[at].tells_of(AggView::named(m.heaviest(), entries[at].name)));
    let named = AggView::named(m.heaviest(), entries[at].name);
    assert forall|k: int| 0 <= k < named.len() implies m.board(w)[i].covers(#[trigger] named[k]) by {
        assert(entries[at].covers(named[k]));
    }
    assert forall|k: int|
        0 <= k < m.heaviest().len() && (#[trigger] m.heaviest()[k]).name == m.board(w)[i].name implies m.board(
    w)[i].covers(m.heaviest()[k]) by {
        assert(entries[at].covers(m.heaviest()[k]));
    }
}

/// The board is sorted, by what it says that it is sorted by, the largest first.
pub proof fn board_is_sorted(m: MetricsView, w: Weights, i: int, j: int)
    requires
        0 <= i < j < m.board(w).len(),
    ensures
        w.basis() == "CPU"@ ==> m.board(w)[i].cpu.ge(m.board(w)[j].cpu),
        w.basis() == "MEMORY"@ ==> m.board(w)[i].mem >= m.board(w)[j].mem,
        w.basis() == "DISK"@ ==> m.board(w)[i].disk_bps.ge(m.board(w)[j].disk_bps),
        w.basis() == "IMPACT"@ ==> m.board(w)[i].impact >= m.board(w)[j].impact,
{
    let board = m.board(w);
    let entries = EntryView::merged(m.heaviest());
    let keys = entries.map_values(|e: EntryView| e.weighed(w)).map_values(
        |e: EntryView| e.key(w.basis()),
    );
    let order = rank::ranking(keys);
    lemma_board(m, w);
    assert(rank::before(keys, order[i], order[j]));
    assert(keys[order[i]] == entries[order[i]].weighed(w).key(w.basis()));
    assert(keys[order[j]] == entries[order[j]].weighed(w).key(w.basis()));
    assert(board[i] == entries[order[i]].weighed(w));
    assert(board[j] == entries[order[j]].weighed(w));
    assert(board[i].key(w.basis()) >= board[j].key(w.basis()));
    let single = crate::float::SINGLE_BINADE as nat;
    let double = crate::float::DOUBLE_BINADE as nat;
    crate::rounding::lemma_units_order(single, board[j].cpu.bits as nat, board[i].cpu.bits as nat);
    crate::rounding::lemma_units_order(
        double,
        board[j].disk_bps.bits as nat,
        board[i].disk_bps.bits as nat,
    );
    lemma_bases_differ();
}

pub(crate) proof fn lemma_bases_differ()
    ensures
        "IMPACT"@ != "CPU"@,
        "IMPACT"@ != "MEMORY"@,
        "IMPACT"@ != "DISK"@,
        "MEMORY"@ != "CPU"@,
        "DISK"@ != "CPU"@,
        "DISK"@ != "MEMORY"@,
{
    reveal_strlit("IMPACT");
    reveal_strlit("CPU");
    reveal_strlit("MEMORY");
    reveal_strlit("DISK");
    assert("IMPACT"@[0] == 'I');
    assert("MEMORY"@[0] == 'M');
    assert("DISK"@.len() == 4);
    assert("CPU"@.len() == 3);
}

/// No program has an impact above 100.
pub proof fn impact_is_a_percentage(m: MetricsView, w: Weights, i: int)
    requires
        0 <= i < m.board(w).len(),
    ensures
        m.board(w)[i].impact <= 100,
{
    let entries = EntryView::merged(m.heaviest());
    lemma_board(m, w);
    let keys = entries.map_values(|e: EntryView| e.weighed(w)).map_values(
        |e: EntryView| e.key(w.basis()),
    );
    let e = entries[rank::ranking(keys)[i]];
    let cpu = e.cpu.widened().times(w.cpu_boost());
    let mem = Double::percent(e.mem, w.total_mem).times(w.mem_boost());
    let disk = e.disk_bps.over(Double::of(diagnose::MIB as nat)).times(w.disk_boost());
    crate::exact::lemma_capped_double(cpu.larger(mem).larger(disk), 100);
    assert(m.board(w)[i] == e.weighed(w));
}

/// A culprit, with an impact of 40 or more, is guilty on some axis: its guilt is
/// told in capitals.
pub proof fn culprits_have_a_reason(m: MetricsView, w: Weights, i: int)
    requires
        0 <= i < m.board(w).len(),
        m.board(w)[i].impact >= 40,
    ensures
        ({
            let why = m.board(w)[i].why;
            ||| why == "CPU"@
            ||| why == "MEM"@
            ||| why == "DISK"@
            ||| why == "CPU+MEM"@
            ||| why == "CPU+DISK"@
            ||| why == "MEM+DISK"@
            ||| why == "CPU+MEM+DISK"@
        }),
{
    let entries = EntryView::merged(m.heaviest());
    lemma_board(m, w);
    let keys = entries.map_values(|e: EntryView| e.weighed(w)).map_values(
        |e: EntryView| e.key(w.basis()),
    );
    let e = entries[rank::ranking(keys)[i]];
    let cpu = e.cpu.widened().times(w.cpu_boost());
    let mem = Double::percent(e.mem, w.total_mem).times(w.mem_boost());
    let disk = e.disk_bps.over(Double::of(diagnose::MIB as nat)).times(w.disk_boost());
    let most = cpu.larger(mem).larger(disk);
    assert(m.board(w)[i] == e.weighed(w));
    crate::exact::lemma_at_least_ten(most.smaller(Double::of(100)));
}

/// The board is sorted by a subsystem where that scores at least 40 and at least 20 more
/// than each of the others, and by impact where none does.
pub proof fn a_clear_bottleneck_sorts_the_board(w: Weights)
    ensures
        ({
            let clear = |a: u8, b: u8, c: u8| a >= 40 && a >= b + 20 && a >= c + 20;
            w.basis() == if clear(w.cpu_score, w.mem_score, w.disk_score) {
                "CPU"@
            } else if clear(w.mem_score, w.cpu_score, w.disk_score) {
                "MEMORY"@
            } else if clear(w.disk_score, w.cpu_score, w.mem_score) {
                "DISK"@
            } else {
                "IMPACT"@
            }
        }),
{
}

/// An entry of the board has the impact of its own figures, the heaviest axis counting:
/// each figure is weighed by the score of its own subsystem. Programs that are ranked by
/// equal figures stand in the order in which they were met.
pub proof fn board_weighs_each_figure_by_its_score(m: MetricsView, w: Weights, i: int)
    requires
        0 <= i < m.board(w).len(),
    ensures
        ({
            let e = m.board(w)[i];
            e.impact == crate::exact::capped(
                crate::exact::most_of(
                    crate::exact::cpu_weight(e.cpu, w.cpu_score).whole(),
                    crate::exact::mem_weight(e.mem, w.total_mem, w.mem_score).whole(),
                    crate::exact::disk_weight(e.disk_bps, w.disk_score).whole(),
                ),
            )
        }),
        forall|j: int|
            i < j < m.board(w).len() && (#[trigger] m.board(w)[j]).key(w.basis()) == m.board(
                w,
            )[i].key(w.basis()) ==> EntryView::find(
                EntryView::merged(m.heaviest()),
                m.board(w)[i].name,
                0,
            ) < EntryView::find(EntryView::merged(m.heaviest()), m.board(w)[j].name, 0),
{
    let entries = EntryView::merged(m.heaviest());
    lemma_board(m, w);
    lemma_merged(m.heaviest());
    let keys = entries.map_values(|e: EntryView| e.weighed(w)).map_values(
        |e: EntryView| e.key(w.basis()),
    );
    let order = rank::ranking(keys);
    let at = order[i];
    assert(m.board(w)[i] == entries[at].weighed(w));
    crate::exact::impact_is_that_of_the_heaviest_axis(entries[at], w);
    lemma_find(entries, entries[at].name, 0);
    assert(EntryView::find(entries, entries[at].name, 0) == at) by {
        let k = EntryView::find(entries, entries[at].name, 0);
        if k < at {
            assert(entries[k].name != entries[at].name);
        }
    }
    assert forall|j: int|
        i < j < m.board(w).len() && (#[trigger] m.board(w)[j]).key(w.basis()) == m.board(w)[i].key(
            w.basis(),
        ) implies EntryView::find(entries, m.board(w)[i].name, 0) < EntryView::find(
        entries,
        m.board(w)[j].name,
        0,
    ) by {
        let b = order[j];
        assert(m.board(w)[j] == entries[b].weighed(w));
        assert(rank::before(keys, at, b));
        assert(keys[at] == m.board(w)[i].key(w.basis()));
        assert(keys[b] == m.board(w)[j].key(w.basis()));
        lemma_find(entries, entries[b].name, 0);
        let k = EntryView::find(entries, entries[b].name, 0);
        if k < b {
            assert(entries[k].name != entries[b].name);
        }
    }
}

/// The heaviest programs by CPU, by memory and by disk use are all on the board.
pub proof fn boards_list_all_three_kinds(m: MetricsView, w: Weights)
    ensures
        forall|k: int|
            0 <= k < m.top_cpu.len() ==> EntryView::lists(
                m.board(w),
                (#[trigger] m.top_cpu[k]).name,
            ),
        forall|k: int|
            0 <= k < m.top_mem.len() ==> EntryView::lists(
                m.board(w),
                (#[trigger] m.top_mem[k]).name,
            ),
        forall|k: int|
            0 <= k < m.top_disk.len() ==> EntryView::lists(
                m.board(w),
                (#[trigger] m.top_disk[k]).name,
            ),
{
    board_names_each_program_once(m, w);
    assert forall|k: int| 0 <= k < m.top_cpu.len() implies EntryView::lists(
        m.board(w),
        (#[trigger] m.top_cpu[k]).name,
    ) by {
        assert(m.heaviest()[k] == m.top_cpu[k]);
    }
    assert forall|k: int| 0 <= k < m.top_mem.len() implies EntryView::lists(
        m.board(w),
        (#[trigger] m.top_mem[k]).name,
    ) by {
        assert(m.heaviest()[m.top_cpu.len() + k] == m.top_mem[k]);
    }
    assert forall|k: int| 0 <= k < m.top_disk.len() implies EntryView::lists(
        m.board(w),
        (#[trigger] m.top_disk[k]).name,
    ) by {
        assert(m.heaviest()[m.top_cpu.len() + m.top_mem.len() + k] == m.top_disk[k]);
    }
}

} // verus!
