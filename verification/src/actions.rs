//! What can be done to a program: which action a key stands for, whether it can
//! reach the processes, what to do to them, and what to tell the user of it.
use crate::decimal;
use crate::style::Color;
use crate::text;
use vstd::prelude::*;

verus! {

/// One operation that can be applied to all PIDs of a selected program.
#[derive(Debug, Clone, Copy, PartialEq, Eq, Structural)]
pub enum Action {
    /// SIGTERM: graceful kill
    Term,
    /// SIGKILL: force kill (irreversible)
    Kill,
    /// SIGSTOP: suspend
    Stop,
    /// SIGCONT: resume
    Cont,
    /// SIGINT: like Ctrl-C
    Int,
    /// SIGHUP: hangup; many daemons reload config
    Hup,
    /// SIGUSR1: app-defined
    Usr1,
    /// SIGUSR2: app-defined
    Usr2,
    /// renice +10 (lower priority)
    Nicer,
    /// dump open files for the group to a temp file
    Lsof,
    /// open Activity Monitor (macOS)
    OpenActivity,
    /// free inactive memory (macOS purge)
    Purge,
}

/// The system that the program runs on, as far as the actions depend on it.
#[derive(Debug, Clone, Copy, PartialEq, Eq, Structural)]
pub enum Platform {
    MacOs,
    Other,
}

/// The signals that can be sent.
#[derive(Debug, Clone, Copy, PartialEq, Eq, Structural)]
pub enum Signal {
    Term,
    Kill,
    Stop,
    Cont,
    Int,
    Hup,
    Usr1,
    Usr2,
}

impl Action {
    /// The key of each action.
    pub open spec fn key_of(self) -> char {
        match self {
            Action::Stop => 's',
            Action::Cont => 'r',
            Action::Term => 'k',
            Action::Kill => 'K',
            Action::Int => 'i',
            Action::Hup => 'H',
            Action::Usr1 => '1',
            Action::Usr2 => '2',
            Action::Nicer => 'n',
            Action::Lsof => 'l',
            Action::OpenActivity => 'm',
            Action::Purge => 'p',
        }
    }

    pub fn key(&self) -> (r: char)
        ensures
            r == self.key_of(),
    {
        match self {
            Action::Stop => 's',
            Action::Cont => 'r',
            Action::Term => 'k',
            Action::Kill => 'K',
            Action::Int => 'i',
            Action::Hup => 'H',
            Action::Usr1 => '1',
            Action::Usr2 => '2',
            Action::Nicer => 'n',
            Action::Lsof => 'l',
            Action::OpenActivity => 'm',
            Action::Purge => 'p',
        }
    }

    /// The action needs PIDs, and the right to act on them.
    pub open spec fn on_pids(self) -> bool {
        self != Action::Purge && self != Action::OpenActivity
    }

    /// True if this action targets PIDs and therefore only works on
    /// processes the user owns (unless running as root).
    pub fn targets_pids(&self) -> (r: bool)
        ensures
            r == self.on_pids(),
    {
        !matches!(self, Action::Purge | Action::OpenActivity)
    }

    /// The color tier of each action.
    pub open spec fn tier(self) -> Color {
        match self {
            Action::Kill | Action::Term | Action::Int | Action::Hup => Color::Red,
            Action::Stop | Action::Cont => Color::Cyan,
            Action::Usr1 | Action::Usr2 => Color::LightCyan,
            Action::Nicer => Color::Yellow,
            Action::Lsof | Action::OpenActivity => Color::Magenta,
            Action::Purge => Color::LightMagenta,
        }
    }

    /// Color tier for the persistent action bar
    pub fn color(&self) -> (r: Color)
        ensures
            r == self.tier(),
    {
        match self {
            Action::Kill | Action::Term | Action::Int | Action::Hup => Color::Red,
            Action::Stop | Action::Cont => Color::Cyan,
            Action::Usr1 | Action::Usr2 => Color::LightCyan,
            Action::Nicer => Color::Yellow,
            Action::Lsof | Action::OpenActivity => Color::Magenta,
            Action::Purge => Color::LightMagenta,
        }
    }

    /// The actions in display order.
    pub open spec fn listed(platform: Platform) -> Seq<Action> {
        let common = seq![
            Action::Term,
            Action::Kill,
            Action::Stop,
            Action::Cont,
            Action::Nicer,
            Action::Int,
            Action::Hup,
            Action::Lsof,
        ];
        let macos = if platform == Platform::MacOs {
            seq![Action::OpenActivity, Action::Purge]
        } else {
            Seq::empty()
        };
        common + macos + seq![Action::Usr1, Action::Usr2]
    }

    /// Return the actions menu in display order, ranked by how often
    /// someone reaching for this tool actually needs each action.
    pub fn menu(platform: Platform) -> (r: Vec<Action>)
        ensures
            r@ == Action::listed(platform),
    {
        let mut v: Vec<Action> = Vec::new();
        // most common reaction to "this is hogging"
        v.push(Action::Term);
        // escalation when k doesn't stick
        v.push(Action::Kill);
        // the reversible "give me my CPU back"
        v.push(Action::Stop);
        v.push(Action::Cont);
        // non-destructive "take a back seat"
        v.push(Action::Nicer);
        // niche: foreground CLI tools
        v.push(Action::Int);
        // niche: daemon config reload
        v.push(Action::Hup);
        // investigation, not emergency
        v.push(Action::Lsof);
        if platform == Platform::MacOs {
            v.push(Action::OpenActivity);
            v.push(Action::Purge);
        }
        v.push(Action::Usr1);
        v.push(Action::Usr2);
        proof {
            assert(v@ =~= Action::listed(platform));
        }
        v
    }

    /// The first action of the menu with this key.
    pub open spec fn for_key(menu: Seq<Action>, key: char) -> Option<Action>
        decreases menu.len(),
    {
        if menu.len() == 0 {
            None
        } else if menu[0].key_of() == key {
            Some(menu[0])
        } else {
            Action::for_key(menu.skip(1), key)
        }
    }

    /// The action that this key stands for.
    pub fn from_key(platform: Platform, key: char) -> (r: Option<Action>)
        ensures
            r == Action::for_key(Action::listed(platform), key),
    {
        let menu = Action::menu(platform);
        let mut i: usize = 0;
        proof {
            assert(menu@.skip(0) =~= menu@);
        }
        while i < menu.len()
            invariant
                i <= menu@.len(),
                menu@ == Action::listed(platform),
                Action::for_key(menu@.skip(i as int), key) == Action::for_key(menu@, key),
            decreases menu@.len() - i,
        {
            if menu[i].key() == key {
                return Some(menu[i]);
            }
            proof {
                assert(menu@.skip(i as int).skip(1) =~= menu@.skip(i + 1));
            }
            i = i + 1;
        }
        None
    }
}

// ---------------------------------------------------------------------------
// Availability
// ---------------------------------------------------------------------------

/// Live availability summary for rendering in the Actions bar.
#[derive(Debug, Clone, Copy)]
pub enum Availability {
    /// Action will reach every PID / resource.
    AllOk,
    /// Action will reach some PIDs.
    Partial { allowed: usize, total: usize },
    /// Action cannot proceed at all.
    Blocked { reason: &'static str },
    /// Action always works (no per-PID check needed).
    AlwaysOk,
}

/// What an `Availability` says.
pub enum AvailabilityView {
    AllOk,
    Partial { allowed: nat, total: nat },
    Blocked { reason: Seq<char> },
    AlwaysOk,
}

impl DeepView for Availability {
    type V = AvailabilityView;

    open spec fn deep_view(&self) -> AvailabilityView {
        match *self {
            Availability::AllOk => AvailabilityView::AllOk,
            Availability::Partial { allowed, total } => AvailabilityView::Partial {
                allowed: allowed as nat,
                total: total as nat,
            },
            Availability::Blocked { reason } => AvailabilityView::Blocked { reason: reason@ },
            Availability::AlwaysOk => AvailabilityView::AlwaysOk,
        }
    }
}

/// How many of the answers are yes.
pub open spec fn count(answers: Seq<bool>) -> nat
    decreases answers.len(),
{
    if answers.len() == 0 {
        0
    } else {
        count(answers.drop_last()) + if answers.last() {
            1nat
        } else {
            0nat
        }
    }
}

pub proof fn lemma_count(answers: Seq<bool>)
    ensures
        count(answers) <= answers.len(),
    decreases answers.len(),
{
    if answers.len() > 0 {
        lemma_count(answers.drop_last());
    }
}

fn count_yes(answers: &Vec<bool>) -> (r: usize)
    ensures
        r == count(answers@),
        r <= answers@.len(),
{
    let mut n: usize = 0;
    let mut i: usize = 0;
    while i < answers.len()
        invariant
            i <= answers@.len(),
            n <= i,
            n == count(answers@.take(i as int)),
        decreases answers@.len() - i,
    {
        proof {
            assert(answers@.take(i + 1).drop_last() =~= answers@.take(i as int));
        }
        if answers[i] {
            n = n + 1;
        }
        i = i + 1;
    }
    assert(answers@.take(answers@.len() as int) =~= answers@);
    n
}

impl AvailabilityView {
    /// What a group of processes is to an action, when the kernel lets us signal
    /// the processes whose answer in `reachable` is yes.
    pub open spec fn of(action: Action, pids: nat, is_root: bool, reachable: Seq<bool>) -> AvailabilityView {
        if action == Action::Purge {
            if is_root {
                AvailabilityView::AllOk
            } else {
                AvailabilityView::Blocked { reason: "needs sudo"@ }
            }
        } else if action == Action::OpenActivity {
            AvailabilityView::AlwaysOk
        } else if pids == 0 {
            AvailabilityView::Blocked { reason: "no PIDs"@ }
        } else if is_root {
            AvailabilityView::AllOk
        } else if count(reachable) == pids {
            AvailabilityView::AllOk
        } else if count(reachable) == 0 {
            AvailabilityView::Blocked { reason: "no permission"@ }
        } else {
            AvailabilityView::Partial { allowed: count(reachable), total: pids }
        }
    }

    /// The kernel has to be asked about each process.
    pub open spec fn needs_probe(action: Action, is_root: bool) -> bool {
        action.on_pids() && !is_root
    }
}

/// Whether availability depends on which of the processes can be signalled.
pub fn needs_probe(action: Action, is_root: bool) -> (r: bool)
    ensures
        r == AvailabilityView::needs_probe(action, is_root),
{
    action.targets_pids() && !is_root
}

/// Availability of `action` against the given PID group. Where it depends on
/// it, `reachable` says of each PID whether the kernel lets us signal it.
pub fn availability(action: Action, pids: &[u32], is_root: bool, reachable: &Vec<bool>) -> (r:
    Availability)
    requires
        AvailabilityView::needs_probe(action, is_root) ==> reachable@.len() == pids@.len(),
    ensures
        r.deep_view() == AvailabilityView::of(action, pids@.len(), is_root, reachable@),
{
    match action {
        Action::Purge => {
            if is_root {
                Availability::AllOk
            } else {
                Availability::Blocked { reason: "needs sudo" }
            }
        },
        Action::OpenActivity => Availability::AlwaysOk,
        _ => {
            if pids.len() == 0 {
                return Availability::Blocked { reason: "no PIDs" };
            }
            if is_root {
                return Availability::AllOk;
            }
            let allowed = count_yes(reachable);
            if allowed == pids.len() {
                Availability::AllOk
            } else if allowed == 0 {
                Availability::Blocked { reason: "no permission" }
            } else {
                Availability::Partial { allowed, total: pids.len() }
            }
        },
    }
}

// ---------------------------------------------------------------------------
// Carrying an action out
// ---------------------------------------------------------------------------

#[derive(Debug)]
pub struct ActionResult {
    pub ok: bool,
    pub message: String,
}

/// What an `ActionResult` says.
pub struct ResultView {
    pub ok: bool,
    pub message: Seq<char>,
}

impl DeepView for ActionResult {
    type V = ResultView;

    open spec fn deep_view(&self) -> ResultView {
        ResultView { ok: self.ok, message: self.message@ }
    }
}

/// Human-readable past-tense verb + clarification for each signal, so the
/// status banner tells the user what *happened*, not just "SIGSTOP was sent".
#[derive(Debug, Clone, Copy)]
pub struct Verb {
    pub past: &'static str,
    pub hint: Option<&'static str>,
}

impl Verb {
    pub open spec fn hint_text(self) -> Seq<char> {
        match self.hint {
            Some(h) => " — "@ + h@,
            None => Seq::empty(),
        }
    }
}

impl Action {
    /// What was done, in the past tense.
    pub open spec fn past(self) -> Seq<char> {
        match self {
            Action::Term => "Asked to quit"@,
            Action::Kill => "Killed"@,
            Action::Stop => "Paused"@,
            Action::Cont => "Resumed"@,
            Action::Int => "Interrupted"@,
            Action::Hup => "Sent hangup to"@,
            Action::Usr1 => "Sent SIGUSR1 to"@,
            Action::Usr2 => "Sent SIGUSR2 to"@,
            _ => "(non-signal action)"@,
        }
    }

    /// What that means for the processes.
    pub open spec fn hint(self) -> Option<Seq<char>> {
        match self {
            Action::Term => Some("graceful exit — processes may take a moment to clean up"@),
            Action::Kill => Some("SIGKILL — processes are gone, no cleanup"@),
            Action::Stop => Some("still alive, frozen in memory — press r to resume"@),
            Action::Cont => Some("continuing from where they were paused"@),
            Action::Int => Some("SIGINT — like pressing Ctrl-C in the target's terminal"@),
            Action::Hup => Some("SIGHUP — most daemons reload config on this"@),
            Action::Usr1 => Some("meaning depends on the app"@),
            Action::Usr2 => Some("meaning depends on the app"@),
            _ => None,
        }
    }

    /// The signal that the action sends.
    pub open spec fn signal(self) -> Option<Signal> {
        match self {
            Action::Term => Some(Signal::Term),
            Action::Kill => Some(Signal::Kill),
            Action::Stop => Some(Signal::Stop),
            Action::Cont => Some(Signal::Cont),
            Action::Int => Some(Signal::Int),
            Action::Hup => Some(Signal::Hup),
            Action::Usr1 => Some(Signal::Usr1),
            Action::Usr2 => Some(Signal::Usr2),
            _ => None,
        }
    }
}

pub fn verb(action: Action) -> (r: Verb)
    ensures
        r.past@ == action.past(),
        r.hint is Some == action.hint() is Some,
        r.hint matches Some(h) ==> action.hint() == Some(h@),
{
    match action {
        Action::Term => Verb {
            past: "Asked to quit",
            hint: Some("graceful exit — processes may take a moment to clean up"),
        },
        Action::Kill => Verb {
            past: "Killed",
            hint: Some("SIGKILL — processes are gone, no cleanup"),
        },
        Action::Stop => Verb {
            past: "Paused",
            hint: Some("still alive, frozen in memory — press r to resume"),
        },
        Action::Cont => Verb {
            past: "Resumed",
            hint: Some("continuing from where they were paused"),
        },
        Action::Int => Verb {
            past: "Interrupted",
            hint: Some("SIGINT — like pressing Ctrl-C in the target's terminal"),
        },
        Action::Hup => Verb {
            past: "Sent hangup to",
            hint: Some("SIGHUP — most daemons reload config on this"),
        },
        Action::Usr1 => Verb { past: "Sent SIGUSR1 to", hint: Some("meaning depends on the app") },
        Action::Usr2 => Verb { past: "Sent SIGUSR2 to", hint: Some("meaning depends on the app") },
        Action::Nicer | Action::Lsof | Action::OpenActivity | Action::Purge => Verb {
            past: "(non-signal action)",
            hint: None,
        },
    }
}

impl ResultView {
    /// What is told of a signal that reached the processes whose answer is yes.
    pub open spec fn signalled(delivered: Seq<bool>, verb: Verb) -> ResultView {
        let sent = count(delivered);
        let failed = (delivered.len() - sent) as nat;
        if delivered.len() == 0 {
            ResultView { ok: false, message: "No PIDs to signal"@ }
        } else if failed == 0 {
            ResultView {
                ok: true,
                message: "✓ "@ + verb.past@ + " "@ + decimal::dec(sent) + " PID(s)"@
                    + verb.hint_text(),
            }
        } else if sent == 0 {
            ResultView {
                ok: false,
                message: "✗ Could not signal any of the "@ + decimal::dec(failed)
                    + " PID(s) — permission denied or already exited"@,
            }
        } else {
            ResultView {
                ok: true,
                message: "⚠ "@ + verb.past@ + " "@ + decimal::dec(sent) + " PID(s); "@
                    + decimal::dec(failed) + " could not be signalled (permission?)"@
                    + verb.hint_text(),
            }
        }
    }

    /// What is told of a change of priority that succeeded where the answer is yes.
    pub open spec fn reniced(changed: Seq<bool>, adjustment: int) -> ResultView {
        let ok = count(changed);
        let failed = (changed.len() - ok) as nat;
        if failed == 0 {
            ResultView {
                ok: true,
                message: "✓ Renice +"@ + decimal::signed(adjustment) + " on "@ + decimal::dec(ok)
                    + " PID(s)"@,
            }
        } else if ok == 0 {
            ResultView {
                ok: false,
                message: "✗ Renice failed on all "@ + decimal::dec(failed)
                    + " PID(s) (negative renice needs root)"@,
            }
        } else {
            ResultView {
                ok: true,
                message: "⚠ Reniced "@ + decimal::dec(ok) + " PID(s); "@ + decimal::dec(failed)
                    + " failed"@,
            }
        }
    }
}

fn failure(message: &str) -> (r: ActionResult)
    ensures
        r.deep_view() == (ResultView { ok: false, message: message@ }),
{
    ActionResult { ok: false, message: message.to_owned() }
}

/// What to tell of a signal: `delivered` says of each PID whether it got it.
pub fn signal(delivered: &Vec<bool>, verb: Verb) -> (r: ActionResult)
    ensures
        r.deep_view() == ResultView::signalled(delivered@, verb),
{
    if delivered.len() == 0 {
        return failure("No PIDs to signal");
    }
    let sent = count_yes(delivered);
    let failed: usize = delivered.len() - sent;
    let hint: String = match verb.hint {
        Some(h) => {
            let mut s = " — ".to_owned();
            s.append(h);
            s
        },
        None => String::new(),
    };
    if failed == 0 {
        let mut s = "✓ ".to_owned();
        s.append(verb.past);
        s.append(" ");
        s.append(decimal::decimal(sent as u64).as_str());
        s.append(" PID(s)");
        s.append(hint.as_str());
        ActionResult { ok: true, message: s }
    } else if sent == 0 {
        let mut s = "✗ Could not signal any of the ".to_owned();
        s.append(decimal::decimal(failed as u64).as_str());
        s.append(" PID(s) — permission denied or already exited");
        ActionResult { ok: false, message: s }
    } else {
        let mut s = "⚠ ".to_owned();
        s.append(verb.past);
        s.append(" ");
        s.append(decimal::decimal(sent as u64).as_str());
        s.append(" PID(s); ");
        s.append(decimal::decimal(failed as u64).as_str());
        s.append(" could not be signalled (permission?)");
        s.append(hint.as_str());
        ActionResult { ok: true, message: s }
    }
}

/// The priority that a process gets, from -20 to 19.
pub open spec fn priority(current: int, adjustment: int) -> int {
    if current + adjustment < -20 {
        -20
    } else if current + adjustment > 19 {
        19
    } else {
        current + adjustment
    }
}

/// The priority that a process of priority `current` gets.
pub fn renice_target(current: i32, adjustment: i32) -> (r: i32)
    ensures
        r == priority(current as int, adjustment as int),
{
    let target: i64 = current as i64 + adjustment as i64;
    if target < -20 {
        -20
    } else if target > 19 {
        19
    } else {
        target as i32
    }
}

/// What to tell of a change of priority: `changed` says of each PID whether it
/// succeeded.
pub fn renice(changed: &Vec<bool>, adjustment: i32) -> (r: ActionResult)
    ensures
        r.deep_view() == ResultView::reniced(changed@, adjustment as int),
{
    let ok = count_yes(changed);
    let failed: usize = changed.len() - ok;
    if failed == 0 {
        let mut s = "✓ Renice +".to_owned();
        s.append(decimal::signed_decimal(adjustment).as_str());
        s.append(" on ");
        s.append(decimal::decimal(ok as u64).as_str());
        s.append(" PID(s)");
        ActionResult { ok: true, message: s }
    } else if ok == 0 {
        let mut s = "✗ Renice failed on all ".to_owned();
        s.append(decimal::decimal(failed as u64).as_str());
        s.append(" PID(s) (negative renice needs root)");
        ActionResult { ok: false, message: s }
    } else {
        let mut s = "⚠ Reniced ".to_owned();
        s.append(decimal::decimal(ok as u64).as_str());
        s.append(" PID(s); ");
        s.append(decimal::decimal(failed as u64).as_str());
        s.append(" failed");
        ActionResult { ok: true, message: s }
    }
}

// ---------------------------------------------------------------------------
// Open files
// ---------------------------------------------------------------------------

/// A character that can stand in the name of a file.
pub open spec fn safe_char(c: char) -> bool {
    ('a' <= c && c <= 'z') || ('A' <= c && c <= 'Z') || ('0' <= c && c <= '9') || c == '_'
}

/// The first 32 characters of `name` that can stand in the name of a file.
pub open spec fn safe_part(name: Seq<char>) -> Seq<char>
    decreases name.len(),
{
    if name.len() == 0 {
        Seq::empty()
    } else {
        let s = safe_part(name.drop_last());
        if s.len() < 32 && safe_char(name.last()) {
            s.push(name.last())
        } else {
            s
        }
    }
}

/// Where the open files of a program are written.
pub open spec fn lsof_file(name: Seq<char>) -> Seq<char> {
    "/tmp/stop-lsof-"@ + (if safe_part(name).len() == 0 {
        "process"@
    } else {
        safe_part(name)
    }) + ".txt"@
}

/// The PIDs as `lsof -p` takes them.
pub open spec fn pid_list(pids: Seq<u32>) -> Seq<char> {
    text::join(pids.map_values(|p: u32| decimal::dec(p as nat)), ","@)
}

/// Where the open files of a program are written.
pub fn lsof_path(name: &str) -> (r: String)
    ensures
        r@ == lsof_file(name@),
{
    let v = text::chars_of(name);
    let mut kept: Vec<char> = Vec::new();
    let mut i: usize = 0;
    proof {
        assert(kept@ =~= safe_part(v@.take(0)));
    }
    while i < v.len()
        invariant
            i <= v@.len(),
            kept@ == safe_part(v@.take(i as int)),
        decreases v@.len() - i,
    {
        let c: char = v[i];
        proof {
            assert(v@.take(i + 1).drop_last() =~= v@.take(i as int));
        }
        let keep = ('a' <= c && c <= 'z') || ('A' <= c && c <= 'Z') || ('0' <= c && c <= '9') || c
            == '_';
        if kept.len() < 32 && keep {
            kept.push(c);
        }
        i = i + 1;
    }
    assert(v@.take(v@.len() as int) =~= v@);
    let mut s = "/tmp/stop-lsof-".to_owned();
    if kept.len() == 0 {
        s.append("process");
    } else {
        s.append(text::from_chars(&kept).as_str());
    }
    s.append(".txt");
    s
}

/// The PIDs as `lsof -p` takes them: separated by commas.
pub fn lsof_pid_arg(pids: &[u32]) -> (r: String)
    ensures
        r@ == pid_list(pids@),
{
    let mut list: Vec<String> = Vec::new();
    let mut i: usize = 0;
    while i < pids.len()
        invariant
            i <= pids@.len(),
            list@.len() == i,
            forall|k: int| 0 <= k < i ==> (#[trigger] list@[k])@ == decimal::dec(pids@[k] as nat),
        decreases pids@.len() - i,
    {
        list.push(decimal::decimal(pids[i] as u64));
        i = i + 1;
    }
    proof {
        assert(text::texts(list@) =~= pids@.map_values(|p: u32| decimal::dec(p as nat)));
    }
    text::joined(&list, ",")
}

/// How a run of `lsof` went.
#[derive(Debug)]
pub enum LsofRun {
    /// It ran to its end.
    Ran { success: bool, has_output: bool, errors: String },
    /// It could not be started.
    NotStarted { error: String },
}

impl LsofRun {
    /// There is output to keep.
    pub open spec fn usable(self) -> bool {
        match self {
            LsofRun::Ran { success, has_output, .. } => success || has_output,
            LsofRun::NotStarted { .. } => false,
        }
    }

    /// What is told where there is none.
    pub open spec fn complaint(self) -> Seq<char> {
        match self {
            LsofRun::Ran { errors, .. } => "✗ lsof failed: "@ + match text::first_line(errors@) {
                Some(line) => line,
                None => "(no output)"@,
            },
            LsofRun::NotStarted { error } => "✗ lsof not available: "@ + error@,
        }
    }
}

/// What to tell of a run of `lsof` that gave nothing to write to the file.
pub fn lsof(run: &LsofRun) -> (r: Option<ActionResult>)
    ensures
        r is None == run.usable(),
        r matches Some(a) ==> a.deep_view() == (ResultView { ok: false, message: run.complaint() }),
{
    match run {
        LsofRun::Ran { success, has_output, errors } => {
            if *success || *has_output {
                None
            } else {
                let mut s = "✗ lsof failed: ".to_owned();
                match text::line_of(errors.as_str()) {
                    Some(line) => s.append(line.as_str()),
                    None => s.append("(no output)"),
                }
                Some(ActionResult { ok: false, message: s })
            }
        },
        LsofRun::NotStarted { error } => {
            let mut s = "✗ lsof not available: ".to_owned();
            s.append(error.as_str());
            Some(ActionResult { ok: false, message: s })
        },
    }
}

/// What to tell once the file was to be written; `error` says why it was not.
pub fn lsof_written(path: &str, error: &Option<String>) -> (r: ActionResult)
    ensures
        r.deep_view() == match *error {
            Some(e) => ResultView { ok: false, message: "✗ wrote 0 bytes: "@ + e@ },
            None => ResultView { ok: true, message: "✓ open files written to "@ + path@ },
        },
{
    match error {
        Some(e) => {
            let mut s = "✗ wrote 0 bytes: ".to_owned();
            s.append(e.as_str());
            ActionResult { ok: false, message: s }
        },
        None => {
            let mut s = "✓ open files written to ".to_owned();
            s.append(path);
            ActionResult { ok: true, message: s }
        },
    }
}

// ---------------------------------------------------------------------------
// macOS commands
// ---------------------------------------------------------------------------

/// How a command went.
#[derive(Debug)]
pub enum Ran {
    Success,
    Failure,
    NotStarted { error: String },
}

/// What to tell of opening Activity Monitor; there is no run where the system
/// does not have it.
pub fn open_activity_monitor(run: &Option<Ran>) -> (r: ActionResult)
    ensures
        r.deep_view() == match *run {
            None => ResultView { ok: false, message: "Activity Monitor is macOS only"@ },
            Some(Ran::Success) => ResultView { ok: true, message: "✓ Activity Monitor opened"@ },
            Some(Ran::Failure) => ResultView { ok: false, message: "✗ open returned non-zero"@ },
            Some(Ran::NotStarted { error }) => ResultView { ok: false, message: "✗ "@ + error@ },
        },
{
    match run {
        None => failure("Activity Monitor is macOS only"),
        Some(Ran::Success) => ActionResult {
            ok: true,
            message: "✓ Activity Monitor opened".to_owned(),
        },
        Some(Ran::Failure) => failure("✗ open returned non-zero"),
        Some(Ran::NotStarted { error }) => {
            let mut s = "✗ ".to_owned();
            s.append(error.as_str());
            ActionResult { ok: false, message: s }
        },
    }
}

/// What to tell of freeing cached memory; there is no run where the system does
/// not have it.
pub fn purge(run: &Option<Ran>) -> (r: ActionResult)
    ensures
        r.deep_view() == match *run {
            None => ResultView { ok: false, message: "purge is macOS only"@ },
            Some(Ran::Success) => ResultView { ok: true, message: "✓ purged inactive memory"@ },
            Some(Ran::Failure) => ResultView {
                ok: false,
                message: "✗ purge returned non-zero (try with sudo)"@,
            },
            Some(Ran::NotStarted { error }) => ResultView {
                ok: false,
                message: "✗ purge unavailable: "@ + error@,
            },
        },
{
    match run {
        None => failure("purge is macOS only"),
        Some(Ran::Success) => ActionResult {
            ok: true,
            message: "✓ purged inactive memory".to_owned(),
        },
        Some(Ran::Failure) => failure("✗ purge returned non-zero (try with sudo)"),
        Some(Ran::NotStarted { error }) => {
            let mut s = "✗ purge unavailable: ".to_owned();
            s.append(error.as_str());
            ActionResult { ok: false, message: s }
        },
    }
}

// ---------------------------------------------------------------------------
// What an action asks for
// ---------------------------------------------------------------------------

/// What has to be done to carry out an action.
#[derive(Debug)]
pub enum Task {
    /// Send the signal to each of these PIDs.
    Signal { signal: Signal, pids: Vec<u32> },
    /// Add this to the priority of each of these PIDs.
    Renice { adjustment: i32, pids: Vec<u32> },
    /// Run `lsof -p` with this list, and write what it prints to this file.
    Lsof { pid_arg: String, path: String },
    /// Open Activity Monitor.
    OpenActivity,
    /// Run `purge`.
    Purge,
    /// Nothing: the result is known.
    Done { result: ActionResult },
}

/// What a `Task` says.
pub enum TaskView {
    Signal { signal: Signal, pids: Seq<u32> },
    Renice { adjustment: int, pids: Seq<u32> },
    Lsof { pid_arg: Seq<char>, path: Seq<char> },
    OpenActivity,
    Purge,
    Done { result: ResultView },
}

impl DeepView for Task {
    type V = TaskView;

    open spec fn deep_view(&self) -> TaskView {
        match *self {
            Task::Signal { signal, pids } => TaskView::Signal { signal, pids: pids@ },
            Task::Renice { adjustment, pids } => TaskView::Renice {
                adjustment: adjustment as int,
                pids: pids@,
            },
            Task::Lsof { pid_arg, path } => TaskView::Lsof { pid_arg: pid_arg@, path: path@ },
            Task::OpenActivity => TaskView::OpenActivity,
            Task::Purge => TaskView::Purge,
            Task::Done { result } => TaskView::Done { result: result.deep_view() },
        }
    }
}

impl TaskView {
    pub open spec fn refused(message: Seq<char>) -> TaskView {
        TaskView::Done { result: ResultView { ok: false, message } }
    }

    /// What `action` asks for on these PIDs of the program of this name.
    pub open spec fn of(action: Action, name: Seq<char>, pids: Seq<u32>, platform: Platform) -> TaskView {
        match action.signal() {
            Some(signal) => if pids.len() == 0 {
                TaskView::refused("No PIDs to signal"@)
            } else {
                TaskView::Signal { signal, pids }
            },
            None => match action {
                Action::Nicer => TaskView::Renice { adjustment: 10, pids },
                Action::Lsof => if pids.len() == 0 {
                    TaskView::refused("No PIDs to inspect"@)
                } else {
                    TaskView::Lsof { pid_arg: pid_list(pids), path: lsof_file(name) }
                },
                Action::OpenActivity => if platform == Platform::MacOs {
                    TaskView::OpenActivity
                } else {
                    TaskView::refused("Activity Monitor is macOS only"@)
                },
                _ => if platform == Platform::MacOs {
                    TaskView::Purge
                } else {
                    TaskView::refused("purge is macOS only"@)
                },
            },
        }
    }
}

fn listed(pids: &[u32]) -> (r: Vec<u32>)
    ensures
        r@ == pids@,
{
    let mut r: Vec<u32> = Vec::new();
    let mut i: usize = 0;
    while i < pids.len()
        invariant
            i <= pids@.len(),
            r@ == pids@.take(i as int),
        decreases pids@.len() - i,
    {
        r.push(pids[i]);
        proof {
            assert(pids@.take(i + 1) =~= pids@.take(i as int).push(pids@[i as int]));
        }
        i = i + 1;
    }
    proof {
        assert(pids@.take(pids@.len() as int) =~= pids@);
    }
    r
}

fn send(signal: Signal, pids: &[u32]) -> (r: Task)
    ensures
        r.deep_view() == if pids@.len() == 0 {
            TaskView::refused("No PIDs to signal"@)
        } else {
            TaskView::Signal { signal, pids: pids@ }
        },
{
    if pids.len() == 0 {
        Task::Done { result: failure("No PIDs to signal") }
    } else {
        Task::Signal { signal, pids: listed(pids) }
    }
}

/// What `action` asks for on these PIDs of the program of this name.
pub fn apply(action: Action, name: &str, pids: &[u32], platform: Platform) -> (r: Task)
    ensures
        r.deep_view() == TaskView::of(action, name@, pids@, platform),
{
    match action {
        Action::Term => send(Signal::Term, pids),
        Action::Kill => send(Signal::Kill, pids),
        Action::Stop => send(Signal::Stop, pids),
        Action::Cont => send(Signal::Cont, pids),
        Action::Int => send(Signal::Int, pids),
        Action::Hup => send(Signal::Hup, pids),
        Action::Usr1 => send(Signal::Usr1, pids),
        Action::Usr2 => send(Signal::Usr2, pids),
        Action::Nicer => Task::Renice { adjustment: 10, pids: listed(pids) },
        Action::Lsof => {
            if pids.len() == 0 {
                Task::Done { result: failure("No PIDs to inspect") }
            } else {
                Task::Lsof { pid_arg: lsof_pid_arg(pids), path: lsof_path(name) }
            }
        },
        Action::OpenActivity => {
            if platform == Platform::MacOs {
                Task::OpenActivity
            } else {
                Task::Done { result: open_activity_monitor(&None) }
            }
        },
        Action::Purge => {
            if platform == Platform::MacOs {
                Task::Purge
            } else {
                Task::Done { result: purge(&None) }
            }
        },
    }
}

// ---------------------------------------------------------------------------
// What holds of every action
// ---------------------------------------------------------------------------

/// No two actions have the same key, and none has the key that quits.
pub proof fn keys_are_distinct(a: Action, b: Action)
    ensures
        a.key_of() == b.key_of() ==> a == b,
        a.key_of() != 'q',
        a.key_of() != 'c',
{
}

proof fn lemma_for_key(menu: Seq<Action>, key: char)
    ensures
        Action::for_key(menu, key) matches Some(a) ==> menu.contains(a) && a.key_of() == key,
        Action::for_key(menu, key) is None ==> forall|i: int|
            0 <= i < menu.len() ==> (#[trigger] menu[i]).key_of() != key,
    decreases menu.len(),
{
    if menu.len() > 0 && menu[0].key_of() != key {
        let rest = menu.skip(1);
        lemma_for_key(rest, key);
        match Action::for_key(rest, key) {
            Some(a) => {
                let i = choose|i: int| 0 <= i < rest.len() && rest[i] == a;
                assert(menu[i + 1] == a);
            },
            None => {
                assert forall|i: int| 0 <= i < menu.len() implies (#[trigger] menu[i]).key_of()
                    != key by {
                    if i > 0 {
                        assert(rest[i - 1] == menu[i]);
                    }
                }
            },
        }
    }
}

/// The key of an action on the menu stands for that action, and a key that is not of
/// an action on the menu stands for none.
pub proof fn keys_stand_for_actions(platform: Platform, action: Action, key: char)
    ensures
        Action::listed(platform).contains(action) ==> Action::for_key(
            Action::listed(platform),
            action.key_of(),
        ) == Some(action),
        Action::for_key(Action::listed(platform), key) matches Some(a) ==> Action::listed(
            platform,
        ).contains(a) && a.key_of() == key,
{
    let menu = Action::listed(platform);
    lemma_for_key(menu, key);
    lemma_for_key(menu, action.key_of());
    if menu.contains(action) {
        let i = choose|i: int| 0 <= i < menu.len() && menu[i] == action;
        assert(menu[i].key_of() == action.key_of());
        match Action::for_key(menu, action.key_of()) {
            Some(a) => keys_are_distinct(a, action),
            None => {},
        }
    }
}

/// Every action that sends a signal or acts on processes is on every menu.
pub proof fn menu_offers_every_action(platform: Platform, action: Action)
    ensures
        Action::listed(platform).contains(action) <==> action.on_pids() || platform
            == Platform::MacOs,
{
    let menu = Action::listed(platform);
    let at: int = match action {
        Action::Term => 0,
        Action::Kill => 1,
        Action::Stop => 2,
        Action::Cont => 3,
        Action::Nicer => 4,
        Action::Int => 5,
        Action::Hup => 6,
        Action::Lsof => 7,
        Action::OpenActivity => 8,
        Action::Purge => 9,
        Action::Usr1 => menu.len() - 2,
        Action::Usr2 => menu.len() - 1,
    };
    if action.on_pids() || platform == Platform::MacOs {
        assert(menu[at] == action);
    } else {
        assert forall|i: int| 0 <= i < menu.len() implies #[trigger] menu[i] != action by {}
    }
}

/// An action that reaches some processes reaches at least one and not all, and root
/// reaches every process that there is.
pub proof fn availability_is_honest(action: Action, pids: nat, is_root: bool, reachable: Seq<bool>)
    requires
        AvailabilityView::needs_probe(action, is_root) ==> reachable.len() == pids,
    ensures
        AvailabilityView::of(action, pids, is_root, reachable) matches AvailabilityView::Partial {
            allowed,
            total,
        } ==> 0 < allowed < total && allowed == count(reachable) && total == pids,
        is_root && pids > 0 ==> !(AvailabilityView::of(action, pids, is_root, reachable) is Blocked),
{
    lemma_count(reachable);
}

/// A signal is told as a success when it reached some process.
pub proof fn success_means_delivery(delivered: Seq<bool>, verb: Verb)
    ensures
        ResultView::signalled(delivered, verb).ok <==> count(delivered) > 0,
{
    lemma_count(delivered);
}

/// A process never gets a priority that the system does not have, and a positive
/// adjustment never makes it more urgent.
pub proof fn renice_stays_in_range(current: int, adjustment: int)
    ensures
        -20 <= priority(current, adjustment) <= 19,
        adjustment >= 0 && current <= 19 ==> priority(current, adjustment) >= current,
{
}

/// The part of a name that goes into the name of a file is short, and has only
/// characters that can stand there.
pub proof fn lsof_names_are_safe(name: Seq<char>)
    ensures
        safe_part(name).len() <= 32,
        forall|i: int| 0 <= i < safe_part(name).len() ==> safe_char(#[trigger] safe_part(name)[i]),
    decreases name.len(),
{
    if name.len() > 0 {
        lsof_names_are_safe(name.drop_last());
    }
}

/// A task that acts on processes acts on every process that it was asked for, and on
/// no other.
pub proof fn tasks_reach_the_whole_group(
    action: Action,
    name: Seq<char>,
    pids: Seq<u32>,
    platform: Platform,
)
    requires
        action.on_pids(),
        pids.len() > 0,
    ensures
        match TaskView::of(action, name, pids, platform) {
            TaskView::Signal { signal, pids: reached } => action.signal() == Some(signal) && reached
                == pids,
            TaskView::Renice { pids: reached, .. } => action == Action::Nicer && reached == pids,
            TaskView::Lsof { pid_arg, .. } => action == Action::Lsof && pid_arg == pid_list(pids),
            _ => false,
        },
{
}

/// Yeses are counted one by one.
pub proof fn counts_add_up(a: Seq<bool>, b: Seq<bool>)
    ensures
        count(a + b) == count(a) + count(b),
        count(seq![true]) == 1,
        count(seq![false]) == 0,
        (forall|k: int| 0 <= k < a.len() ==> #[trigger] a[k]) <==> count(a) == a.len(),
        (forall|k: int| 0 <= k < a.len() ==> !(#[trigger] a[k])) <==> count(a) == 0,
    decreases a.len() + b.len(),
{
    let yes = seq![true];
    let no = seq![false];
    assert(yes.drop_last() =~= Seq::empty());
    assert(no.drop_last() =~= Seq::empty());
    assert(count(yes.drop_last()) == 0);
    assert(count(no.drop_last()) == 0);
    if b.len() > 0 {
        counts_add_up(a, b.drop_last());
        assert((a + b).drop_last() =~= a + b.drop_last());
    } else {
        assert(a + b =~= a);
        if a.len() > 0 {
            let rest = a.drop_last();
            let last = a.len() - 1;
            counts_add_up(rest, Seq::empty());
            lemma_count(rest);
            if count(a) == a.len() {
                assert forall|k: int| 0 <= k < a.len() implies #[trigger] a[k] by {
                    if k < last {
                        assert(rest[k] == a[k]);
                    }
                }
            }
            if count(a) == 0 {
                assert forall|k: int| 0 <= k < a.len() implies !(#[trigger] a[k]) by {
                    if k < last {
                        assert(rest[k] == a[k]);
                    }
                }
            }
            if forall|k: int| 0 <= k < a.len() ==> #[trigger] a[k] {
                assert(a[last]);
                assert forall|k: int| 0 <= k < rest.len() implies #[trigger] rest[k] by {
                    assert(a[k]);
                }
            }
            if forall|k: int| 0 <= k < a.len() ==> !(#[trigger] a[k]) {
                assert(!a[last]);
                assert forall|k: int| 0 <= k < rest.len() implies !(#[trigger] rest[k]) by {
                    assert(!a[k]);
                }
            }
        }
    }
}

/// An action on processes is open to root, and to others where every process can be
/// reached; it is closed where none can or where there is none, and reaches a part
/// otherwise. Freeing memory needs root, and opening Activity Monitor needs nothing.
pub proof fn reach_decides_what_is_available(
    action: Action,
    is_root: bool,
    reachable: Seq<bool>,
)
    ensures
        ({
            let a = AvailabilityView::of(action, reachable.len(), is_root, reachable);
            let all = forall|k: int| 0 <= k < reachable.len() ==> #[trigger] reachable[k];
            let none = forall|k: int| 0 <= k < reachable.len() ==> !(#[trigger] reachable[k]);
            let on_pids = action != Action::Purge && action != Action::OpenActivity;
            &&& action == Action::OpenActivity ==> a == AvailabilityView::AlwaysOk
            &&& action == Action::Purge && is_root ==> a == AvailabilityView::AllOk
            &&& action == Action::Purge && !is_root ==> a == AvailabilityView::Blocked {
                reason: "needs sudo"@,
            }
            &&& on_pids && reachable.len() == 0 ==> a == AvailabilityView::Blocked {
                reason: "no PIDs"@,
            }
            &&& on_pids && reachable.len() > 0 && (is_root || all) ==> a == AvailabilityView::AllOk
            &&& on_pids && reachable.len() > 0 && !is_root && none ==> a
                == AvailabilityView::Blocked { reason: "no permission"@ }
            &&& on_pids && !is_root && !all && !none ==> a == AvailabilityView::Partial {
                allowed: count(reachable),
                total: reachable.len(),
            }
        }),
{
    counts_add_up(reachable, Seq::empty());
    lemma_count(reachable);
}

/// What is told of a signal: how many processes it reached, what was done to them and what
/// that means, and how many it did not reach.
pub proof fn outcomes_tell_the_numbers(delivered: Seq<bool>, verb: Verb, adjustment: int)
    requires
        delivered.len() > 0,
    ensures
        ({
            let told = ResultView::signalled(delivered, verb);
            let reached = decimal::dec(count(delivered));
            let missed = decimal::dec((delivered.len() - count(delivered)) as nat);
            let hint = match verb.hint {
                Some(h) => " — "@ + h@,
                None => Seq::empty(),
            };
            &&& count(delivered) == delivered.len() ==> told == (ResultView {
                ok: true,
                message: "✓ "@ + verb.past@ + " "@ + reached + " PID(s)"@ + hint,
            })
            &&& count(delivered) == 0 ==> told == (ResultView {
                ok: false,
                message: "✗ Could not signal any of the "@ + missed
                    + " PID(s) — permission denied or already exited"@,
            })
            &&& 0 < count(delivered) < delivered.len() ==> told == (ResultView {
                ok: true,
                message: "⚠ "@ + verb.past@ + " "@ + reached + " PID(s); "@ + missed
                    + " could not be signalled (permission?)"@ + hint,
            })
        }),
        ({
            let told = ResultView::reniced(delivered, adjustment);
            let changed = decimal::dec(count(delivered));
            let missed = decimal::dec((delivered.len() - count(delivered)) as nat);
            &&& count(delivered) == delivered.len() ==> told == (ResultView {
                ok: true,
                message: "✓ Renice +"@ + decimal::signed(adjustment) + " on "@ + changed
                    + " PID(s)"@,
            })
            &&& count(delivered) == 0 ==> told == (ResultView {
                ok: false,
                message: "✗ Renice failed on all "@ + missed
                    + " PID(s) (negative renice needs root)"@,
            })
            &&& 0 < count(delivered) < delivered.len() ==> told == (ResultView {
                ok: true,
                message: "⚠ Reniced "@ + changed + " PID(s); "@ + missed + " failed"@,
            })
        }),
{
    lemma_count(delivered);
}

/// A priority is moved by the adjustment, as far as the system has room for it.
pub proof fn priorities_move_by_the_adjustment(current: int, adjustment: int)
    ensures
        -20 <= current + adjustment <= 19 ==> priority(current, adjustment) == current + adjustment,
        current + adjustment > 19 ==> priority(current, adjustment) == 19,
        current + adjustment < -20 ==> priority(current, adjustment) == -20,
{
}

/// A file name keeps each character of a program's name that is a letter, a digit or an
/// underscore, in order, as long as there is room, and leaves the others out.
pub proof fn lsof_names_keep_what_is_safe(name: Seq<char>, c: char)
    ensures
        ({
            let safe = ('a' <= c && c <= 'z') || ('A' <= c && c <= 'Z') || ('0' <= c && c <= '9')
                || c == '_';
            &&& safe && safe_part(name).len() < 32 ==> safe_part(name.push(c)) == safe_part(
                name,
            ).push(c)
            &&& !safe || safe_part(name).len() >= 32 ==> safe_part(name.push(c)) == safe_part(name)
            &&& safe_part(Seq::empty()).len() == 0
            &&& safe_part(name).len() > 0 ==> lsof_file(name) == "/tmp/stop-lsof-"@ + safe_part(
                name,
            ) + ".txt"@
            &&& safe_part(name).len() == 0 ==> lsof_file(name) == "/tmp/stop-lsof-"@ + "process"@
                + ".txt"@
        }),
{
    assert(name.push(c).drop_last() =~= name);
}

/// `lsof` is given each process by its number, with commas between.
pub proof fn lsof_is_given_each_process(pids: Seq<u32>, pid: u32)
    ensures
        pid_list(seq![pid]) == decimal::dec(pid as nat),
        pids.len() > 0 ==> pid_list(pids.push(pid)) == pid_list(pids) + ","@ + decimal::dec(
            pid as nat,
        ),
{
    let f = |p: u32| decimal::dec(p as nat);
    assert(seq![pid].map_values(f) =~= seq![decimal::dec(pid as nat)]);
    assert(pids.push(pid).map_values(f) =~= pids.map_values(f).push(decimal::dec(pid as nat)));
    text::parts_are_joined_in_order(pids.map_values(f), decimal::dec(pid as nat), ","@);
}

/// Each action has its own task: a signal, a change of priority by 10, a list of open
/// files, or a command of the system; and none without something to act on.
pub proof fn tasks_are_those_of_the_action(
    action: Action,
    name: Seq<char>,
    pids: Seq<u32>,
    platform: Platform,
)
    ensures
        ({
            let task = TaskView::of(action, name, pids, platform);
            let refused = |message: Seq<char>|
                TaskView::Done { result: ResultView { ok: false, message } };
            match action {
                Action::Nicer => task == TaskView::Renice { adjustment: 10, pids },
                Action::Lsof => if pids.len() == 0 {
                    task == refused("No PIDs to inspect"@)
                } else {
                    task == TaskView::Lsof { pid_arg: pid_list(pids), path: lsof_file(name) }
                },
                Action::OpenActivity => if platform == Platform::MacOs {
                    task == TaskView::OpenActivity
                } else {
                    task == refused("Activity Monitor is macOS only"@)
                },
                Action::Purge => if platform == Platform::MacOs {
                    task == TaskView::Purge
                } else {
                    task == refused("purge is macOS only"@)
                },
                _ => if pids.len() == 0 {
                    task == refused("No PIDs to signal"@)
                } else {
                    task == TaskView::Signal {
                        signal: match action {
                            Action::Term => Signal::Term,
                            Action::Kill => Signal::Kill,
                            Action::Stop => Signal::Stop,
                            Action::Cont => Signal::Cont,
                            Action::Int => Signal::Int,
                            Action::Hup => Signal::Hup,
                            Action::Usr1 => Signal::Usr1,
                            _ => Signal::Usr2,
                        },
                        pids,
                    }
                },
            }
        }),
{
}

/// `lsof` is heard where it succeeded or printed something; otherwise its own first line
/// of complaint is told, or why it could not be started.
pub proof fn lsof_is_heard_where_it_printed(success: bool, has_output: bool, text: String)
    ensures
        (LsofRun::Ran { success, has_output, errors: text }).usable() <==> success || has_output,
        !(LsofRun::NotStarted { error: text }).usable(),
        (LsofRun::NotStarted { error: text }).complaint() == "✗ lsof not available: "@ + text@,
        (LsofRun::Ran { success, has_output, errors: text }).complaint() == match text::first_line(
            text@,
        ) {
            Some(line) => "✗ lsof failed: "@ + line,
            None => "✗ lsof failed: "@ + "(no output)"@,
        },
{
}

} // verus!
