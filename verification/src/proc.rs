//! The children init starts, and the table that keeps track of what became
//! of each of them.
use vstd::prelude::*;

verus! {

/// A program init knows how to start: a name for the logs, the file to
/// run, its argument vector, and whether it gets a session of its own.
#[derive(PartialEq, Eq, Debug, Clone, Copy)]
pub struct Spec {
    pub name: &'static str,
    pub path: &'static str,
    pub argv: &'static [&'static str],
    pub wants_own_session: bool,
}

impl Spec {
    /// Whether the program's file is there, as `std::path::Path::exists`
    /// reports it; what is on disk decides, so nothing is promised.
    #[verifier::external_body]
    pub fn is_available(&self) -> bool {
        std::path::Path::new(self.path).exists()
    }
}

/// What a child is doing: still running, gone with an exit code, or killed
/// by a signal.
#[derive(Clone, Copy, PartialEq, Eq, Debug, Structural)]
pub enum State {
    Running,
    Exited(i32),
    Killed(i32),
}

/// A child init started: its name, its pid, what it is doing, when it was
/// started (in seconds of the monotonic clock), and whether it leads a session.
#[derive(Clone, Copy, PartialEq, Eq, Debug)]
pub struct Entry {
    pub name: &'static str,
    pub pid: i32,
    pub state: State,
    pub started_at: u64,
    pub owns_session: bool,
}

/// The children init has started, in the order they were started.
pub struct Table {
    entries: Vec<Entry>,
}

/// A child that is gone: its name, its pid, how it ended, and how many
/// seconds it ran.
#[derive(Clone, Copy, PartialEq, Eq, Debug)]
pub struct Departed {
    pub name: &'static str,
    pub pid: i32,
    pub state: State,
    pub ran_for: u64,
}

/// `e` is still running.
pub open spec fn live(e: Entry) -> bool {
    e.state == State::Running
}

/// How many entries of `s` are running.
pub open spec fn live_count(s: Seq<Entry>) -> nat
    decreases s.len(),
{
    if s.len() == 0 {
        0
    } else {
        live_count(s.drop_last()) + if live(s.last()) { 1nat } else { 0nat }
    }
}

/// The entries of `s` that are running, in order.
pub open spec fn living(s: Seq<Entry>) -> Seq<Entry>
    decreases s.len(),
{
    if s.len() == 0 {
        seq![]
    } else if live(s.last()) {
        living(s.drop_last()).push(s.last())
    } else {
        living(s.drop_last())
    }
}

/// The pids of the running entries of `s` that lead a session, in order.
pub open spec fn leaders(s: Seq<Entry>) -> Seq<i32>
    decreases s.len(),
{
    if s.len() == 0 {
        seq![]
    } else if live(s.last()) && s.last().owns_session {
        leaders(s.drop_last()).push(s.last().pid)
    } else {
        leaders(s.drop_last())
    }
}

/// The first running entry of `s`, from `from` on, with pid `pid`.
pub open spec fn live_entry(s: Seq<Entry>, pid: i32, from: int) -> Option<int>
    decreases s.len() - from,
{
    if from < 0 || from >= s.len() {
        None
    } else if s[from].pid == pid && live(s[from]) {
        Some(from)
    } else {
        live_entry(s, pid, from + 1)
    }
}

/// What a wait status says of how a child ended: its exit code when it
/// exited, the signal when one killed it, and an exit code of -1 otherwise.
pub open spec fn ending(status: i32) -> State {
    if status & 0x7f == 0 {
        State::Exited((status >> 8) & 0xff)
    } else if status & 0x7f != 0x7f {
        State::Killed(status & 0x7f)
    } else {
        State::Exited(-1i32)
    }
}

/// The table `s` once the exit of `pid` with `status` is recorded: the first
/// running entry with that pid takes the state the status gives.
pub open spec fn exit_recorded(s: Seq<Entry>, pid: i32, status: i32) -> Seq<Entry> {
    match live_entry(s, pid, 0) {
        Some(i) => s.update(i, Entry { state: ending(status), ..s[i] }),
        None => s,
    }
}

/// What recording the exit of `pid` with `status` at time `now` reports: the
/// child that went, or nothing when no running child has that pid.
pub open spec fn departure(s: Seq<Entry>, pid: i32, status: i32, now: u64) -> Option<Departed> {
    match live_entry(s, pid, 0) {
        Some(i) => Some(
            Departed {
                name: s[i].name,
                pid,
                state: ending(status),
                ran_for: if now >= s[i].started_at { (now - s[i].started_at) as u64 } else { 0 },
            },
        ),
        None => None,
    }
}

/// `libc::WIFEXITED`: whether a wait status says the child exited.
#[verifier::external_body]
fn exited(status: i32) -> (r: bool)
    ensures
        r == (status & 0x7f == 0),
{
    libc::WIFEXITED(status)
}

/// `libc::WEXITSTATUS`: the exit code in a wait status.
#[verifier::external_body]
fn exit_status(status: i32) -> (r: i32)
    ensures
        r == (status >> 8) & 0xff,
{
    libc::WEXITSTATUS(status)
}

/// `libc::WIFSIGNALED`: whether a wait status says a signal killed the child.
#[verifier::external_body]
fn signaled(status: i32) -> (r: bool)
    ensures
        r == (status & 0x7f != 0 && status & 0x7f != 0x7f),
{
    libc::WIFSIGNALED(status)
}

/// `libc::WTERMSIG`: the signal in a wait status.
#[verifier::external_body]
fn term_signal(status: i32) -> (r: i32)
    ensures
        r == status & 0x7f,
{
    libc::WTERMSIG(status)
}

/// How a child ended, from the status `waitpid` gave for it.
pub fn state_from(status: i32) -> (r: State)
    ensures
        r == ending(status),
{
    if exited(status) {
        return State::Exited(exit_status(status));
    }
    if signaled(status) {
        return State::Killed(term_signal(status));
    }
    State::Exited(-1)
}

impl View for Table {
    type V = Seq<Entry>;

    closed spec fn view(&self) -> Seq<Entry> {
        self.entries@
    }
}

impl Table {
    /// A table with nothing in it.
    pub fn new() -> (t: Table)
        ensures
            t@ == Seq::<Entry>::empty(),
    {
        Table { entries: Vec::new() }
    }

    /// Starts keeping track of the child `pid`, started as `name` at `now`.
    pub fn track(&mut self, name: &'static str, pid: i32, owns_session: bool, now: u64)
        ensures
            final(self)@ == old(self)@.push(
                Entry { name, pid, state: State::Running, started_at: now, owns_session },
            ),
    {
        self.entries.push(Entry { name, pid, state: State::Running, started_at: now, owns_session });
    }

    /// The pids of the running children that lead a session of their own.
    pub fn session_leaders(&self) -> (r: Vec<i32>)
        ensures
            r@ == leaders(self@),
    {
        let mut r: Vec<i32> = Vec::new();
        for k in 0..self.entries.len()
            invariant
                r@ == leaders(self.entries@.take(k as int)),
        {
            assert(self.entries@.take(k + 1).drop_last() =~= self.entries@.take(k as int));
            let e = self.entries[k];
            if e.state == State::Running && e.owns_session {
                r.push(e.pid);
            }
        }
        assert(self.entries@.take(self.entries@.len() as int) =~= self.entries@);
        r
    }

    /// How many children are running.
    pub fn running(&self) -> (n: usize)
        ensures
            n == live_count(self@),
    {
        let mut n: usize = 0;
        for k in 0..self.entries.len()
            invariant
                n == live_count(self.entries@.take(k as int)),
                n <= k,
        {
            assert(self.entries@.take(k + 1).drop_last() =~= self.entries@.take(k as int));
            if self.entries[k].state == State::Running {
                n = n + 1;
            }
        }
        assert(self.entries@.take(self.entries@.len() as int) =~= self.entries@);
        n
    }

    /// Records that the child `pid` ended with `status`, noticed at `now`:
    /// the first running entry with that pid takes the state the status gives,
    /// and the child is reported; a pid no running entry has is not recorded.
    pub fn record_exit(&mut self, pid: i32, status: i32, now: u64) -> (r: Option<Departed>)
        ensures
            final(self)@ == exit_recorded(old(self)@, pid, status),
            r == departure(old(self)@, pid, status, now),
            live_count(final(self)@) == live_count(old(self)@) - if r is Some { 1int } else { 0int },
    {
        let state = state_from(status);
        let ghost s = self.entries@;
        let mut i: usize = 0;
        while i < self.entries.len()
            invariant
                s == self.entries@,
                s == old(self)@,
                state == ending(status),
                i <= s.len(),
                live_entry(s, pid, 0) == live_entry(s, pid, i as int),
            decreases s.len() - i,
        {
            let e = self.entries[i];
            if e.pid == pid && e.state == State::Running {
                let gone = Entry { state, ..e };
                self.entries.set(i, gone);
                proof {
                    lemma_live_count_update(s, i as int, gone);
                    assert(live_entry(s, pid, 0) == Some(i as int));
                }
                return Some(
                    Departed { name: e.name, pid, state, ran_for: now.saturating_sub(e.started_at) },
                );
            }
            i = i + 1;
        }
        None
    }

    /// Drops the children that are gone, and keeps the running ones in order.
    pub fn forget_finished(&mut self)
        ensures
            final(self)@ == living(old(self)@),
    {
        let mut kept: Vec<Entry> = Vec::new();
        for k in 0..self.entries.len()
            invariant
                kept@ == living(self.entries@.take(k as int)),
        {
            assert(self.entries@.take(k + 1).drop_last() =~= self.entries@.take(k as int));
            let e = self.entries[k];
            if e.state == State::Running {
                kept.push(e);
            }
        }
        assert(self.entries@.take(self.entries@.len() as int) =~= self.entries@);
        self.entries = kept;
    }
}

/// Replacing a running entry with one that is not running takes one off the count.
proof fn lemma_live_count_update(s: Seq<Entry>, i: int, e: Entry)
    requires
        0 <= i < s.len(),
        live(s[i]),
        !live(e),
    ensures
        live_count(s.update(i, e)) == live_count(s) - 1,
    decreases s.len(),
{
    if i == s.len() - 1 {
        assert(s.update(i, e).drop_last() =~= s.drop_last());
    } else {
        lemma_live_count_update(s.drop_last(), i, e);
        assert(s.update(i, e).drop_last() =~= s.drop_last().update(i, e));
    }
}

/// Where `live_entry` points, there is a running entry with that pid, and
/// where it points nowhere, there is none.
proof fn lemma_live_entry(s: Seq<Entry>, pid: i32, from: int)
    requires
        0 <= from,
    ensures
        match live_entry(s, pid, from) {
            Some(i) => from <= i < s.len() && s[i].pid == pid && live(s[i]),
            None => forall|k: int| from <= k < s.len() ==> !(#[trigger] s[k].pid == pid && live(s[k])),
        },
    decreases s.len() - from,
{
    if from < s.len() && !(s[from].pid == pid && live(s[from])) {
        lemma_live_entry(s, pid, from + 1);
    }
}

/// A pid with one running entry is recorded once: when the child's exit has
/// been recorded, a second report of an exit for that pid finds nothing.
pub proof fn an_exit_is_recorded_once(s: Seq<Entry>, pid: i32, first: i32, second: i32, now: u64)
    requires
        forall|i: int, j: int|
            0 <= i < s.len() && 0 <= j < s.len() && s[i].pid == pid && live(s[i]) && s[j].pid == pid
                && live(s[j]) ==> i == j,
    ensures
        departure(exit_recorded(s, pid, first), pid, second, now) is None,
        exit_recorded(exit_recorded(s, pid, first), pid, second) == exit_recorded(s, pid, first),
{
    let t = exit_recorded(s, pid, first);
    lemma_live_entry(s, pid, 0);
    lemma_live_entry(t, pid, 0);
    if let Some(j) = live_entry(t, pid, 0) {
        if let Some(i) = live_entry(s, pid, 0) {
            assert(t[i].state == ending(first));
            if j != i {
                assert(t[j] == s[j]);
            }
        } else {
            assert(t == s);
        }
    }
}

/// Forgetting the children that are gone changes nothing about the running
/// ones: the count, the session leaders, and forgetting again.
pub proof fn forgetting_keeps_the_living(s: Seq<Entry>)
    ensures
        live_count(living(s)) == live_count(s),
        leaders(living(s)) == leaders(s),
        living(living(s)) == living(s),
        living(s).len() == live_count(s),
    decreases s.len(),
{
    if s.len() > 0 {
        let t = s.drop_last();
        forgetting_keeps_the_living(t);
        if live(s.last()) {
            let l = living(t).push(s.last());
            assert(l.drop_last() =~= living(t));
        }
    }
}

/// Recording an exit touches only the child that went: the first running
/// entry with that pid, which stops running and keeps its name and start;
/// the report names that child and how long it ran, from its start to `now`;
/// a pid no running entry has leaves the table as it was and reports nothing.
pub proof fn recording_an_exit_touches_only_that_child(s: Seq<Entry>, pid: i32, status: i32, now: u64)
    ensures
        exit_recorded(s, pid, status).len() == s.len(),
        departure(s, pid, status, now) is Some <==> exists|i: int| 0 <= i < s.len() && s[i].pid == pid && live(#[trigger] s[i]),
        departure(s, pid, status, now) is None ==> exit_recorded(s, pid, status) == s,
        departure(s, pid, status, now) matches Some(d) ==> exists|i: int| {
            &&& 0 <= i < s.len()
            &&& s[i].pid == pid
            &&& live(s[i])
            &&& (forall|j: int| 0 <= j < i ==> !(#[trigger] s[j].pid == pid && live(s[j])))
            &&& d.name == s[i].name
            &&& d.pid == pid
            &&& (now >= s[i].started_at ==> d.ran_for + s[i].started_at == now)
            &&& (now < s[i].started_at ==> d.ran_for == 0)
            &&& d.state == ending(status)
            &&& !live(#[trigger] exit_recorded(s, pid, status)[i])
            &&& exit_recorded(s, pid, status)[i].name == s[i].name
            &&& exit_recorded(s, pid, status)[i].started_at == s[i].started_at
            &&& forall|j: int| 0 <= j < s.len() && j != i ==> exit_recorded(s, pid, status)[j] == s[j]
        },
{
    lemma_live_entry(s, pid, 0);
    lemma_ending_is_not_running(status);
    if let Some(i) = live_entry(s, pid, 0) {
        lemma_live_entry_first(s, pid, 0);
        let t = exit_recorded(s, pid, status);
        assert(!live(t[i]));
        assert(forall|j: int| 0 <= j < s.len() && j != i ==> t[j] == s[j]);
    }
}

/// Where `live_entry` points, no running entry with that pid comes before.
proof fn lemma_live_entry_first(s: Seq<Entry>, pid: i32, from: int)
    requires
        0 <= from,
    ensures
        live_entry(s, pid, from) matches Some(i) ==> forall|j: int| from <= j < i ==> !(#[trigger] s[j].pid == pid && live(s[j])),
    decreases s.len() - from,
{
    if from < s.len() && !(s[from].pid == pid && live(s[from])) {
        lemma_live_entry_first(s, pid, from + 1);
    }
}

/// The state a wait status gives is never `Running`.
proof fn lemma_ending_is_not_running(status: i32)
    ensures
        ending(status) != State::Running,
{
}

/// A child that exited with code `code` is reported exited with that code,
/// and one that a signal `signal` killed is reported killed by it.
pub proof fn a_wait_status_reads_back(code: i32, signal: i32)
    requires
        0 <= code < 256,
        0 < signal < 0x7f,
    ensures
        ending(code << 8) == State::Exited(code),
        ending(signal) == State::Killed(signal),
{
    assert((code << 8) & 0x7f == 0) by (bit_vector)
        requires 0 <= code < 256;
    assert(((code << 8) >> 8) & 0xff == code) by (bit_vector)
        requires 0 <= code < 256;
    assert(signal & 0x7f == signal) by (bit_vector)
        requires 0 < signal < 0x7f;
}

} // verus!
