//! The signals init watches, what each of them asks for, and what reaping
//! the children after a `SIGCHLD` reports.
use vstd::prelude::*;
use vstd::string::StringExecFns;
use crate::power::Action;
use crate::proc::{departure, exit_recorded, living, Departed, State, Table};
use crate::text::{decimal_text, signed_decimal, signed_text, decimal_u64};

verus! {

/// Linux's `SIGHUP`.
pub const SIGHUP: i32 = 1;

/// Linux's `SIGINT`.
pub const SIGINT: i32 = 2;

/// Linux's `SIGKILL`.
pub const SIGKILL: i32 = 9;

/// Linux's `SIGUSR1`.
pub const SIGUSR1: i32 = 10;

/// Linux's `SIGUSR2`.
pub const SIGUSR2: i32 = 12;

/// Linux's `SIGTERM`.
pub const SIGTERM: i32 = 15;

/// Linux's `SIGCHLD`.
pub const SIGCHLD: i32 = 17;

/// Linux's `SIGCONT`.
pub const SIGCONT: i32 = 18;

/// Linux's `SIGSTOP`.
pub const SIGSTOP: i32 = 19;

/// Linux's `SIGWINCH`.
pub const SIGWINCH: i32 = 28;

/// Linux's `SIGPWR`.
pub const SIGPWR: i32 = 30;

/// The signals init blocks and reads: a child changed, the ways of going
/// down that busybox's `reboot`, `poweroff` and `halt`, ctrl+alt+del and a
/// power failure send, and a reload.
pub const WATCHED: [i32; 7] = [SIGCHLD, SIGTERM, SIGINT, SIGUSR1, SIGUSR2, SIGPWR, SIGHUP];

/// How long to wait for a signal when nothing else is due: until one arrives.
pub const UNTIL_SOMETHING_ARRIVES: i32 = -1;

/// What a signal asks init for.
#[derive(Clone, Copy, PartialEq, Eq, Debug, Structural)]
pub enum Request {
    ChildChanged,
    Shutdown(Action),
    Reload,
    Unknown(i32),
}

/// What `signal` asks for.
pub open spec fn request_for(signal: i32) -> Request {
    if signal == SIGCHLD {
        Request::ChildChanged
    } else if signal == SIGTERM || signal == SIGINT {
        Request::Shutdown(Action::Reboot)
    } else if signal == SIGUSR2 {
        Request::Shutdown(Action::PowerOff)
    } else if signal == SIGUSR1 || signal == SIGPWR {
        Request::Shutdown(Action::Halt)
    } else if signal == SIGHUP {
        Request::Reload
    } else {
        Request::Unknown(signal)
    }
}

/// What `signal` asks for.
pub fn classify(signal: i32) -> (r: Request)
    ensures
        r == request_for(signal),
{
    if signal == SIGCHLD {
        Request::ChildChanged
    } else if signal == SIGTERM || signal == SIGINT {
        Request::Shutdown(Action::Reboot)
    } else if signal == SIGUSR2 {
        Request::Shutdown(Action::PowerOff)
    } else if signal == SIGUSR1 || signal == SIGPWR {
        Request::Shutdown(Action::Halt)
    } else if signal == SIGHUP {
        Request::Reload
    } else {
        Request::Unknown(signal)
    }
}

/// The name a signal goes by in messages.
pub open spec fn signal_name(signal: i32) -> Seq<char> {
    if signal == SIGCHLD {
        "SIGCHLD"@
    } else if signal == SIGTERM {
        "SIGTERM"@
    } else if signal == SIGINT {
        "SIGINT"@
    } else if signal == SIGUSR1 {
        "SIGUSR1"@
    } else if signal == SIGUSR2 {
        "SIGUSR2"@
    } else if signal == SIGPWR {
        "SIGPWR"@
    } else if signal == SIGHUP {
        "SIGHUP"@
    } else {
        "an unwatched signal"@
    }
}

/// The name a signal goes by in messages.
pub fn name(signal: i32) -> (r: &'static str)
    ensures
        r@ == signal_name(signal),
{
    if signal == SIGCHLD {
        "SIGCHLD"
    } else if signal == SIGTERM {
        "SIGTERM"
    } else if signal == SIGINT {
        "SIGINT"
    } else if signal == SIGUSR1 {
        "SIGUSR1"
    } else if signal == SIGUSR2 {
        "SIGUSR2"
    } else if signal == SIGPWR {
        "SIGPWR"
    } else if signal == SIGHUP {
        "SIGHUP"
    } else {
        "an unwatched signal"
    }
}

/// Every watched signal asks for something.
pub proof fn every_watched_signal_means_something(k: int)
    requires
        0 <= k < WATCHED.len(),
    ensures
        request_for(WATCHED[k]) != Request::Unknown(WATCHED[k]),
{
}

/// Every watched signal has a name of its own.
pub proof fn every_watched_signal_has_a_name(k: int)
    requires
        0 <= k < WATCHED.len(),
    ensures
        signal_name(WATCHED[k]) != "an unwatched signal"@,
{
    reveal_strlit("an unwatched signal");
    reveal_strlit("SIGCHLD");
    reveal_strlit("SIGTERM");
    reveal_strlit("SIGINT");
    reveal_strlit("SIGUSR1");
    reveal_strlit("SIGUSR2");
    reveal_strlit("SIGPWR");
    reveal_strlit("SIGHUP");
    assert(signal_name(WATCHED[k]).len() <= 7);
    assert("an unwatched signal"@.len() == 19);
}

/// No signal is watched twice, `SIGCHLD` is watched, and the signals that
/// cannot be blocked are not.
pub proof fn the_watch_list_is_sound(j: int, k: int)
    requires
        0 <= j < k < WATCHED.len(),
    ensures
        WATCHED[j] != WATCHED[k],
        WATCHED[k] != SIGKILL && WATCHED[k] != SIGSTOP,
        WATCHED[0] == SIGCHLD,
{
}

/// Every way of going down is what some watched signal asks for.
pub proof fn every_action_is_reachable_from_a_signal(a: Action)
    ensures
        exists|k: int| 0 <= k < WATCHED.len() && request_for(#[trigger] WATCHED[k]) == Request::Shutdown(a),
{
    match a {
        Action::Reboot => assert(request_for(WATCHED[1]) == Request::Shutdown(a)),
        Action::PowerOff => assert(request_for(WATCHED[4]) == Request::Shutdown(a)),
        Action::Halt => assert(request_for(WATCHED[3]) == Request::Shutdown(a)),
    }
}

/// A signal nobody watches asks for nothing.
pub proof fn an_unwatched_signal_stays_unknown(signal: i32)
    requires
        forall|k: int| 0 <= k < WATCHED.len() ==> WATCHED[k] != signal,
    ensures
        request_for(signal) == Request::Unknown(signal),
{
    assert(WATCHED[0] != signal && WATCHED[1] != signal && WATCHED[2] != signal && WATCHED[3] != signal
        && WATCHED[4] != signal && WATCHED[5] != signal && WATCHED[6] != signal);
}

/// The line the log gets for a child that went.
pub open spec fn departure_text(d: Departed) -> Seq<char> {
    let who = d.name@ + " ["@ + signed_text(d.pid as int) + "]"@;
    match d.state {
        State::Exited(code) => who + " exited with "@ + signed_text(code as int) + " after "@ + decimal_text(
            d.ran_for as nat,
        ) + "s"@,
        State::Killed(signal) => who + " killed by signal "@ + signed_text(signal as int) + " after "@
            + decimal_text(d.ran_for as nat) + "s"@,
        State::Running => who + " is still running"@,
    }
}

/// The line the log gets for a child that nobody started.
pub open spec fn orphan_text(pid: i32) -> Seq<char> {
    "reaped orphan ["@ + signed_text(pid as int) + "]"@
}

/// The line the log gets for a child that went.
pub fn departure_line(d: &Departed) -> (r: String)
    ensures
        r@ == departure_text(*d),
{
    let mut r = String::from_str(d.name);
    r.append(" [");
    r.append(signed_decimal(d.pid).as_str());
    r.append("]");
    match d.state {
        State::Exited(code) => {
            r.append(" exited with ");
            r.append(signed_decimal(code).as_str());
            r.append(" after ");
            r.append(decimal_u64(d.ran_for).as_str());
            r.append("s");
        },
        State::Killed(signal) => {
            r.append(" killed by signal ");
            r.append(signed_decimal(signal).as_str());
            r.append(" after ");
            r.append(decimal_u64(d.ran_for).as_str());
            r.append("s");
        },
        State::Running => {
            r.append(" is still running");
        },
    }
    r
}

/// The line the log gets for a child that nobody started.
pub fn orphan_line(pid: i32) -> (r: String)
    ensures
        r@ == orphan_text(pid),
{
    let mut r = String::from_str("reaped orphan [");
    r.append(signed_decimal(pid).as_str());
    r.append("]");
    r
}

/// What reaping every child that is gone reports: how long the shortest
/// lived of them ran, if any went, and whether children are left.
#[derive(Clone, Copy, PartialEq, Eq, Debug)]
pub struct Harvest {
    pub shortest_life: Option<u64>,
    pub children_left: bool,
}

/// The shorter of a life so far and another one.
pub open spec fn shorter(so_far: Option<u64>, ran_for: u64) -> Option<u64> {
    match so_far {
        Some(s) => Some(if ran_for < s { ran_for } else { s }),
        None => Some(ran_for),
    }
}

/// Reaping in progress: the shortest life among the children reaped so far.
pub struct Reaping {
    pub shortest_life: Option<u64>,
}

impl Reaping {
    /// Reaping, before any child.
    pub fn new() -> (r: Reaping)
        ensures
            r.shortest_life is None,
    {
        Reaping { shortest_life: None }
    }

    /// The child `pid` was reaped with `status` at `now`: the table records
    /// it, and the line for the log comes back; a child the table does not
    /// know is an orphan, and does not count toward the shortest life.
    pub fn child(&mut self, table: &mut Table, pid: i32, status: i32, now: u64) -> (line: String)
        ensures
            final(table)@ == exit_recorded(old(table)@, pid, status),
            match departure(old(table)@, pid, status, now) {
                Some(d) => {
                    &&& line@ == departure_text(d)
                    &&& final(self).shortest_life == shorter(old(self).shortest_life, d.ran_for)
                    &&& final(self).shortest_life is Some
                    &&& final(self).shortest_life->0 <= d.ran_for
                    &&& (old(self).shortest_life matches Some(s) ==> final(self).shortest_life->0 <= s)
                    &&& (final(self).shortest_life->0 == d.ran_for || final(self).shortest_life == old(
                        self,
                    ).shortest_life)
                },
                None => line@ == orphan_text(pid) && final(self).shortest_life == old(self).shortest_life,
            },
    {
        match table.record_exit(pid, status, now) {
            Some(gone) => {
                self.shortest_life = match self.shortest_life {
                    Some(s) => Some(if gone.ran_for < s { gone.ran_for } else { s }),
                    None => Some(gone.ran_for),
                };
                departure_line(&gone)
            },
            None => orphan_line(pid),
        }
    }

    /// Reaping is over, with `children_left` or not: the table forgets the
    /// children that are gone, and the harvest comes back.
    pub fn finish(self, table: &mut Table, children_left: bool) -> (h: Harvest)
        ensures
            final(table)@ == living(old(table)@),
            h == (Harvest { shortest_life: self.shortest_life, children_left }),
    {
        table.forget_finished();
        Harvest { shortest_life: self.shortest_life, children_left }
    }
}

/// The shortest of `lives`, folded in one after the other from nothing.
pub open spec fn shortest_of(lives: Seq<u64>) -> Option<u64>
    decreases lives.len(),
{
    if lives.len() == 0 {
        None
    } else {
        shorter(shortest_of(lives.drop_last()), lives.last())
    }
}

/// The shortest life reaped is the least of the lives: no longer than any of
/// them, and one of them; none when nothing was reaped.
pub proof fn the_shortest_life_is_the_least(lives: Seq<u64>)
    ensures
        lives.len() == 0 <==> shortest_of(lives) is None,
        shortest_of(lives) matches Some(r) ==> {
            &&& forall|k: int| 0 <= k < lives.len() ==> r <= #[trigger] lives[k]
            &&& exists|k: int| 0 <= k < lives.len() && r == #[trigger] lives[k]
        },
    decreases lives.len(),
{
    if lives.len() > 0 {
        let rest = lives.drop_last();
        the_shortest_life_is_the_least(rest);
        let r = shortest_of(lives)->0;
        assert forall|k: int| 0 <= k < lives.len() implies r <= #[trigger] lives[k] by {
            if k < rest.len() {
                assert(lives[k] == rest[k]);
            }
        }
        if r == lives.last() {
            assert(r == lives[lives.len() - 1]);
        } else {
            let k = choose|k: int| 0 <= k < rest.len() && r == #[trigger] rest[k];
            assert(r == lives[k]);
        }
    }
}

} // verus!
