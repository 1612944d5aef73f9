//! What pid 1 decides while the system is up: when to start the rescue
//! shell again, and what a child that died quickly leads to.
use vstd::prelude::*;
use vstd::string::StringExecFns;
use crate::shell::{what_one_event_does, Rescue, Verdict};
use crate::signal::UNTIL_SOMETHING_ARRIVES;
use crate::text::{decimal, decimal_text};

verus! {

/// The line the boot log checker looks for once the shell is up.
pub const READY_MARKER: &'static str = "bootstrap OK, shell ready";

/// A shell that ran for fewer seconds than this died too quickly.
pub const RESPAWN_IS_TOO_FAST: u64 = 1;

/// How long to wait, in seconds, before starting a shell that died too quickly.
pub const RESPAWN_BACKOFF_SECS: u64 = 1;

/// How long to wait for a signal, in milliseconds, while no shell runs.
pub const BACKOFF_CHECK_MS: i32 = 100;

/// What the console shows once init has taken over, with the count of
/// filesystems that did not mount.
pub open spec fn banner_text(failed: usize) -> Seq<char> {
    if failed > 0 {
        "\nZevory Linux\n\n"@ + "  "@ + decimal_text(failed as nat)
            + " filesystem(s) did not mount, look above for which\n\n"@
    } else {
        "\nZevory Linux\n\n"@
    }
}

/// What the console shows once init has taken over.
pub fn banner(failed: usize) -> (r: String)
    ensures
        r@ == banner_text(failed),
{
    let mut r = String::from_str("\nZevory Linux\n\n");
    if failed > 0 {
        r.append("  ");
        r.append(decimal(failed).as_str());
        r.append(" filesystem(s) did not mount, look above for which\n\n");
    }
    r
}

/// What the log says when init parks because of `why`.
pub open spec fn parked_log_text(why: Seq<char>) -> Seq<char> {
    why + ", so there is nothing left to do. parked"@
}

/// What the console says when init parks because of `why`: the reason, and
/// the way out, which is ctrl+alt+del when the kernel lets it reboot.
pub open spec fn parked_console_text(why: Seq<char>, can_reboot: bool) -> Seq<char> {
    "\nzevinit: "@ + why + ", so there is nothing left to do.\n"@ + if can_reboot {
        "press ctrl+alt+del to reboot"@
    } else {
        "power cycle the machine"@
    } + "\n"@
}

/// The log line for parking because of `why`.
pub fn parked_log(why: &str) -> (r: String)
    ensures
        r@ == parked_log_text(why@),
{
    let mut r = String::from_str(why);
    r.append(", so there is nothing left to do. parked");
    r
}

/// What the console shows when init parks because of `why`, ctrl+alt+del
/// being able to reboot or not.
pub fn parked_console(why: &str, can_reboot: bool) -> (r: String)
    ensures
        r@ == parked_console_text(why@, can_reboot),
{
    let mut r = String::from_str("\nzevinit: ");
    r.append(why);
    r.append(", so there is nothing left to do.\n");
    if can_reboot {
        r.append("press ctrl+alt+del to reboot");
    } else {
        r.append("power cycle the machine");
    }
    r.append("\n");
    proof {
        assert(r@ =~= parked_console_text(why@, can_reboot));
    }
    r
}

/// What to do before waiting for the next signal: whether to start the
/// shell, and how long to wait.
#[derive(Clone, Copy, PartialEq, Eq, Debug)]
pub struct Plan {
    pub spawn: bool,
    pub wait_ms: i32,
}

/// What a round of reaping leads to: nothing to say, a fall back from the
/// shell that keeps dying to the next one, or no shell left to try.
#[derive(Clone, Copy, PartialEq, Eq, Debug)]
pub enum Outcome {
    Steady,
    FellBack { dying: &'static str, next: &'static str },
    Stranded { dying: &'static str },
}

/// The rescue shell, and the earliest time (in seconds of the monotonic
/// clock) it may be started again.
pub struct Supervisor {
    rescue: Rescue,
    respawn_at: u64,
}

impl Supervisor {
    /// The rescue shells.
    pub closed spec fn shells(self) -> Rescue {
        self.rescue
    }

    /// The earliest time the shell may be started again.
    pub closed spec fn not_before(self) -> u64 {
        self.respawn_at
    }

    /// What to do before waiting, with `running` children at `now`.
    pub open spec fn plan_for(self, running: usize, now: u64) -> Plan {
        Plan {
            spawn: running == 0 && now >= self.not_before(),
            wait_ms: if running == 0 { BACKOFF_CHECK_MS } else { UNTIL_SOMETHING_ARRIVES },
        }
    }

    /// The supervisor, and what it leads to, after the children were reaped
    /// at `now` and the shortest lived of those that went ran `shortest_life`.
    pub closed spec fn after_reaping(self, shortest_life: Option<u64>, now: u64) -> (Supervisor, Outcome) {
        match shortest_life {
            None => (self, Outcome::Steady),
            Some(ran_for) => if ran_for >= RESPAWN_IS_TOO_FAST {
                (Supervisor { rescue: self.rescue.after_survival(), ..self }, Outcome::Steady)
            } else {
                let dying = self.rescue.shells()[self.rescue.current()].path;
                let (next, verdict) = self.rescue.after_failure();
                (
                    Supervisor { rescue: next, respawn_at: (now + RESPAWN_BACKOFF_SECS) as u64 },
                    match verdict {
                        Verdict::KeepTrying => Outcome::Steady,
                        Verdict::MovedOn(to) => Outcome::FellBack { dying, next: to.path },
                        Verdict::OutOfOptions => Outcome::Stranded { dying },
                    },
                )
            },
        }
    }

    /// Supervising the shells of `rescue`, which may start at once.
    pub fn new(rescue: Rescue) -> (s: Supervisor)
        ensures
            s.shells() == rescue,
            s.not_before() == 0,
    {
        Supervisor { rescue, respawn_at: 0 }
    }

    /// The rescue shells, to start the one in use.
    pub fn rescue(&self) -> (r: &Rescue)
        ensures
            *r == self.shells(),
    {
        &self.rescue
    }

    /// With `running` children at `now`: start the shell when none runs and
    /// its wait is over; wait a little when none runs, and until a signal
    /// arrives otherwise.
    pub fn plan(&self, running: usize, now: u64) -> (p: Plan)
        ensures
            p == self.plan_for(running, now),
            p.spawn == (running == 0 && now >= self.not_before()),
            p.wait_ms == if running == 0 { BACKOFF_CHECK_MS } else { UNTIL_SOMETHING_ARRIVES },
    {
        let idle = running == 0;
        Plan {
            spawn: idle && now >= self.respawn_at,
            wait_ms: if idle { BACKOFF_CHECK_MS } else { UNTIL_SOMETHING_ARRIVES },
        }
    }

    /// The children were reaped at `now`, and the shortest lived of those
    /// that went ran `shortest_life` seconds: nothing when none went; a clean
    /// slate when it lived long enough; else the next start waits, and the
    /// shell takes a strike that may move on to the next shell or leave none.
    pub fn reaped(&mut self, shortest_life: Option<u64>, now: u64) -> (o: Outcome)
        requires
            now < u64::MAX,
        ensures
            (*final(self), o) == old(self).after_reaping(shortest_life, now),
            match shortest_life {
                None => {
                    &&& o == Outcome::Steady
                    &&& final(self).shells() == old(self).shells()
                    &&& final(self).not_before() == old(self).not_before()
                },
                Some(ran_for) => if ran_for >= RESPAWN_IS_TOO_FAST {
                    &&& o == Outcome::Steady
                    &&& final(self).shells() == old(self).shells().after_survival()
                    &&& final(self).not_before() == old(self).not_before()
                } else {
                    let dying = old(self).shells().shells()[old(self).shells().current()].path;
                    let (next, verdict) = old(self).shells().after_failure();
                    &&& final(self).not_before() == now + RESPAWN_BACKOFF_SECS
                    &&& final(self).shells() == next
                    &&& o == match verdict {
                        Verdict::KeepTrying => Outcome::Steady,
                        Verdict::MovedOn(to) => Outcome::FellBack { dying, next: to.path },
                        Verdict::OutOfOptions => Outcome::Stranded { dying },
                    }
                },
            },
    {
        let ran_for = match shortest_life {
            None => {
                return Outcome::Steady;
            },
            Some(t) => t,
        };
        if ran_for >= RESPAWN_IS_TOO_FAST {
            self.rescue.survived();
            return Outcome::Steady;
        }
        self.respawn_at = now + RESPAWN_BACKOFF_SECS;
        let dying = self.rescue.shell().path;
        match self.rescue.failed() {
            Verdict::KeepTrying => Outcome::Steady,
            Verdict::MovedOn(next) => Outcome::FellBack { dying, next: next.path },
            Verdict::OutOfOptions => Outcome::Stranded { dying },
        }
    }
}

/// A shell that died too quickly is not started again until a backoff has
/// passed since its death was noticed, and one that lived long enough does
/// not move the time it may start.
pub proof fn no_restart_within_the_backoff(s: Supervisor, ran_for: u64, now: u64, t: u64, running: usize)
    requires
        now < u64::MAX,
    ensures
        ran_for < RESPAWN_IS_TOO_FAST && s.after_reaping(Some(ran_for), now).0.plan_for(running, t).spawn
            ==> t >= now + RESPAWN_BACKOFF_SECS,
        ran_for >= RESPAWN_IS_TOO_FAST ==> s.after_reaping(Some(ran_for), now).0.not_before() == s.not_before(),
        s.after_reaping(None, now).0 == s,
{
}

/// A shell that lived long enough stays in use with its strikes wiped; one
/// that died too quickly counts against the shell in use: another strike,
/// a fall back to the next shell, or no shell left, the last two naming the
/// shell that kept dying.
pub proof fn a_quick_death_counts_against_the_shell(s: Supervisor, ran_for: u64, now: u64)
    requires
        now < u64::MAX,
        s.shells().well_formed(),
    ensures
        ({
            let (after, o) = s.after_reaping(Some(ran_for), now);
            let r = s.shells();
            let dying = r.shells()[r.current()].path;
            &&& after.shells().shells() == r.shells()
            &&& (ran_for >= RESPAWN_IS_TOO_FAST ==> o == Outcome::Steady && after.shells().current() == r.current()
                && after.shells().strike_count() == 0)
            &&& (ran_for < RESPAWN_IS_TOO_FAST ==> {
                ||| o == Outcome::Steady && after.shells().current() == r.current()
                    && after.shells().strike_count() == r.strike_count() + 1
                ||| o == (Outcome::FellBack { dying, next: r.shells()[r.current() + 1].path })
                    && after.shells().current() == r.current() + 1 && after.shells().strike_count() == 0
                ||| o == (Outcome::Stranded { dying }) && after.shells().current() == r.current()
                    && r.current() + 1 == r.shells().len()
            })
        }),
{
    what_one_event_does(s.shells());
}

} // verus!
