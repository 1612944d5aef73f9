//! Going down: what each way of going down asks the kernel for, and the
//! steps that stop every process first.
use vstd::prelude::*;

verus! {

/// `reboot(2)` command that restarts the machine (Linux's `RB_AUTOBOOT`).
pub const RB_AUTOBOOT: i32 = 0x01234567;

/// `reboot(2)` command that switches the machine off (Linux's `RB_POWER_OFF`).
pub const RB_POWER_OFF: i32 = 0x4321fedc;

/// `reboot(2)` command that stops the machine (Linux's `RB_HALT_SYSTEM`,
/// `0xcdef0123` read as an `i32`).
pub const RB_HALT_SYSTEM: i32 = -839974621i32;

/// How long the processes get to stop after `SIGTERM`, in seconds.
pub const GRACE_SECS: u64 = 5;

/// How long the processes get to die after `SIGKILL`, in seconds.
pub const AFTER_KILL_SECS: u64 = 2;

/// How long to wait for a signal between two looks at the children, in milliseconds.
pub const CHECK_EVERY_MS: i32 = 100;

/// A way of going down.
#[derive(Clone, Copy, PartialEq, Eq, Hash, Debug, Structural)]
pub enum Action {
    Reboot,
    PowerOff,
    Halt,
}

/// The name an action goes by in messages.
pub open spec fn action_name(a: Action) -> Seq<char> {
    match a {
        Action::Reboot => "reboot"@,
        Action::PowerOff => "poweroff"@,
        Action::Halt => "halt"@,
    }
}

/// The `reboot(2)` command an action asks the kernel for.
pub open spec fn command_for(a: Action) -> i32 {
    match a {
        Action::Reboot => RB_AUTOBOOT,
        Action::PowerOff => RB_POWER_OFF,
        Action::Halt => RB_HALT_SYSTEM,
    }
}

impl Action {
    /// The name the action goes by in messages.
    pub fn name(self) -> (r: &'static str)
        ensures
            r@ == action_name(self),
    {
        match self {
            Action::Reboot => "reboot",
            Action::PowerOff => "poweroff",
            Action::Halt => "halt",
        }
    }

    /// The `reboot(2)` command the action asks the kernel for.
    pub fn kernel_command(self) -> (r: i32)
        ensures
            r == command_for(self),
    {
        match self {
            Action::Reboot => RB_AUTOBOOT,
            Action::PowerOff => RB_POWER_OFF,
            Action::Halt => RB_HALT_SYSTEM,
        }
    }
}

/// Each action asks the kernel for something different.
pub proof fn each_action_asks_for_something_different(a: Action, b: Action)
    requires
        a != b,
    ensures
        command_for(a) != command_for(b),
{
}

/// Each action has a name of its own, and none is empty.
pub proof fn each_action_has_a_name_of_its_own(a: Action, b: Action)
    ensures
        action_name(a).len() > 0,
        a != b ==> action_name(a) != action_name(b),
{
    reveal_strlit("reboot");
    reveal_strlit("poweroff");
    reveal_strlit("halt");
    if a != b {
        assert(action_name(a)[0] != action_name(b)[0] || action_name(a).len() != action_name(b).len());
    }
}

/// How far stopping everything has got.
#[derive(Clone, Copy, PartialEq, Eq, Debug, Structural)]
pub enum Phase {
    /// Nothing sent yet: first find out whether anything is left.
    Looking,
    /// `SIGTERM` went out; waiting until the deadline, once it is set.
    Asked(Option<u64>),
    /// `SIGKILL` went out; waiting until the deadline, once it is set.
    Killed(Option<u64>),
    /// Nothing is left to wait for.
    Over,
}

/// What to do next while stopping everything.
#[derive(Clone, Copy, PartialEq, Eq, Debug, Structural)]
pub enum Order {
    /// Send `SIGHUP` to every session leader, then `SIGTERM` and `SIGCONT` to everyone.
    AskToStop,
    /// Send `SIGKILL` to everyone.
    Kill,
    /// Wait for a signal, at most `CHECK_EVERY_MS`, then reap and report again.
    Wait,
    /// Every process is gone.
    Finish,
    /// Something outlived `SIGKILL`; go down regardless.
    GiveUp,
}

/// The phase and the order that follow `phase` once the children were
/// reaped at `now`, with children left or not.
pub open spec fn stopping_step(phase: Phase, children_left: bool, now: u64) -> (Phase, Order) {
    match phase {
        Phase::Looking => if children_left {
            (Phase::Asked(None), Order::AskToStop)
        } else {
            (Phase::Over, Order::Finish)
        },
        Phase::Asked(deadline) => {
            let d = match deadline {
                Some(d) => d,
                None => (now + GRACE_SECS) as u64,
            };
            if !children_left {
                (Phase::Over, Order::Finish)
            } else if now >= d {
                (Phase::Killed(None), Order::Kill)
            } else {
                (Phase::Asked(Some(d)), Order::Wait)
            }
        },
        Phase::Killed(deadline) => {
            let d = match deadline {
                Some(d) => d,
                None => (now + AFTER_KILL_SECS) as u64,
            };
            if !children_left {
                (Phase::Over, Order::Finish)
            } else if now >= d {
                (Phase::Over, Order::GiveUp)
            } else {
                (Phase::Killed(Some(d)), Order::Wait)
            }
        },
        Phase::Over => (Phase::Over, Order::Finish),
    }
}

/// The phase once the signals that `phase` asked for went out at `now`: the
/// wait that follows runs from that moment.
pub open spec fn sent_step(phase: Phase, now: u64) -> Phase {
    match phase {
        Phase::Asked(None) => Phase::Asked(Some((now + GRACE_SECS) as u64)),
        Phase::Killed(None) => Phase::Killed(Some((now + AFTER_KILL_SECS) as u64)),
        _ => phase,
    }
}

/// Stopping every process before going down: ask politely, wait out the
/// grace period, then kill, and wait a little more.
pub struct Stopping {
    pub phase: Phase,
}

impl Stopping {
    /// Stopping, before anything was looked at.
    pub fn new() -> (s: Stopping)
        ensures
            s.phase == Phase::Looking,
    {
        Stopping { phase: Phase::Looking }
    }

    /// The signals the last order asked for went out at `now`.
    pub fn sent(&mut self, now: u64)
        requires
            now <= u64::MAX - GRACE_SECS,
        ensures
            final(self).phase == sent_step(old(self).phase, now),
    {
        self.phase = match self.phase {
            Phase::Asked(None) => Phase::Asked(Some(now + GRACE_SECS)),
            Phase::Killed(None) => Phase::Killed(Some(now + AFTER_KILL_SECS)),
            other => other,
        };
    }

    /// The children were reaped at `now`, and some are `children_left` or
    /// not: what to do next.
    pub fn reaped(&mut self, children_left: bool, now: u64) -> (o: Order)
        requires
            now <= u64::MAX - GRACE_SECS,
        ensures
            (final(self).phase, o) == stopping_step(old(self).phase, children_left, now),
    {
        let (phase, order) = match self.phase {
            Phase::Looking => if children_left {
                (Phase::Asked(None), Order::AskToStop)
            } else {
                (Phase::Over, Order::Finish)
            },
            Phase::Asked(deadline) => {
                let d = match deadline {
                    Some(d) => d,
                    None => now + GRACE_SECS,
                };
                if !children_left {
                    (Phase::Over, Order::Finish)
                } else if now >= d {
                    (Phase::Killed(None), Order::Kill)
                } else {
                    (Phase::Asked(Some(d)), Order::Wait)
                }
            },
            Phase::Killed(deadline) => {
                let d = match deadline {
                    Some(d) => d,
                    None => now + AFTER_KILL_SECS,
                };
                if !children_left {
                    (Phase::Over, Order::Finish)
                } else if now >= d {
                    (Phase::Over, Order::GiveUp)
                } else {
                    (Phase::Killed(Some(d)), Order::Wait)
                }
            },
            Phase::Over => (Phase::Over, Order::Finish),
        };
        self.phase = phase;
        order
    }
}

/// With nothing left to stop, stopping ends at once, whatever the phase.
pub proof fn nothing_left_means_finished(phase: Phase, now: u64)
    requires
        phase != Phase::Over,
    ensures
        stopping_step(phase, false, now) == (Phase::Over, Order::Finish),
{
}

/// `SIGKILL` goes out only after the grace period is over, and nothing is
/// given up on before `SIGKILL` went out and its own wait is over.
pub proof fn kill_only_after_the_grace_period(phase: Phase, children_left: bool, now: u64)
    requires
        now <= u64::MAX - GRACE_SECS,
    ensures
        stopping_step(phase, children_left, now).1 == Order::Kill ==> {
            &&& phase is Asked
            &&& phase->Asked_0 is Some
            &&& now >= phase->Asked_0->0
        },
        stopping_step(phase, children_left, now).1 == Order::GiveUp ==> {
            &&& phase is Killed
            &&& phase->Killed_0 is Some
            &&& now >= phase->Killed_0->0
        },
{
}

/// The waits run from the moment the signals went out: `SIGKILL` follows
/// `SIGTERM` only once `GRACE_SECS` have passed since it was sent, and giving
/// up follows `SIGKILL` only `AFTER_KILL_SECS` after it was sent.
pub proof fn the_waits_run_from_the_signals(sent_at: u64, children_left: bool, now: u64)
    requires
        sent_at <= u64::MAX - GRACE_SECS,
    ensures
        stopping_step(sent_step(Phase::Asked(None), sent_at), children_left, now).1 == Order::Kill
            ==> now >= sent_at + GRACE_SECS,
        stopping_step(sent_step(Phase::Killed(None), sent_at), children_left, now).1 == Order::GiveUp
            ==> now >= sent_at + AFTER_KILL_SECS,
        stopping_step(sent_step(Phase::Asked(None), sent_at), children_left, now).0 is Asked
            ==> stopping_step(sent_step(Phase::Asked(None), sent_at), children_left, now).0
            == sent_step(Phase::Asked(None), sent_at),
{
}

} // verus!
