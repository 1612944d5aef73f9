use std::collections::HashSet;
use zevinit::power::{
    Action, Order, Stopping, AFTER_KILL_SECS, GRACE_SECS, RB_AUTOBOOT, RB_HALT_SYSTEM, RB_POWER_OFF,
};
use zevinit::signal::{classify, Request, WATCHED};

#[test]
fn each_action_asks_the_kernel_for_something_different() {
    let mut seen = HashSet::new();
    for action in [Action::Reboot, Action::PowerOff, Action::Halt] {
        assert!(
            seen.insert(action.kernel_command()),
            "{} shares its reboot(2) command with another action",
            action.name()
        );
    }
}

#[test]
fn the_kernel_commands_are_the_ones_we_mean() {
    assert_eq!(Action::Reboot.kernel_command(), libc::RB_AUTOBOOT);
    assert_eq!(Action::PowerOff.kernel_command(), libc::RB_POWER_OFF);
    assert_eq!(Action::Halt.kernel_command(), libc::RB_HALT_SYSTEM);
}

#[test]
fn nothing_but_a_shutdown_signal_brings_the_machine_down() {
    let down: Vec<libc::c_int> = WATCHED
        .iter()
        .copied()
        .filter(|&s| matches!(classify(s), Request::Shutdown(_)))
        .collect();
    assert_eq!(
        down,
        vec![
            libc::SIGTERM,
            libc::SIGINT,
            libc::SIGUSR1,
            libc::SIGUSR2,
            libc::SIGPWR
        ]
    );
}

#[test]
fn every_action_is_reachable_from_a_signal() {
    let reached: HashSet<Action> = WATCHED
        .iter()
        .filter_map(|&s| match classify(s) {
            Request::Shutdown(a) => Some(a),
            _ => None,
        })
        .collect();
    for action in [Action::Reboot, Action::PowerOff, Action::Halt] {
        assert!(
            reached.contains(&action),
            "no signal ever asks for {}",
            action.name()
        );
    }
}

#[test]
fn the_reboot_commands_are_the_kernel_ones() {
    assert_eq!(RB_AUTOBOOT, libc::RB_AUTOBOOT);
    assert_eq!(RB_POWER_OFF, libc::RB_POWER_OFF);
    assert_eq!(RB_HALT_SYSTEM, libc::RB_HALT_SYSTEM);
}

#[test]
fn stopping_with_nothing_running_finishes_at_once() {
    let mut stopping = Stopping::new();
    assert_eq!(stopping.reaped(false, 100), Order::Finish);
    assert_eq!(stopping.reaped(true, 200), Order::Finish);
}

#[test]
fn stopping_asks_then_waits_out_the_grace_then_kills() {
    let mut stopping = Stopping::new();
    assert_eq!(stopping.reaped(true, 100), Order::AskToStop);
    assert_eq!(stopping.reaped(true, 100), Order::Wait);
    assert_eq!(stopping.reaped(true, 100 + GRACE_SECS - 1), Order::Wait);
    assert_eq!(stopping.reaped(true, 100 + GRACE_SECS), Order::Kill);
    assert_eq!(stopping.reaped(true, 200), Order::Wait);
    assert_eq!(stopping.reaped(true, 200 + AFTER_KILL_SECS), Order::GiveUp);
    assert_eq!(stopping.reaped(true, 300), Order::Finish);
}

#[test]
fn stopping_ends_as_soon_as_everything_is_gone() {
    let mut stopping = Stopping::new();
    assert_eq!(stopping.reaped(true, 0), Order::AskToStop);
    assert_eq!(stopping.reaped(true, 1), Order::Wait);
    assert_eq!(stopping.reaped(false, 2), Order::Finish);
}

#[test]
fn the_actions_have_their_names() {
    assert_eq!(Action::Reboot.name(), "reboot");
    assert_eq!(Action::PowerOff.name(), "poweroff");
    assert_eq!(Action::Halt.name(), "halt");
}

#[test]
fn the_grace_period_runs_from_when_the_signals_went_out() {
    let mut stopping = Stopping::new();
    assert_eq!(stopping.reaped(true, 100), Order::AskToStop);
    stopping.sent(101);
    assert_eq!(stopping.reaped(true, 100 + GRACE_SECS), Order::Wait);
    assert_eq!(stopping.reaped(true, 101 + GRACE_SECS), Order::Kill);
    stopping.sent(110);
    assert_eq!(stopping.reaped(true, 109 + AFTER_KILL_SECS), Order::Wait);
    assert_eq!(stopping.reaped(true, 110 + AFTER_KILL_SECS), Order::GiveUp);
}
