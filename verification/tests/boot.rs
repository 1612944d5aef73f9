use zevinit::boot::{banner, parked_console, parked_log, Outcome, Supervisor, BACKOFF_CHECK_MS};
use zevinit::power::Action;
use zevinit::shell::Rescue;
use zevinit::signal::{self, Request, UNTIL_SOMETHING_ARRIVES, WATCHED};

#[test]
fn every_shutdown_signal_maps_to_an_action_with_a_name() {
    for &s in WATCHED.iter() {
        if let Request::Shutdown(action) = signal::classify(s) {
            let n = action.name();
            assert!(!n.is_empty(), "action for signal {s} has an empty name");
        }
    }
}

#[test]
fn signal_classify_never_returns_unknown_for_watched() {
    for &s in WATCHED.iter() {
        assert_ne!(
            signal::classify(s),
            Request::Unknown(s),
            "signal {s} is watched but classify returns Unknown"
        );
    }
}

#[test]
fn halt_poweroff_reboot_have_distinct_names() {
    let names: Vec<&str> = [Action::Halt, Action::PowerOff, Action::Reboot]
        .iter()
        .map(|a| a.name())
        .collect();
    let unique: std::collections::HashSet<&str> = names.iter().copied().collect();
    assert_eq!(names.len(), unique.len());
}

#[test]
fn the_banner_counts_what_did_not_mount() {
    assert_eq!(banner(0), "\nZevory Linux\n\n");
    assert_eq!(
        banner(2),
        "\nZevory Linux\n\n  2 filesystem(s) did not mount, look above for which\n\n"
    );
}

#[test]
fn the_ready_marker_is_what_the_boot_check_looks_for() {
    assert_eq!(zevinit::boot::READY_MARKER, "bootstrap OK, shell ready");
}

static ONLY: zevinit::proc::Spec = zevinit::proc::Spec {
    name: "shell",
    path: "/only",
    argv: &["only"],
    wants_own_session: true,
};

static NEXT: zevinit::proc::Spec = zevinit::proc::Spec {
    name: "shell",
    path: "/next",
    argv: &["next"],
    wants_own_session: true,
};

#[test]
fn the_shell_is_started_when_nothing_runs_and_its_wait_is_over() {
    let supervisor = Supervisor::new(Rescue::over(vec![&ONLY]).expect("one shell"));
    let idle = supervisor.plan(0, 0);
    assert!(idle.spawn);
    assert_eq!(idle.wait_ms, BACKOFF_CHECK_MS);
    let busy = supervisor.plan(1, 0);
    assert!(!busy.spawn);
    assert_eq!(busy.wait_ms, UNTIL_SOMETHING_ARRIVES);
}

#[test]
fn a_quick_death_holds_the_next_start_back() {
    let mut supervisor = Supervisor::new(Rescue::over(vec![&ONLY, &NEXT]).expect("two shells"));
    assert_eq!(supervisor.reaped(Some(0), 10), Outcome::Steady);
    assert!(!supervisor.plan(0, 10).spawn);
    assert!(supervisor.plan(0, 11).spawn);
    assert_eq!(supervisor.reaped(None, 11), Outcome::Steady);
    assert_eq!(supervisor.reaped(Some(0), 12), Outcome::Steady);
    assert_eq!(
        supervisor.reaped(Some(0), 13),
        Outcome::FellBack { dying: "/only", next: "/next" }
    );
    assert_eq!(supervisor.rescue().shell().path, "/next");
    assert_eq!(supervisor.reaped(Some(5), 14), Outcome::Steady);
    for now in 15..17 {
        assert_eq!(supervisor.reaped(Some(0), now), Outcome::Steady);
    }
    assert_eq!(supervisor.reaped(Some(0), 17), Outcome::Stranded { dying: "/next" });
}

#[test]
fn parking_says_why_and_the_way_out() {
    assert_eq!(
        parked_log("no shell in the initramfs"),
        "no shell in the initramfs, so there is nothing left to do. parked"
    );
    assert_eq!(
        parked_console("no shell in the initramfs", true),
        "\nzevinit: no shell in the initramfs, so there is nothing left to do.\npress ctrl+alt+del to reboot\n"
    );
    assert_eq!(
        parked_console("x", false),
        "\nzevinit: x, so there is nothing left to do.\npower cycle the machine\n"
    );
}
