use std::collections::HashSet;
use zevinit::power::Action;
use zevinit::proc::Table;
use zevinit::signal::{
    classify, name, Harvest, Reaping, Request, SIGCHLD, SIGCONT, SIGHUP, SIGINT, SIGKILL, SIGPWR, SIGSTOP,
    SIGTERM, SIGUSR1, SIGUSR2, SIGWINCH, WATCHED,
};

#[test]
fn busybox_halt_poweroff_and_reboot_land_where_they_should() {
    assert_eq!(classify(libc::SIGUSR1), Request::Shutdown(Action::Halt));
    assert_eq!(classify(libc::SIGUSR2), Request::Shutdown(Action::PowerOff));
    assert_eq!(classify(libc::SIGTERM), Request::Shutdown(Action::Reboot));
}

#[test]
fn ctrl_alt_del_reboots_and_power_failure_halts() {
    assert_eq!(classify(libc::SIGINT), Request::Shutdown(Action::Reboot));
    assert_eq!(classify(libc::SIGPWR), Request::Shutdown(Action::Halt));
}

#[test]
fn every_watched_signal_means_something() {
    for &s in WATCHED.iter() {
        assert_ne!(
            classify(s),
            Request::Unknown(s),
            "{} is watched but nothing happens when it arrives",
            name(s)
        );
    }
}

#[test]
fn every_watched_signal_has_a_name() {
    for &s in WATCHED.iter() {
        assert_ne!(
            name(s),
            "an unwatched signal",
            "signal {s} prints as a stranger"
        );
    }
}

#[test]
fn children_are_still_watched() {
    assert!(
        WATCHED.contains(&libc::SIGCHLD),
        "without SIGCHLD nothing gets reaped and children pile up as zombies"
    );
}

#[test]
fn no_signal_is_watched_twice() {
    let mut seen = HashSet::new();
    for &s in WATCHED.iter() {
        assert!(seen.insert(s), "{} shows up twice", name(s));
    }
}

#[test]
fn the_unblockable_signals_are_left_alone() {
    for s in [libc::SIGKILL, libc::SIGSTOP] {
        assert!(
            !WATCHED.contains(&s),
            "signal {s} cannot be blocked, watching it would silently do nothing"
        );
    }
}

#[test]
fn an_unwatched_signal_stays_unknown() {
    assert_eq!(classify(libc::SIGWINCH), Request::Unknown(libc::SIGWINCH));
}

#[test]
fn the_signal_numbers_are_the_kernel_ones() {
    assert_eq!(SIGHUP, libc::SIGHUP);
    assert_eq!(SIGINT, libc::SIGINT);
    assert_eq!(SIGKILL, libc::SIGKILL);
    assert_eq!(SIGUSR1, libc::SIGUSR1);
    assert_eq!(SIGUSR2, libc::SIGUSR2);
    assert_eq!(SIGTERM, libc::SIGTERM);
    assert_eq!(SIGCHLD, libc::SIGCHLD);
    assert_eq!(SIGCONT, libc::SIGCONT);
    assert_eq!(SIGSTOP, libc::SIGSTOP);
    assert_eq!(SIGWINCH, libc::SIGWINCH);
    assert_eq!(SIGPWR, libc::SIGPWR);
}

#[test]
fn a_child_changing_and_a_reload_are_told_apart() {
    assert_eq!(classify(libc::SIGCHLD), Request::ChildChanged);
    assert_eq!(classify(libc::SIGHUP), Request::Reload);
    assert_eq!(name(libc::SIGHUP), "SIGHUP");
    assert_eq!(name(libc::SIGWINCH), "an unwatched signal");
}

#[test]
fn reaping_reports_each_child_and_the_shortest_life() {
    let mut table = Table::new();
    table.track("shell", 100, true, 10);
    table.track("worker", 101, false, 12);
    table.track("late", 102, false, 0);
    let mut reaping = Reaping::new();
    assert_eq!(reaping.child(&mut table, 100, 3 << 8, 15), "shell [100] exited with 3 after 5s");
    assert_eq!(reaping.child(&mut table, 101, 9, 14), "worker [101] killed by signal 9 after 2s");
    assert_eq!(reaping.child(&mut table, 4242, 0, 14), "reaped orphan [4242]");
    assert_eq!(reaping.shortest_life, Some(2));
    let harvest = reaping.finish(&mut table, true);
    assert_eq!(harvest, Harvest { shortest_life: Some(2), children_left: true });
    assert_eq!(table.running(), 1);
}

#[test]
fn reaping_nothing_reports_no_life() {
    let mut table = Table::new();
    let harvest = Reaping::new().finish(&mut table, false);
    assert_eq!(harvest.shortest_life, None);
    assert!(!harvest.children_left);
}

#[test]
fn a_child_with_no_exit_code_is_written_with_minus_one() {
    let mut table = Table::new();
    table.track("odd", 5, false, 0);
    let mut reaping = Reaping::new();
    assert_eq!(reaping.child(&mut table, 5, 0x137f, 0), "odd [5] exited with -1 after 0s");
}
