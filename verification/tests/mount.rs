use std::collections::HashSet;
use zevinit::mount::{already_mounted, count_failures, table, Attempt, EBUSY, MS_NODEV, MS_NOEXEC, MS_NOSUID, RO_ISH, TMPFS};

#[test]
fn targets_are_absolute_and_unique() {
    let mut seen = HashSet::new();
    for v in table() {
        assert!(v.target.starts_with('/'), "{} is not absolute", v.target);
        assert!(seen.insert(v.target), "{} shows up twice", v.target);
    }
}

#[test]
fn proc_and_sys_come_first() {
    assert_eq!(table()[0].target, "/proc");
    assert_eq!(table()[1].target, "/sys");
}

#[test]
fn nothing_is_mounted_suid() {
    for v in table() {
        assert!(
            v.flags & libc::MS_NOSUID != 0,
            "{} would let setuid bits through",
            v.target
        );
    }
}

#[test]
fn the_flags_are_the_kernel_ones() {
    assert_eq!(MS_NOSUID, libc::MS_NOSUID);
    assert_eq!(MS_NODEV, libc::MS_NODEV);
    assert_eq!(MS_NOEXEC, libc::MS_NOEXEC);
    assert_eq!(EBUSY, libc::EBUSY);
    assert_eq!(RO_ISH, libc::MS_NOSUID | libc::MS_NODEV | libc::MS_NOEXEC);
    assert_eq!(TMPFS, libc::MS_NOSUID | libc::MS_NODEV);
}

#[test]
fn a_busy_target_is_already_mounted() {
    assert!(already_mounted(Some(libc::EBUSY)));
    assert!(!already_mounted(Some(libc::ENOENT)));
    assert!(!already_mounted(None));
}

#[test]
fn the_options_are_the_ones_the_kernel_expects() {
    let t = table();
    assert_eq!(t.len(), 5);
    assert_eq!(t[2].fstype, "devtmpfs");
    assert_eq!(t[2].data, Some("mode=0755"));
    assert_eq!(t[4].target, "/tmp");
    assert_eq!(t[4].data, None);
}

#[test]
fn only_real_failures_are_counted() {
    let attempts = [
        Attempt::Mounted,
        Attempt::Refused(Some(EBUSY)),
        Attempt::NoDirectory,
        Attempt::Refused(Some(1)),
        Attempt::Refused(None),
    ];
    assert_eq!(count_failures(&attempts), 3);
    assert_eq!(count_failures(&[]), 0);
}

#[test]
fn mounting_over_mounted_targets_reports_nothing() {
    let second_run = [Attempt::Refused(Some(EBUSY)); 5];
    assert_eq!(count_failures(&second_run), 0);
    assert!(!Attempt::Refused(Some(EBUSY)).is_failure());
    assert!(Attempt::NoDirectory.is_failure());
}
