use zevinit::proc::{state_from, State, Table};

fn exited(code: i32) -> libc::c_int {
    code << 8
}

fn killed(signal: i32) -> libc::c_int {
    signal
}

#[test]
fn a_normal_exit_keeps_its_code() {
    assert_eq!(state_from(exited(0)), State::Exited(0));
    assert_eq!(state_from(exited(127)), State::Exited(127));
}

#[test]
fn a_signal_death_is_not_an_exit() {
    assert_eq!(state_from(killed(libc::SIGKILL)), State::Killed(libc::SIGKILL));
    assert_eq!(state_from(killed(libc::SIGTERM)), State::Killed(libc::SIGTERM));
}

#[test]
fn an_unknown_pid_is_not_recorded() {
    let mut table = Table::new();
    table.track("shell", 100, false, 0);
    assert!(table.record_exit(4242, exited(0), 0).is_none());
    assert_eq!(table.running(), 1);
}

#[test]
fn recording_an_exit_stops_counting_it_as_running() {
    let mut table = Table::new();
    table.track("shell", 100, false, 0);
    assert_eq!(table.running(), 1);

    let gone = table.record_exit(100, exited(3), 0).expect("100 was tracked");
    assert_eq!(gone.name, "shell");
    assert_eq!(gone.pid, 100);
    assert_eq!(gone.state, State::Exited(3));
    assert_eq!(table.running(), 0);
}

#[test]
fn the_same_pid_is_not_reaped_twice() {
    let mut table = Table::new();
    table.track("shell", 100, false, 0);
    assert!(table.record_exit(100, exited(0), 0).is_some());
    assert!(table.record_exit(100, exited(0), 0).is_none());
}

#[test]
fn a_recycled_pid_lands_on_the_live_entry() {
    let mut table = Table::new();
    table.track("first", 100, false, 0);
    table.record_exit(100, exited(0), 0);
    table.track("second", 100, false, 0);

    let gone = table.record_exit(100, exited(9), 0).expect("the live 100");
    assert_eq!(gone.name, "second");
    assert_eq!(table.running(), 0);
}

#[test]
fn several_children_are_tracked_independently() {
    let mut table = Table::new();
    for pid in 200..205 {
        table.track("worker", pid, false, 0);
    }
    assert_eq!(table.running(), 5);

    for pid in 200..205 {
        assert!(table.record_exit(pid, exited(0), 0).is_some());
    }
    assert_eq!(table.running(), 0);
}

#[test]
fn forgetting_drops_the_dead_and_keeps_the_living() {
    let mut table = Table::new();
    table.track("dead", 100, false, 0);
    table.track("alive", 101, false, 0);
    table.record_exit(100, exited(0), 0);

    table.forget_finished();
    assert_eq!(table.running(), 1);
    assert!(table.record_exit(101, exited(0), 0).is_some());
    assert!(table.record_exit(100, exited(0), 0).is_none());
}

#[test]
fn only_live_session_leaders_get_hung_up() {
    let mut table = Table::new();
    table.track("plain", 100, false, 0);
    table.track("leader", 101, true, 0);
    table.track("dead leader", 102, true, 0);
    table.record_exit(102, exited(0), 0);

    assert_eq!(table.session_leaders(), vec![101]);
}

#[test]
fn a_table_with_no_sessions_hangs_nothing_up() {
    let mut table = Table::new();
    table.track("plain", 100, false, 0);
    assert!(table.session_leaders().is_empty());
}

#[test]
fn an_empty_table_has_nothing_running() {
    let mut table = Table::new();
    assert_eq!(table.running(), 0);
    table.forget_finished();
    assert_eq!(table.running(), 0);
}

#[test]
fn how_long_a_child_ran_comes_from_the_clock() {
    let mut table = Table::new();
    table.track("shell", 100, true, 40);
    let gone = table.record_exit(100, exited(0), 43).expect("tracked");
    assert_eq!(gone.ran_for, 3);
    table.track("shell", 101, true, 50);
    let early = table.record_exit(101, exited(0), 10).expect("tracked");
    assert_eq!(early.ran_for, 0, "a clock that went backwards counts as no time");
}

#[test]
fn the_wait_status_is_read_as_the_kernel_writes_it() {
    for status in [0, 1 << 8, 255 << 8, 9, 15, 0x7f, 0x137f, 0x80 | 9] {
        let expected = if libc::WIFEXITED(status) {
            State::Exited(libc::WEXITSTATUS(status))
        } else if libc::WIFSIGNALED(status) {
            State::Killed(libc::WTERMSIG(status))
        } else {
            State::Exited(-1)
        };
        assert_eq!(state_from(status), expected, "status {status:#x}");
    }
    assert_eq!(state_from(0x137f), State::Exited(-1), "a stopped child");
    assert_eq!(state_from(0x80 | 9), State::Killed(9), "a core dump keeps the signal");
}

#[test]
fn a_departure_says_how_the_child_ended() {
    let mut table = Table::new();
    table.track("shell", 7, false, 0);
    let gone = table.record_exit(7, killed(libc::SIGKILL), 2).expect("tracked");
    assert_eq!(gone.state, State::Killed(libc::SIGKILL));
    assert_eq!(table.running(), 0);
}
