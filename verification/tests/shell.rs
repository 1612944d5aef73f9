use zevinit::proc::Spec;
use zevinit::shell::{candidates, Rescue, Verdict, STRIKES_BEFORE_MOVING_ON};

static FIRST: Spec = Spec {
    name: "shell",
    path: "/first",
    argv: &["first"],
    wants_own_session: true,
};
static SECOND: Spec = Spec {
    name: "shell",
    path: "/second",
    argv: &["second"],
    wants_own_session: true,
};

static NOWHERE: [Spec; 2] = [
    Spec {
        name: "shell",
        path: "/nonexistent/zevinit/sh",
        argv: &["sh"],
        wants_own_session: true,
    },
    Spec {
        name: "shell",
        path: "/",
        argv: &["/"],
        wants_own_session: true,
    },
];

fn two() -> Rescue {
    Rescue::over(vec![&FIRST, &SECOND]).expect("two candidates is not empty")
}

#[test]
fn with_nothing_available_there_is_no_rescue() {
    assert!(Rescue::over(Vec::new()).is_none());
}

#[test]
fn the_first_candidate_is_the_one_we_start_with() {
    assert_eq!(two().shell().path, "/first");
}

#[test]
fn a_couple_of_failures_are_not_enough_to_give_up_on_a_shell() {
    let mut rescue = two();
    for _ in 1..STRIKES_BEFORE_MOVING_ON {
        assert_eq!(rescue.failed(), Verdict::KeepTrying);
    }
    assert_eq!(rescue.shell().path, "/first");
}

#[test]
fn enough_failures_move_on_to_the_next_shell() {
    let mut rescue = two();
    let mut verdict = Verdict::KeepTrying;
    for _ in 0..STRIKES_BEFORE_MOVING_ON {
        verdict = rescue.failed();
    }
    assert_eq!(verdict, Verdict::MovedOn(&SECOND));
    assert_eq!(rescue.shell().path, "/second");
}

#[test]
fn surviving_wipes_the_slate() {
    let mut rescue = two();
    for _ in 1..STRIKES_BEFORE_MOVING_ON {
        rescue.failed();
    }
    rescue.survived();
    for _ in 1..STRIKES_BEFORE_MOVING_ON {
        assert_eq!(rescue.failed(), Verdict::KeepTrying);
    }
    assert_eq!(rescue.shell().path, "/first");
}

#[test]
fn running_out_of_shells_is_the_end_of_the_road() {
    let mut rescue = Rescue::over(vec![&FIRST]).expect("one candidate is not empty");
    let mut verdict = Verdict::KeepTrying;
    for _ in 0..STRIKES_BEFORE_MOVING_ON {
        verdict = rescue.failed();
    }
    assert_eq!(verdict, Verdict::OutOfOptions);
}

#[test]
fn every_candidate_passes_its_own_name_as_argv0() {
    for shell in candidates() {
        let argv0 = shell.argv.first().expect("a shell needs an argv[0]");
        assert!(
            shell.path.ends_with(argv0),
            "{} would be exec'd as {argv0:?}, which picks the wrong busybox applet",
            shell.path
        );
    }
}

#[test]
fn every_candidate_gets_its_own_session() {
    for shell in candidates() {
        assert!(shell.wants_own_session, "{} needs job control", shell.path);
    }
}

#[test]
fn the_fallback_is_not_the_same_binary_as_the_first_choice() {
    assert!(
        candidates().len() > 1,
        "a single shell leaves nothing to fall back to"
    );
    assert_ne!(candidates()[0].path, candidates()[1].path);
}

#[test]
fn giving_up_stays_given_up_until_a_shell_lives() {
    let mut rescue = Rescue::over(vec![&FIRST]).expect("one candidate is not empty");
    for _ in 0..STRIKES_BEFORE_MOVING_ON {
        rescue.failed();
    }
    assert_eq!(rescue.failed(), Verdict::OutOfOptions);
    assert_eq!(rescue.failed(), Verdict::OutOfOptions);
    rescue.survived();
    assert_eq!(rescue.failed(), Verdict::KeepTrying);
}

#[test]
fn the_last_shell_is_not_left_for_the_first() {
    let mut rescue = two();
    for _ in 0..STRIKES_BEFORE_MOVING_ON {
        rescue.failed();
    }
    let mut verdict = Verdict::KeepTrying;
    for _ in 0..STRIKES_BEFORE_MOVING_ON {
        verdict = rescue.failed();
    }
    assert_eq!(verdict, Verdict::OutOfOptions);
    assert_eq!(rescue.shell().path, "/second");
}

#[test]
fn only_shells_that_are_on_disk_are_used() {
    let rescue = Rescue::new(&NOWHERE).expect("/ is always there");
    assert_eq!(rescue.shell().path, "/");
    assert!(Rescue::new(&NOWHERE[..1]).is_none());
}

#[test]
fn the_candidates_are_the_documented_shells() {
    let c = candidates();
    assert_eq!(c[0].path, "/bin/sh");
    assert_eq!(c[0].argv, &["sh"]);
    assert_eq!(c[1].path, "/bin/busybox");
    assert_eq!(c[1].argv, &["busybox", "sh"]);
}

static THREE: [Spec; 3] = [
    Spec {
        name: "shell",
        path: "/a",
        argv: &["a"],
        wants_own_session: true,
    },
    Spec {
        name: "shell",
        path: "/b",
        argv: &["b"],
        wants_own_session: true,
    },
    Spec {
        name: "shell",
        path: "/c",
        argv: &["c"],
        wants_own_session: true,
    },
];

#[test]
fn the_answers_decide_which_shells_are_used_in_order() {
    assert!(Rescue::from_answers(&THREE, &[false, false, false]).is_none());
    let mut rescue = Rescue::from_answers(&THREE, &[true, false, true]).expect("two present");
    assert_eq!(rescue.shell().path, "/a");
    let mut verdict = Verdict::KeepTrying;
    for _ in 0..STRIKES_BEFORE_MOVING_ON {
        verdict = rescue.failed();
    }
    assert_eq!(verdict, Verdict::MovedOn(&THREE[2]));
    let only_last = Rescue::from_answers(&THREE, &[false, false, true]).expect("one present");
    assert_eq!(only_last.shell().path, "/c");
}

#[test]
fn only_the_failures_since_the_latest_survival_or_move_count() {
    let mut r = two();
    assert_eq!(r.failed(), Verdict::KeepTrying);
    assert_eq!(r.failed(), Verdict::KeepTrying);
    r.survived();
    assert_eq!(r.failed(), Verdict::KeepTrying);
    assert_eq!(r.failed(), Verdict::KeepTrying);
    assert_eq!(r.failed(), Verdict::MovedOn(&SECOND));
    assert_eq!(r.shell().path, "/second");
    assert_eq!(r.failed(), Verdict::KeepTrying);
    assert_eq!(r.failed(), Verdict::KeepTrying);
    assert_eq!(r.failed(), Verdict::OutOfOptions);
    assert_eq!(r.failed(), Verdict::OutOfOptions);
    assert_eq!(r.shell().path, "/second");
}
