use zevinit::unit::{places, Kind, Meta, Place, Problem, Restart, Service, Spot, Unit};

const SMALLEST: &str = r#"
[unit]
description = "Mount /dev"
[service]
start = "/bin/mount -t devtmpfs devtmpfs /dev"
"#;

fn document(unit_extra: &str, service_extra: &str) -> String {
    format!(
        "[unit]\ndescription = \"Mount /dev\"\n{unit_extra}\n\
         [service]\nstart = \"/bin/mount -t devtmpfs devtmpfs /dev\"\n{service_extra}\n"
    )
}

fn meta(description: &str) -> Meta {
    Meta {
        description: description.to_owned(),
        requires: Vec::new(),
        wants: Vec::new(),
        after: Vec::new(),
        before: Vec::new(),
        conflicts: Vec::new(),
    }
}

fn service(start: &str) -> Service {
    Service {
        start: start.to_owned(),
        stop: None,
        kind: None,
        restart: None,
        restart_delay: None,
        restart_limit: None,
        start_timeout: None,
        stop_timeout: None,
        directory: None,
        environment: Vec::new(),
    }
}

fn names(list: &[&str]) -> Vec<String> {
    list.iter().map(|n| (*n).to_owned()).collect()
}

fn assemble(text: &str, meta: Meta, service: Service) -> Result<Unit, String> {
    Unit::assemble("test".to_owned(), "units/test.toml", text, meta, service).map_err(|e| e.to_string())
}

fn smallest_with(extra: &str, change: impl FnOnce(&mut Service)) -> Result<Unit, String> {
    let mut s = service("/bin/mount -t devtmpfs devtmpfs /dev");
    change(&mut s);
    assemble(&document("", extra), meta("Mount /dev"), s)
}

fn related_by(extra: &str, change: impl FnOnce(&mut Meta)) -> Result<Unit, String> {
    let mut m = meta("Mount /dev");
    change(&mut m);
    assemble(&document(extra, ""), m, service("/bin/mount -t devtmpfs devtmpfs /dev"))
}

#[test]
fn a_minimal_unit_gets_the_documented_defaults() {
    let unit = assemble(SMALLEST, meta("Mount /dev"), service("/bin/mount -t devtmpfs devtmpfs /dev"))
        .expect("the smallest unit is valid");
    assert_eq!(unit.kind, Kind::Simple);
    assert_eq!(unit.restart, Restart::Never);
    assert_eq!(unit.restart_delay, 1);
    assert_eq!(unit.restart_limit, 5);
    assert_eq!(unit.start_timeout, 30);
    assert_eq!(unit.stop_timeout, 10);
    assert!(unit.requires.is_empty());
    assert_eq!(unit.stop, None);
}

#[test]
fn the_name_comes_from_the_file_not_the_contents() {
    assert_eq!(Unit::name_from_file("zevlog.toml"), Some("zevlog"));
    assert_eq!(Unit::name_from_file("zevlog.conf"), None);
    assert_eq!(Unit::name_from_file(".toml"), None);
}

#[test]
fn an_empty_start_says_so_plainly() {
    let blank = "[unit]\ndescription = \"x\"\n[service]\nstart = \"   \"\n";
    let complaint = assemble(blank, meta("x"), service("   ")).expect_err("blank start");
    assert!(complaint.contains("nothing to run"), "{complaint}");
}

#[test]
fn a_unit_cannot_depend_on_itself() {
    let complaint =
        related_by("after = [\"test\"]", |m| m.after = names(&["test"])).expect_err("self reference");
    assert!(complaint.contains("this unit itself"), "{complaint}");
}

#[test]
fn a_relation_listed_twice_is_refused() {
    let complaint =
        related_by("wants = [\"a\", \"a\"]", |m| m.wants = names(&["a", "a"])).expect_err("duplicate");
    assert!(complaint.contains("twice"), "{complaint}");
}

#[test]
fn requiring_and_conflicting_with_the_same_unit_is_refused() {
    let complaint = related_by("requires = [\"a\"]\nconflicts = [\"a\"]", |m| {
        m.requires = names(&["a"]);
        m.conflicts = names(&["a"]);
    })
    .expect_err("contradiction");
    assert!(complaint.contains("conflicts and also in requires"), "{complaint}");
}

#[test]
fn asking_for_restarts_with_a_limit_of_zero_is_refused() {
    let complaint = smallest_with("restart = \"always\"\nrestart_limit = 0", |s| {
        s.restart = Some(Restart::Always);
        s.restart_limit = Some(0);
    })
    .expect_err("contradiction");
    assert!(complaint.contains("forbids them at once"), "{complaint}");
}

#[test]
fn a_zero_timeout_is_refused() {
    let complaint =
        smallest_with("start_timeout = 0", |s| s.start_timeout = Some(0)).expect_err("zero timeout");
    assert!(complaint.contains("start_timeout"), "{complaint}");
}

#[test]
fn an_environment_entry_without_an_equals_sign_is_refused() {
    let complaint = smallest_with("environment = [\"PATH\"]", |s| s.environment = names(&["PATH"]))
        .expect_err("no equals");
    assert!(complaint.contains("NAME=value"), "{complaint}");
}

#[test]
fn a_oneshot_that_always_restarts_is_a_contradiction() {
    let complaint = smallest_with("kind = \"oneshot\"\nrestart = \"always\"", |s| {
        s.kind = Some(Kind::Oneshot);
        s.restart = Some(Restart::Always);
    })
    .expect_err("oneshot cannot run forever");
    assert!(complaint.contains("never stop running"), "{complaint}");
}

#[test]
fn the_restart_policies_mean_what_they_say() {
    assert!(!Restart::Never.wants_another_try(false));
    assert!(!Restart::OnFailure.wants_another_try(true));
    assert!(Restart::OnFailure.wants_another_try(false));
    assert!(Restart::Always.wants_another_try(true));
}

#[test]
fn a_complaint_points_at_a_line_and_shows_it() {
    let complaint =
        smallest_with("start_timeout = 0", |s| s.start_timeout = Some(0)).expect_err("zero timeout");
    assert!(complaint.contains("start_timeout = 0"), "{complaint}");
    assert!(complaint.contains('^'), "{complaint}");
}

#[test]
fn a_complaint_is_drawn_exactly() {
    let complaint =
        smallest_with("start_timeout = 0", |s| s.start_timeout = Some(0)).expect_err("zero timeout");
    assert_eq!(
        complaint,
        "units/test.toml:6:1: start_timeout is 0, which would give up before the process starts\n  |\n6 | start_timeout = 0\n  | ^"
    );
}

#[test]
fn the_rules_are_checked_in_order_and_the_first_one_broken_is_reported() {
    let complaint = smallest_with("stop_timeout = 0\nenvironment = [\"PATH\"]", |s| {
        s.stop_timeout = Some(0);
        s.environment = names(&["PATH"]);
    })
    .expect_err("two rules broken");
    assert!(complaint.contains("stop_timeout is 0"), "{complaint}");
    assert!(!complaint.contains("NAME=value"), "{complaint}");
}

#[test]
fn an_empty_name_in_a_relation_is_refused() {
    let complaint =
        related_by("before = [\" \"]", |m| m.before = names(&[" "])).expect_err("blank name");
    assert!(complaint.contains("before has an empty name in it"), "{complaint}");
}

#[test]
fn a_blank_description_is_refused() {
    let complaint = assemble(SMALLEST, meta("  "), service("/bin/true")).expect_err("blank description");
    assert!(complaint.contains("description is empty"), "{complaint}");
}

#[test]
fn an_environment_complaint_quotes_the_entry() {
    let complaint = smallest_with("environment = [\"PA\\\"TH\"]", |s| s.environment = names(&["PA\"TH"]))
        .expect_err("no equals");
    assert!(complaint.contains("environment entry \"PA\\\"TH\" has no '='"), "{complaint}");
}

#[test]
fn a_complaint_without_its_key_in_the_text_has_no_spot() {
    let complaint = assemble("", meta("x"), service("   ")).expect_err("blank start");
    assert_eq!(complaint, "units/test.toml: start is empty, so there is nothing to run");
}

#[test]
fn set_values_win_over_the_defaults() {
    let mut s = service("/bin/true");
    s.kind = Some(Kind::Oneshot);
    s.restart = Some(Restart::OnFailure);
    s.restart_delay = Some(7);
    s.restart_limit = Some(2);
    s.start_timeout = Some(3);
    s.stop_timeout = Some(4);
    let unit = assemble("", meta("x"), s).expect("valid");
    assert_eq!(unit.kind, Kind::Oneshot);
    assert_eq!(unit.restart, Restart::OnFailure);
    assert_eq!((unit.restart_delay, unit.restart_limit, unit.start_timeout, unit.stop_timeout), (7, 2, 3, 4));
    assert_eq!(unit.name, "test");
}

#[test]
fn a_unit_needs_what_it_requires_then_what_it_wants() {
    let mut m = meta("x");
    m.requires = names(&["b", "a"]);
    m.wants = names(&["c"]);
    let unit = assemble("", m, service("/bin/true")).expect("valid");
    assert_eq!(unit.needs(), names(&["b", "a", "c"]));
}

#[test]
fn a_spot_is_found_by_byte() {
    let text = "[unit]\ndescription = \"x\"\nrequiers = []\n";
    let spot = Spot::of_byte(text, 25).expect("byte 25 starts line 3");
    assert_eq!((spot.line, spot.column, spot.text.as_str()), (3, 1, "requiers = []"));
    let inside = Spot::of_byte(text, 28).expect("a byte within line 3");
    assert_eq!((inside.line, inside.column), (3, 4));
    assert!(Spot::of_byte(text, 100).is_none());
    assert!(Spot::of_byte("é", 1).is_none(), "inside a char");
    assert!(Spot::of_byte(text, text.len()).is_none(), "after the last line");
}

#[test]
fn a_column_counts_chars_not_bytes() {
    let text = "name = \"é\" oops\n";
    let spot = Spot::of_byte(text, 12).expect("the o of oops");
    assert_eq!((spot.line, spot.column), (1, 12));
}

#[test]
fn a_complaint_points_where_the_parser_found_the_key() {
    let text = "[service]\nstart_timeout = 0\nstart=\"  \"\n";
    let complaint = assemble(text, meta("x"), service("  ")).expect_err("blank start");
    assert_eq!(
        complaint,
        "units/test.toml:3:1: start is empty, so there is nothing to run\n  |\n3 | start=\"  \"\n  | ^"
    );
}

#[test]
fn a_key_in_an_inline_table_is_pointed_at() {
    let text = "unit = { description = \"x\" }\nservice = { start = \" \" }\n";
    let complaint = assemble(text, meta("x"), service(" ")).expect_err("blank start");
    assert_eq!(
        complaint,
        "units/test.toml:2:13: start is empty, so there is nothing to run\n  |\n2 | service = { start = \" \" }\n  |             ^"
    );
}

#[test]
fn a_quoted_key_is_pointed_at() {
    let text = "[unit]\ndescription = \"x\"\n[service]\n\"start\" = \"  \"\n";
    let complaint = assemble(text, meta("x"), service("  ")).expect_err("blank start");
    assert_eq!(
        complaint,
        "units/test.toml:4:1: start is empty, so there is nothing to run\n  |\n4 | \"start\" = \"  \"\n  | ^"
    );
}

#[test]
fn a_dotted_key_is_pointed_at() {
    let text = "unit.description = \"x\"\nservice.start = \" \"\n";
    let complaint = assemble(text, meta("x"), service(" ")).expect_err("blank start");
    assert!(complaint.starts_with("units/test.toml:2:9: start is empty"), "{complaint}");
}

#[test]
fn a_line_inside_a_string_is_not_taken_for_a_key() {
    let text = "[unit]\ndescription = \"\"\"\nstart = inside\n\"\"\"\n[service]\nstart = \" \"\n";
    let complaint = assemble(text, meta("x"), service(" ")).expect_err("blank start");
    assert!(complaint.starts_with("units/test.toml:6:1: start is empty"), "{complaint}");
}

#[test]
fn the_places_are_the_unit_and_service_keys_where_the_parser_found_them() {
    let text = "[other]\nstart = 1\n[unit]\ndescription = \"x\"\n[service]\n  start = \"y\"\n";
    let found = places(text);
    assert_eq!(
        found,
        vec![
            Place { key: "start".to_owned(), byte: 55 },
            Place { key: "description".to_owned(), byte: 25 },
        ]
    );
    assert!(places("[unit\n").is_empty(), "text the parser refuses has no places");
}

#[test]
fn an_indented_key_is_pointed_at_where_it_starts() {
    let text = "[service]\nstart = \"/bin/true\"\n  restart = \"always\"\n  restart_limit = 0\n";
    let mut s = service("/bin/true");
    s.restart = Some(Restart::Always);
    s.restart_limit = Some(0);
    let complaint = assemble(text, meta("x"), s).expect_err("contradiction");
    assert_eq!(
        complaint,
        "units/test.toml:4:3: restart_limit is 0, which asks for restarts and forbids them at once\n  |\n4 |   restart_limit = 0\n  |   ^"
    );
}

#[test]
fn the_noise_of_a_parser_message_is_dropped() {
    let message = "TOML parse error at line 3, column 1\n  |\n3 | requiers = []\n  | ^^^^^^^^\nunknown field `requiers`, expected one of `description`, `requires`\n";
    assert_eq!(
        zevinit::unit::useful_part_of(message),
        "unknown field `requiers`, expected one of `description`, `requires`"
    );
    assert_eq!(zevinit::unit::useful_part_of("  |\n ^ \n"), "|\n ^");
}

#[test]
fn a_real_parse_error_is_located_and_shown() {
    let text = "[unit]\ndescription = \n";
    let error = toml::from_str::<toml::Table>(text).expect_err("a value is missing");
    let problem = Problem::unparsable(
        "units/test.toml",
        text,
        error.span().map(|s| s.start),
        &error.to_string(),
    );
    let shown = problem.to_string();
    assert!(shown.starts_with("units/test.toml:2:"), "{shown}");
    assert!(shown.contains("description = "), "{shown}");
    assert!(!shown.contains("TOML parse error"), "{shown}");
    assert!(shown.ends_with('^'), "{shown}");
}

#[test]
fn a_problem_without_a_spot_is_one_line() {
    let problem = Problem::unparsable("units/x.toml", "", None, "  something broke  ");
    assert_eq!(problem.to_string(), "units/x.toml: something broke");
}

#[test]
fn the_caret_sits_under_the_column() {
    let problem = Problem::unparsable("f.toml", "ab = 1\ncd = x\n", Some(12), "bad value");
    assert_eq!(problem.to_string(), "f.toml:2:6: bad value\n  |\n2 | cd = x\n  |      ^");
}

#[test]
fn checking_again_against_another_file_points_into_that_file() {
    let mut s = service("/bin/true");
    s.start_timeout = Some(0);
    let unit = Unit {
        start_timeout: 0,
        ..assemble("", meta("x"), service("/bin/true")).expect("valid")
    };
    let complaint = unit
        .check("units/other.toml", "[service]\nstart = \"/bin/true\"\n\nstart_timeout = 0\n")
        .expect_err("zero timeout")
        .to_string();
    assert!(complaint.starts_with("units/other.toml:4:1: start_timeout is 0"), "{complaint}");
    assert!(assemble("", meta("x"), service("/bin/true")).expect("valid").check("f", "").is_ok());
    assert!(assemble("", meta("x"), s).is_err());
}
