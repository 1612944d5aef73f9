use std::collections::BTreeSet;
use zevinit::graph::{Graph, Trouble};
use zevinit::unit::{Kind, Restart, Unit};

fn unit(name: &str) -> Unit {
    Unit {
        name: name.to_owned(),
        description: name.to_owned(),
        requires: Vec::new(),
        wants: Vec::new(),
        after: Vec::new(),
        before: Vec::new(),
        conflicts: Vec::new(),
        kind: Kind::Simple,
        start: "/bin/true".to_owned(),
        stop: None,
        restart: Restart::Never,
        restart_delay: 1,
        restart_limit: 5,
        start_timeout: 30,
        stop_timeout: 10,
        directory: None,
        environment: Vec::new(),
    }
}

fn named(names: &[&str]) -> Vec<String> {
    names.iter().map(|n| (*n).to_owned()).collect()
}

fn roots(names: &[&str]) -> Vec<String> {
    named(names)
}

#[test]
fn requires_pulls_the_other_unit_in() {
    let mut a = unit("a");
    a.requires = named(&["b"]);
    let graph = Graph::build(vec![a, unit("b")]).expect("b exists");
    let chosen = graph.pull_in(&roots(&["a"])).expect("a is known");
    assert_eq!(
        chosen.into_iter().collect::<BTreeSet<_>>(),
        BTreeSet::from(["a".to_owned(), "b".to_owned()])
    );
}

#[test]
fn wants_pulls_in_too_but_forgives_an_absence() {
    let mut a = unit("a");
    a.wants = named(&["b", "ghost"]);
    let graph = Graph::build(vec![a, unit("b")]).expect("a missing want is fine");
    let chosen = graph.pull_in(&roots(&["a"])).expect("a is known");
    assert_eq!(
        chosen.into_iter().collect::<BTreeSet<_>>(),
        BTreeSet::from(["a".to_owned(), "b".to_owned()])
    );
}

#[test]
fn a_missing_requirement_is_refused_with_a_way_out() {
    let mut a = unit("a");
    a.requires = named(&["ghost"]);
    let trouble = Graph::build(vec![a]).expect_err("ghost does not exist");
    assert_eq!(
        trouble,
        Trouble::Missing {
            unit: "a".to_owned(),
            needs: "ghost".to_owned()
        }
    );
    assert!(
        trouble.to_string().contains("move it to wants"),
        "{trouble:?}"
    );
}

#[test]
fn requiring_something_does_not_order_against_it() {
    let mut a = unit("a");
    a.requires = named(&["b"]);
    let graph = Graph::build(vec![a, unit("b")]).expect("valid");
    let waves = graph.waves(&roots(&["a"])).expect("valid");
    assert_eq!(waves, vec![named(&["a", "b"])]);
}

#[test]
fn after_puts_the_other_one_first() {
    let mut a = unit("a");
    a.requires = named(&["b"]);
    a.after = named(&["b"]);
    let graph = Graph::build(vec![a, unit("b")]).expect("valid");
    assert_eq!(
        graph.start_order(&roots(&["a"])).expect("valid"),
        named(&["b", "a"])
    );
}

#[test]
fn before_is_the_same_edge_seen_from_the_other_side() {
    let mut b = unit("b");
    b.before = named(&["a"]);
    let mut a = unit("a");
    a.requires = named(&["b"]);
    let graph = Graph::build(vec![a, b]).expect("valid");
    assert_eq!(
        graph.start_order(&roots(&["a"])).expect("valid"),
        named(&["b", "a"])
    );
}

#[test]
fn ordering_against_a_unit_that_is_not_starting_does_not_hold_us_back() {
    let mut a = unit("a");
    a.after = named(&["b"]);
    let graph = Graph::build(vec![a, unit("b")]).expect("valid");
    assert_eq!(
        graph.start_order(&roots(&["a"])).expect("valid"),
        named(&["a"])
    );
}

#[test]
fn stopping_is_the_start_order_backwards() {
    let mut a = unit("a");
    a.requires = named(&["b"]);
    a.after = named(&["b"]);
    let graph = Graph::build(vec![a, unit("b")]).expect("valid");
    let up = graph.start_order(&roots(&["a"])).expect("valid");
    let down = graph.stop_order(&roots(&["a"])).expect("valid");
    assert_eq!(down, up.iter().rev().cloned().collect::<Vec<_>>());
    assert_eq!(down, named(&["a", "b"]));
}

#[test]
fn independent_units_land_in_the_same_wave() {
    let mut root = unit("root");
    root.requires = named(&["left", "right"]);
    root.after = named(&["left", "right"]);
    let graph = Graph::build(vec![root, unit("left"), unit("right")]).expect("valid");
    let waves = graph.waves(&roots(&["root"])).expect("valid");
    assert_eq!(waves, vec![named(&["left", "right"]), named(&["root"])]);
}

#[test]
fn a_chain_gets_one_wave_each() {
    let mut a = unit("a");
    a.requires = named(&["b"]);
    a.after = named(&["b"]);
    let mut b = unit("b");
    b.requires = named(&["c"]);
    b.after = named(&["c"]);
    let graph = Graph::build(vec![a, b, unit("c")]).expect("valid");
    let waves = graph.waves(&roots(&["a"])).expect("valid");
    assert_eq!(waves, vec![named(&["c"]), named(&["b"]), named(&["a"])]);
}

#[test]
fn a_circle_of_two_is_caught_and_written_out_whole() {
    let mut a = unit("a");
    a.after = named(&["b"]);
    let mut b = unit("b");
    b.after = named(&["a"]);
    let trouble = Graph::build(vec![a, b]).expect_err("a circle cannot be ordered");
    let Trouble::Cycle(path) = &trouble else {
        panic!("expected a cycle, got {trouble:?}");
    };
    assert_eq!(path.first(), path.last(), "a cycle has to close: {path:?}");
    assert_eq!(path.len(), 3, "a and b and back to the first: {path:?}");
    assert!(trouble.to_string().contains("->"), "{trouble:?}");
}

#[test]
fn a_longer_circle_reports_every_step() {
    let mut a = unit("a");
    a.after = named(&["b"]);
    let mut b = unit("b");
    b.after = named(&["c"]);
    let mut c = unit("c");
    c.after = named(&["a"]);
    let trouble = Graph::build(vec![a, b, c]).expect_err("still a circle");
    let Trouble::Cycle(path) = &trouble else {
        panic!("expected a cycle, got {trouble:?}");
    };
    assert_eq!(path.len(), 4, "three units and back: {path:?}");
    for name in ["a", "b", "c"] {
        assert!(
            path.contains(&name.to_owned()),
            "{name} missing from {path:?}"
        );
    }
}

#[test]
fn a_circle_drawn_with_before_is_still_a_circle() {
    let mut a = unit("a");
    a.after = named(&["b"]);
    let mut b = unit("b");
    b.before = named(&["b"]);
    b.after = named(&["a"]);
    let trouble = Graph::build(vec![a, b]).expect_err("a circle either way");
    assert!(matches!(trouble, Trouble::Cycle(_)), "{trouble:?}");
}

#[test]
fn two_units_that_conflict_cannot_both_be_pulled_in() {
    let mut a = unit("a");
    a.requires = named(&["b", "c"]);
    let mut b = unit("b");
    b.conflicts = named(&["c"]);
    let graph = Graph::build(vec![a, b, unit("c")]).expect("the graph itself is fine");
    let trouble = graph
        .pull_in(&roots(&["a"]))
        .expect_err("b and c cannot coexist");
    assert!(matches!(trouble, Trouble::Incompatible { .. }), "{trouble:?}");
    assert!(trouble.to_string().contains("pulled in by a"), "{trouble:?}");
}

#[test]
fn units_that_conflict_but_are_not_both_wanted_are_left_alone() {
    let mut b = unit("b");
    b.conflicts = named(&["c"]);
    let graph = Graph::build(vec![b, unit("c")]).expect("valid");
    assert!(graph.pull_in(&roots(&["b"])).is_ok());
}

#[test]
fn asking_for_a_unit_that_does_not_exist_says_so() {
    let graph = Graph::build(vec![unit("a")]).expect("valid");
    let trouble = graph.pull_in(&roots(&["ghost"])).expect_err("no such unit");
    assert_eq!(trouble, Trouble::Unknown("ghost".to_owned()));
}

#[test]
fn readiness_matches_what_the_waves_say() {
    let mut a = unit("a");
    a.requires = named(&["b"]);
    a.after = named(&["b"]);
    let graph = Graph::build(vec![a, unit("b")]).expect("valid");
    let chosen = graph.pull_in(&roots(&["a"])).expect("valid");

    let nothing_up: Vec<String> = Vec::new();
    assert_eq!(graph.ready(&chosen, &nothing_up), named(&["b"]));

    let b_up = vec!["b".to_owned()];
    assert_eq!(graph.ready(&chosen, &b_up), named(&["a"]));

    let both_up = vec!["a".to_owned(), "b".to_owned()];
    assert!(graph.ready(&chosen, &both_up).is_empty());
}

#[test]
fn the_order_does_not_wander_between_runs() {
    let build = || {
        let mut root = unit("root");
        root.requires = named(&["x", "y", "z"]);
        root.after = named(&["x", "y", "z"]);
        Graph::build(vec![root, unit("x"), unit("y"), unit("z")]).expect("valid")
    };
    let once = build().start_order(&roots(&["root"])).expect("valid");
    let twice = build().start_order(&roots(&["root"])).expect("valid");
    assert_eq!(once, twice);
    assert_eq!(once, named(&["x", "y", "z", "root"]));
}

#[test]
fn the_graph_remembers_the_units_it_was_given() {
    let graph = Graph::build(vec![unit("a"), unit("b")]).expect("valid");
    assert_eq!(
        graph.names(),
        named(&["a", "b"])
    );
    assert!(graph.get("a").is_some());
    assert!(graph.get("ghost").is_none());
}

#[test]
fn each_trouble_reads_as_a_sentence() {
    let missing = Trouble::Missing { unit: "a".to_owned(), needs: "ghost".to_owned() };
    assert_eq!(
        missing.to_string(),
        "a requires ghost, and there is no unit by that name.\neither add ghost.toml or move it to wants, which tolerates it being absent"
    );
    let cycle = Trouble::Cycle(named(&["a", "b", "a"]));
    assert_eq!(
        cycle.to_string(),
        "these units are ordered in a circle, so none of them can go first:\n  a -> b -> a"
    );
    let clash = Trouble::Incompatible {
        unit: "b".to_owned(),
        with: "c".to_owned(),
        pulled_in_by: "a".to_owned(),
    };
    assert_eq!(
        clash.to_string(),
        "b conflicts with c, but both were pulled in by a.\none of them has to go, or the conflict is wrong"
    );
    assert_eq!(Trouble::Unknown("ghost".to_owned()).to_string(), "there is no unit called ghost");
}

#[test]
fn a_later_unit_with_the_same_name_wins() {
    let mut first = unit("a");
    first.description = "first".to_owned();
    let mut second = unit("a");
    second.description = "second".to_owned();
    let graph = Graph::build(vec![first, second]).expect("valid");
    assert_eq!(graph.names(), named(&["a"]));
    assert_eq!(graph.get("a").expect("a is there").description, "second");
}

#[test]
fn the_names_come_out_sorted() {
    let graph = Graph::build(vec![unit("c"), unit("a"), unit("b")]).expect("valid");
    assert_eq!(graph.names(), named(&["a", "b", "c"]));
}

#[test]
fn a_clash_names_who_pulled_the_other_in() {
    let mut a = unit("a");
    a.requires = named(&["b", "c"]);
    let mut b = unit("b");
    b.conflicts = named(&["c"]);
    let graph = Graph::build(vec![a, b, unit("c")]).expect("valid");
    assert_eq!(
        graph.pull_in(&roots(&["a"])),
        Err(Trouble::Incompatible {
            unit: "b".to_owned(),
            with: "c".to_owned(),
            pulled_in_by: "a".to_owned()
        })
    );
}

#[test]
fn a_diamond_comes_up_in_three_waves() {
    let mut top = unit("top");
    top.requires = named(&["left", "right"]);
    top.after = named(&["left", "right"]);
    let mut left = unit("left");
    left.requires = named(&["base"]);
    left.after = named(&["base"]);
    let mut right = unit("right");
    right.wants = named(&["base"]);
    right.after = named(&["base"]);
    let graph = Graph::build(vec![top, left, right, unit("base")]).expect("valid");
    assert_eq!(
        graph.waves(&roots(&["top"])).expect("valid"),
        vec![named(&["base"]), named(&["left", "right"]), named(&["top"])]
    );
    assert_eq!(
        graph.stop_order(&roots(&["top"])).expect("valid"),
        named(&["top", "right", "left", "base"])
    );
}

#[test]
fn a_name_already_up_need_not_be_a_unit() {
    let graph = Graph::build(vec![unit("a")]).expect("valid");
    let chosen = named(&["a", "ghost"]);
    let up = named(&["ghost"]);
    assert_eq!(graph.ready(&chosen, &up), named(&["a"]));
}

#[test]
fn with_nothing_up_the_first_wave_is_ready() {
    let mut top = unit("top");
    top.requires = named(&["left", "right"]);
    top.after = named(&["left", "right"]);
    let mut left = unit("left");
    left.requires = named(&["base"]);
    left.after = named(&["base"]);
    let mut other = unit("other");
    other.before = named(&["top"]);
    top.wants = named(&["other"]);
    let graph = Graph::build(vec![top, left, unit("right"), unit("base"), other]).expect("valid");
    let chosen = graph.pull_in(&roots(&["top"])).expect("valid");
    let waves = graph.waves(&roots(&["top"])).expect("valid");
    let nothing_up: Vec<String> = Vec::new();
    assert_eq!(graph.ready(&chosen, &nothing_up), waves[0]);
    assert_eq!(waves[0], named(&["base", "other", "right"]));
}
