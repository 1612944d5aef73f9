use zevinit::log::{line_for, Level};

#[test]
fn the_priorities_are_the_ones_the_kernel_understands() {
    assert_eq!(Level::Error.priority(), 3);
    assert_eq!(Level::Warn.priority(), 4);
    assert_eq!(Level::Info.priority(), 6);
}

#[test]
fn quiet_hides_everything_except_errors() {
    let console_loglevel = 4;
    assert!(Level::Error.priority() < console_loglevel);
    assert!(Level::Warn.priority() >= console_loglevel);
    assert!(Level::Info.priority() >= console_loglevel);
}

#[test]
fn every_line_carries_its_priority_and_who_wrote_it() {
    assert_eq!(line_for(Level::Error, "boom"), "<3>zevinit: boom\n");
    assert_eq!(line_for(Level::Info, "fine"), "<6>zevinit: fine\n");
}

#[test]
fn a_line_ends_exactly_once() {
    let line = line_for(Level::Warn, "careful");
    assert!(line.ends_with('\n'));
    assert_eq!(line.matches('\n').count(), 1);
}

#[test]
fn where_the_kernel_log_is_missing_the_line_has_no_priority() {
    assert_eq!(zevinit::log::plain_line("boom"), "zevinit: boom\n");
}
