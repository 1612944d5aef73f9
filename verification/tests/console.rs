use zevinit::console::nodes;

#[test]
fn numbers_match_the_kernel_ones() {
    assert_eq!(nodes()[0], ("/dev/null", 0o666, 1, 3));
    assert_eq!(nodes()[1], ("/dev/console", 0o600, 5, 1));
    assert_eq!(nodes()[2], ("/dev/tty", 0o666, 5, 0));
}

#[test]
fn modes_carry_no_type_bits() {
    for &(path, mode, _, _) in nodes().iter() {
        assert_eq!(mode & !0o777, 0, "{path} has more than permission bits");
    }
}
