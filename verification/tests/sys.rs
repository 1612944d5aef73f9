use zevinit::sys::makedev;

#[test]
fn makedev_matches_known_nodes() {
    assert_eq!(makedev(1, 3), 0x0103);
    assert_eq!(makedev(5, 1), 0x0501);
    assert_eq!(makedev(5, 0), 0x0500);
}

#[test]
fn makedev_splits_wide_minor() {
    assert_eq!(makedev(8, 0), 0x0800);
    assert_eq!(makedev(8, 256), 0x10_0800);
    assert_eq!(makedev(0, 0), 0);
}
