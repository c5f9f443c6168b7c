use omnibook_rs::mouse::{
    initial_intensity, parse_saved_intensity, parse_saved_intensity_u8, snap_value,
    MIN_SNAP_INPUT,
};

#[test]
fn snapping_to_allowed_levels() {
    assert_eq!(snap_value(0), 0);
    assert_eq!(snap_value(12), 0);
    assert_eq!(snap_value(13), 25);
    assert_eq!(snap_value(37), 25);
    assert_eq!(snap_value(38), 50);
    assert_eq!(snap_value(62), 50);
    assert_eq!(snap_value(63), 75);
    assert_eq!(snap_value(88), 100);
    assert_eq!(snap_value(1000), 100);
    assert_eq!(snap_value(-40), 0);
    assert_eq!(snap_value(i32::MAX), 100);
    assert_eq!(snap_value(MIN_SNAP_INPUT), 0);
}

#[test]
fn saved_values() {
    assert_eq!(parse_saved_intensity(" 75\n"), Some(75));
    assert_eq!(parse_saved_intensity("-5"), Some(-5));
    assert_eq!(parse_saved_intensity("loud"), None);
    assert_eq!(parse_saved_intensity_u8("100\n"), Some(100));
    assert_eq!(parse_saved_intensity_u8("256"), None);
    assert_eq!(parse_saved_intensity_u8("-1"), None);
}

#[test]
fn starting_intensity() {
    assert_eq!(initial_intensity(None), 50);
    assert_eq!(initial_intensity(Some(80)), 75);
    assert_eq!(initial_intensity(Some(-7)), 0);
}
