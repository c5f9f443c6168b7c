use omnibook_rs::haptic::device::{
    hidraw_number, intensity_report, is_haptic_uevent, uevent_path, HapticDevice,
    HidrawCandidate, REPORT_ID_INTENSITY,
};

fn cand(path: &str, uevent: Option<&str>) -> HidrawCandidate {
    HidrawCandidate { path: path.to_string(), uevent: uevent.map(|s| s.to_string()) }
}

#[test]
fn uevent_matching() {
    assert!(is_haptic_uevent("HID_ID=0018:000006CB:0000CFD2\nHID_NAME=SYNA3580:00 06CB:CFD2\n"));
    assert!(!is_haptic_uevent("HID_ID=0018:000006CB:0000CE26\n"));
    assert!(!is_haptic_uevent(""));
}

#[test]
fn hidraw_names() {
    assert_eq!(hidraw_number("hidraw3").as_deref(), Some("3"));
    assert_eq!(hidraw_number("hidrawhidraw12").as_deref(), Some("12"));
    assert_eq!(hidraw_number("tty0"), None);
    assert_eq!(
        uevent_path("hidraw2").as_deref(),
        Some("/sys/class/hidraw/hidraw2/device/uevent")
    );
    assert_eq!(uevent_path("null"), None);
}

#[test]
fn report_bytes() {
    assert_eq!(REPORT_ID_INTENSITY, 0x37);
    assert_eq!(intensity_report(75), vec![0x37, 75, 0, 0, 0, 0, 0, 0, 0]);
}

#[test]
fn device_is_first_matching_candidate() {
    let cands = vec![
        cand("/dev/hidraw0", Some("HID_ID=0003:0000046D:0000C52B\n")),
        cand("/dev/hidraw1", None),
        cand("/dev/hidraw2", Some("HID_NAME=SYNA 06CB:CFD2\n")),
        cand("/dev/hidraw3", Some("06CB CFD2")),
    ];
    let dev = HapticDevice::new(&cands);
    assert_eq!(dev.get_device_path().as_deref(), Some("/dev/hidraw2"));
}

#[test]
fn no_device_without_match() {
    let mut dev = HapticDevice::new(&[cand("/dev/hidraw0", Some("06CB only"))]);
    assert_eq!(dev.get_device_path(), None);
    assert!(dev.find_device(&[cand("/dev/hidraw5", Some("CFD2 06CB"))]));
    assert_eq!(dev.get_device_path().as_deref(), Some("/dev/hidraw5"));
    assert!(!dev.find_device(&[]));
    assert_eq!(dev.get_device_path(), None);
}
