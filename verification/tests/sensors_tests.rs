use omnibook_rs::sensors::{
    friendly_channel, group_by_key, iio_channel, iio_device_listed, iio_groups, name_order,
    sensor_rank, temp_input_prefix, temp_sensor_order,
};

fn strings(v: &[&str]) -> Vec<String> {
    v.iter().map(|s| s.to_string()).collect()
}

#[test]
fn temperature_inputs() {
    assert_eq!(temp_input_prefix("temp1_input").as_deref(), Some("temp1"));
    assert_eq!(temp_input_prefix("temp1_label"), None);
    assert_eq!(temp_input_prefix("in0_input"), None);
}

#[test]
fn ranks() {
    assert_eq!(sensor_rank("CPU Package"), 0);
    assert_eq!(sensor_rank("gpu edge"), 1);
    assert_eq!(sensor_rank("Composite"), 2);
    assert_eq!(sensor_rank("cpu and gpu"), 0);
}

#[test]
fn iio_files() {
    assert!(iio_device_listed("iio:device0"));
    assert!(!iio_device_listed("trigger0"));
    assert_eq!(iio_channel("in_accel_x_raw"), Some(("accel_x".to_string(), true)));
    assert_eq!(iio_channel("in_attention_input"), Some(("attention".to_string(), false)));
    assert_eq!(iio_channel("in_accel_scale"), None);
    assert_eq!(iio_channel("name"), None);
}

#[test]
fn friendly_names() {
    assert_eq!(friendly_channel("proximity1"), "Proximity (distance)");
    assert_eq!(friendly_channel("ACCEL_X"), "Accelerometer X");
    assert_eq!(friendly_channel("hinge_angle"), "Hinge Angle");
    assert_eq!(friendly_channel("foo_bar"), "Foo Bar");
    assert_eq!(friendly_channel("temp__x"), "Temp  X");
    assert_eq!(friendly_channel("intensity_both"), "Intensity Both");
}

#[test]
fn temperature_order() {
    let labels = strings(&["Composite", "gpu", "acpitz", "CPU", "Composite", "Core 0"]);
    let order = temp_sensor_order(&labels);
    assert_eq!(order, vec![3, 1, 0, 4, 5, 2]);
}

#[test]
fn names_sorted() {
    let names = strings(&["iio:device2", "iio:device10", "iio:device0", "trigger0"]);
    assert_eq!(name_order(&names), vec![2, 1, 0, 3]);
    assert_eq!(name_order(&Vec::new()), Vec::<usize>::new());
}

#[test]
fn grouping_by_first_appearance() {
    let keys = strings(&["coretemp", "nvme", "coretemp", "acpitz", "nvme"]);
    let groups = group_by_key(&keys);
    assert_eq!(groups.len(), 3);
    assert_eq!(groups[0].key, "coretemp");
    assert_eq!(groups[0].members, vec![0, 2]);
    assert_eq!(groups[1].key, "nvme");
    assert_eq!(groups[1].members, vec![1, 4]);
    assert_eq!(groups[2].key, "acpitz");
    assert_eq!(groups[2].members, vec![3]);
}

#[test]
fn iio_group_titles() {
    let ids = strings(&["iio:device0", "iio:device0", "iio:device1", "iio:device2"]);
    let devs = strings(&["hid-sensor-prox", "hid-sensor-prox", "accel_3d", "hid-sensor-prox"]);
    let groups = iio_groups(&ids, &devs);
    assert_eq!(groups.len(), 3);
    assert_eq!(groups[0].title, "hid-sensor-prox (iio:device0)");
    assert_eq!(groups[0].members, vec![0, 1]);
    assert_eq!(groups[1].title, "accel_3d");
    assert_eq!(groups[1].members, vec![2]);
    assert_eq!(groups[2].title, "hid-sensor-prox (iio:device2)");
    assert_eq!(groups[2].members, vec![3]);
}
