use omnibook_rs::battery::{
    capitalize, charge_text, choose_battery, history_for_model, icon_for_level,
    is_history_file, last_max_index, power_profile, PowerSupply,
};

fn supply(path: &str, kind: Option<&str>, scope: Option<&str>) -> PowerSupply {
    PowerSupply {
        path: path.to_string(),
        kind: kind.map(|s| s.to_string()),
        scope: scope.map(|s| s.to_string()),
    }
}

#[test]
fn capitalize_first_letter() {
    assert_eq!(capitalize("discharging"), "Discharging");
    assert_eq!(capitalize(""), "");
    assert_eq!(capitalize("ßx"), "SSx");
}

#[test]
fn charge_texts() {
    assert_eq!(charge_text(Some("87"), Some("charging")), "87% - Charging");
    assert_eq!(charge_text(Some("87"), None), "87%");
    assert_eq!(charge_text(Some("87"), Some("")), "87%");
    assert_eq!(charge_text(None, Some("full")), "Unknown");
}

#[test]
fn icons() {
    assert_eq!(icon_for_level(Some("95"), Some("Charging")), "battery-full-charging-symbolic");
    assert_eq!(icon_for_level(Some("90"), None), "battery-full-symbolic");
    assert_eq!(icon_for_level(Some("70"), Some("Discharging")), "battery-good-symbolic");
    assert_eq!(icon_for_level(Some("40"), None), "battery-medium-symbolic");
    assert_eq!(icon_for_level(Some("15"), None), "battery-low-symbolic");
    assert_eq!(icon_for_level(Some("14"), None), "battery-caution-symbolic");
    assert_eq!(icon_for_level(Some("-3"), None), "battery-caution-symbolic");
    assert_eq!(icon_for_level(Some("x"), None), "battery-missing-symbolic");
    assert_eq!(icon_for_level(None, None), "battery-missing-symbolic");
}

#[test]
fn power_profiles() {
    assert_eq!(power_profile(Some("performance\n")), "performance");
    assert_eq!(power_profile(Some("  \n")), "balanced");
    assert_eq!(power_profile(None), "balanced");
}

#[test]
fn battery_choice_prefers_system_scope() {
    let supplies = vec![
        supply("/sys/class/power_supply/AC", Some("Mains"), None),
        supply("/sys/class/power_supply/hidpp_battery_0", Some("Battery"), Some("Device")),
        supply("/sys/class/power_supply/BAT1", Some("Battery\n"), None),
        supply("/sys/class/power_supply/BAT0", Some("battery"), Some("System")),
    ];
    assert_eq!(choose_battery(&supplies).as_deref(), Some("/sys/class/power_supply/BAT0"));
    assert_eq!(choose_battery(&supplies[..3]).as_deref(), Some("/sys/class/power_supply/BAT1"));
    assert_eq!(choose_battery(&supplies[..2]), None);
    assert_eq!(choose_battery(&[]), None);
}

#[test]
fn history_files() {
    assert!(is_history_file("history-charge-Primary-123.dat"));
    assert!(!is_history_file("history-rate-Primary-123.dat"));
    assert!(!is_history_file("history-charge-Primary-123.txt"));
    let names = vec![
        "history-charge-Other-1.dat".to_string(),
        "history-charge-Primary_Battery-9.dat".to_string(),
        "history-charge-Primary_Battery-10.dat".to_string(),
    ];
    assert_eq!(history_for_model(&names, " Primary Battery \n"), Some(1));
    assert_eq!(history_for_model(&names, "Missing"), None);
}

#[test]
fn most_entries_last_wins() {
    assert_eq!(last_max_index(&[]), None);
    assert_eq!(last_max_index(&[3, 7, 2]), Some(1));
    assert_eq!(last_max_index(&[5, 1, 5]), Some(2));
}
