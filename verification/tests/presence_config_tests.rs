use omnibook_rs::presence_choices::{delay_idx, val_idx};
use omnibook_rs::presence_config::{state_level, PresenceConfig};

fn sample_config() -> PresenceConfig {
    let mut c = PresenceConfig::default();
    c.prox_away_threshold = "Near".to_string();
    c.prox_away_delay = 60;
    c.prox_away_action = "custom".to_string();
    c.prox_away_custom = "notify-send away".to_string();
    c.prox_return_action = "none".to_string();
    c.attn_notlooking_delay = 300;
    c.attn_notlooking_action = "dim".to_string();
    c.attn_notlooking_dim = 35;
    c.attn_looking_action = "brighten".to_string();
    c.attn_looking_bright = 90;
    c.attn_looking_custom = "echo back".to_string();
    c
}

fn same(a: &PresenceConfig, b: &PresenceConfig) -> bool {
    a.prox_away_threshold == b.prox_away_threshold
        && a.prox_away_delay == b.prox_away_delay
        && a.prox_away_action == b.prox_away_action
        && a.prox_away_custom == b.prox_away_custom
        && a.prox_return_action == b.prox_return_action
        && a.prox_return_custom == b.prox_return_custom
        && a.attn_notlooking_delay == b.attn_notlooking_delay
        && a.attn_notlooking_action == b.attn_notlooking_action
        && a.attn_notlooking_dim == b.attn_notlooking_dim
        && a.attn_notlooking_custom == b.attn_notlooking_custom
        && a.attn_looking_action == b.attn_looking_action
        && a.attn_looking_bright == b.attn_looking_bright
        && a.attn_looking_custom == b.attn_looking_custom
}

#[test]
fn default_values() {
    let c = PresenceConfig::default();
    assert_eq!(c.prox_away_threshold, "Far");
    assert_eq!(c.prox_away_delay, 30);
    assert_eq!(c.prox_away_action, "none");
    assert_eq!(c.prox_away_custom, "");
    assert_eq!(c.prox_return_action, "wake");
    assert_eq!(c.prox_return_custom, "");
    assert_eq!(c.attn_notlooking_delay, 10);
    assert_eq!(c.attn_notlooking_action, "none");
    assert_eq!(c.attn_notlooking_dim, 20);
    assert_eq!(c.attn_notlooking_custom, "");
    assert_eq!(c.attn_looking_action, "none");
    assert_eq!(c.attn_looking_bright, 100);
    assert_eq!(c.attn_looking_custom, "");
}

#[test]
fn serialize_default_exact() {
    let text = PresenceConfig::default().serialize();
    let expected = "prox_away_threshold=Far\nprox_away_delay=30\nprox_away_action=none\n\
prox_away_custom=\nprox_return_action=wake\nprox_return_custom=\nattn_notlooking_delay=10\n\
attn_notlooking_action=none\nattn_notlooking_dim=20\nattn_notlooking_custom=\n\
attn_looking_action=none\nattn_looking_bright=100\nattn_looking_custom=\n";
    assert_eq!(text, expected);
}

#[test]
fn parse_serialize_roundtrip() {
    let c = sample_config();
    let back = PresenceConfig::parse(&c.serialize());
    assert!(same(&c, &back));
}

#[test]
fn parse_empty_gives_defaults() {
    let c = PresenceConfig::parse("");
    assert!(same(&c, &PresenceConfig::default()));
}

#[test]
fn parse_trims_keys_and_values_and_last_wins() {
    let c = PresenceConfig::parse("  prox_away_delay = 45 \nprox_away_threshold=Away\r\nprox_away_threshold = Very Near\n");
    assert_eq!(c.prox_away_delay, 45);
    assert_eq!(c.prox_away_threshold, "Very Near");
}

#[test]
fn parse_bad_numbers_fall_back_to_defaults() {
    let c = PresenceConfig::parse("prox_away_delay=soon\nattn_notlooking_dim=300\nattn_looking_bright=-1\nattn_notlooking_delay=+7\n");
    assert_eq!(c.prox_away_delay, 30);
    assert_eq!(c.attn_notlooking_dim, 20);
    assert_eq!(c.attn_looking_bright, 100);
    assert_eq!(c.attn_notlooking_delay, 7);
}

#[test]
fn parse_ignores_unknown_keys_and_lines_without_equals() {
    let c = PresenceConfig::parse("hello\nunknown=1\nprox_return_action=custom\nprox_return_custom=a=b\n");
    assert_eq!(c.prox_return_action, "custom");
    assert_eq!(c.prox_return_custom, "a=b");
    assert_eq!(c.prox_away_threshold, "Far");
}

#[test]
fn state_level_ranks() {
    assert_eq!(state_level("Very Near"), 0);
    assert_eq!(state_level("Near"), 1);
    assert_eq!(state_level("Far"), 2);
    assert_eq!(state_level("Away"), 3);
    assert_eq!(state_level("something else"), 3);
}

#[test]
fn away_threshold_comparison() {
    let mut c = PresenceConfig::default();
    assert!(c.prox_meets_away_threshold("Far"));
    assert!(c.prox_meets_away_threshold("Away"));
    assert!(!c.prox_meets_away_threshold("Near"));
    c.prox_away_threshold = "Away".to_string();
    assert!(!c.prox_meets_away_threshold("Far"));
    assert!(c.prox_meets_away_threshold("Away"));
    c.prox_away_threshold = "Very Near".to_string();
    assert!(c.prox_meets_away_threshold("Very Near"));
}

#[test]
fn choice_indices() {
    let vals = ["none", "lock", "custom"];
    assert_eq!(val_idx(&vals, "lock"), 1);
    assert_eq!(val_idx(&vals, "custom"), 2);
    assert_eq!(val_idx(&vals, "bogus"), 0);
    assert_eq!(delay_idx(0), 0);
    assert_eq!(delay_idx(30), 2);
    assert_eq!(delay_idx(300), 4);
    assert_eq!(delay_idx(45), 1);
}

#[test]
fn parsed_settings_survive_writing_and_reading() {
    let messy = "prox_away_custom =  notify-send  \"bye\"  \r\nattn_looking_custom=\t\nprox_away_delay= 12x\nnoise\nprox_away_action = lock\n";
    let c = PresenceConfig::parse(messy);
    assert_eq!(c.prox_away_custom, "notify-send  \"bye\"");
    let again = PresenceConfig::parse(&c.serialize());
    assert!(same(&c, &again));
    assert_eq!(again.serialize(), c.serialize());
}
