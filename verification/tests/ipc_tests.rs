use omnibook_rs::ipc::{
    drain_set_configs, extract_set_config, parse_state_line, read_state_file, set_config_message,
    state_file_content, state_message,
};
use omnibook_rs::presence_config::PresenceConfig;

#[test]
fn set_config_message_frames_the_settings() {
    let c = PresenceConfig::default();
    let msg = set_config_message(&c);
    assert!(msg.starts_with("SET_CONFIG\n"));
    assert!(msg.ends_with("attn_looking_custom=\nEND\n"));
    assert_eq!(msg, format!("SET_CONFIG\n{}END\n", c.serialize()));
}

#[test]
fn extract_reads_back_a_sent_block_and_keeps_the_rest() {
    let mut c = PresenceConfig::default();
    c.prox_away_threshold = "Away".to_string();
    c.prox_away_delay = 10;
    c.attn_notlooking_action = "lock".to_string();
    let mut buf = set_config_message(&c);
    buf.push_str("SET_CONF");
    let got = extract_set_config(&mut buf).expect("a complete block");
    assert_eq!(got.prox_away_threshold, "Away");
    assert_eq!(got.prox_away_delay, 10);
    assert_eq!(got.attn_notlooking_action, "lock");
    assert_eq!(buf, "SET_CONF");
}

#[test]
fn extract_without_complete_block_leaves_buffer() {
    let mut buf = String::from("SET_CONFIG\nprox_away_delay=5\n");
    assert!(extract_set_config(&mut buf).is_none());
    assert_eq!(buf, "SET_CONFIG\nprox_away_delay=5\n");
    let mut none = String::from("garbage\n");
    assert!(extract_set_config(&mut none).is_none());
    assert_eq!(none, "garbage\n");
}

#[test]
fn extract_discards_text_before_the_block() {
    let mut buf = String::from("noise SET_CONFIG\nprox_away_delay=5\nEND\ntail");
    let got = extract_set_config(&mut buf).expect("block");
    assert_eq!(got.prox_away_delay, 5);
    assert_eq!(buf, "tail");
}

#[test]
fn state_message_exact() {
    assert_eq!(state_message("Near", "Looking"), "STATE presence=Near attention=Looking\n");
}

#[test]
fn state_line_roundtrip() {
    let msg = state_message("Very Near", "Not Looking");
    let line = msg.trim_end_matches('\n');
    let (p, a) = parse_state_line(line).expect("a state line");
    assert_eq!(p, "Very Near");
    assert_eq!(a, "Not Looking");
    assert!(parse_state_line("STATUS presence=Far attention=Looking").is_none());
    assert!(parse_state_line("STATE presence=Far").is_none());
}

#[test]
fn state_file_roundtrip() {
    let content = state_file_content("Far", "Looking");
    assert_eq!(content, "presence=Far\nattention=Looking\n");
    let (p, a) = read_state_file(&content);
    assert_eq!(p.as_deref(), Some("Far"));
    assert_eq!(a.as_deref(), Some("Looking"));
}

#[test]
fn state_file_last_line_wins_and_missing_lines() {
    let (p, a) = read_state_file("presence=Far\npresence=Away\nother\n");
    assert_eq!(p.as_deref(), Some("Away"));
    assert_eq!(a, None);
}

#[test]
fn drain_reads_every_complete_block_in_order() {
    let mut a = PresenceConfig::default();
    a.prox_away_delay = 1;
    let mut b = PresenceConfig::default();
    b.prox_away_delay = 2;
    let mut buf = set_config_message(&a);
    buf.push_str(&set_config_message(&b));
    buf.push_str("SET_CONFIG\nprox_away_delay=3\n");
    let got = drain_set_configs(&mut buf);
    assert_eq!(got.len(), 2);
    assert_eq!(got[0].prox_away_delay, 1);
    assert_eq!(got[1].prox_away_delay, 2);
    assert_eq!(buf, "SET_CONFIG\nprox_away_delay=3\n");
}

#[test]
fn state_line_with_equals_in_presence() {
    let msg = state_message("a=b", "Looking");
    let (p, a) = parse_state_line(msg.trim_end_matches('\n')).expect("a state line");
    assert_eq!(p, "a=b");
    assert_eq!(a, "Looking");
}
