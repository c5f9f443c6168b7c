use omnibook_rs::daemon::{
    classify_action, consensus_attention, consensus_prox, desktop_is_gnome, desktop_is_kde,
    locked_hint, parse_reading, prox_state_of, ActionKind, AttentionState, LoopAction,
    ProxState, SensorLoop, Trigger, MAX_NOW_MS, PROX1_NEAR, PROX1_VERY_NEAR,
};
use omnibook_rs::presence_config::{state_level, PresenceConfig};

#[test]
fn state_names() {
    assert_eq!(ProxState::VeryNear.display(), "Very Near");
    assert_eq!(ProxState::Near.display(), "Near");
    assert_eq!(ProxState::Far.display(), "Far");
    assert_eq!(ProxState::Away.display(), "Away");
    assert_eq!(AttentionState::Looking.display(), "Looking");
    assert_eq!(AttentionState::NotLooking.display(), "Not Looking");
}

#[test]
fn readings_parse_trimmed() {
    assert_eq!(parse_reading(" 1\n"), Some(1));
    assert_eq!(parse_reading("-42"), Some(-42));
    assert_eq!(parse_reading("abc"), None);
    assert_eq!(parse_reading(""), None);
}

#[test]
fn proximity_state_thresholds() {
    assert_eq!(PROX1_VERY_NEAR, 250);
    assert_eq!(PROX1_NEAR, 800);
    assert_eq!(prox_state_of(Some(1), Some(249)), ProxState::VeryNear);
    assert_eq!(prox_state_of(Some(1), Some(250)), ProxState::Near);
    assert_eq!(prox_state_of(Some(1), Some(799)), ProxState::Near);
    assert_eq!(prox_state_of(Some(1), Some(800)), ProxState::Far);
    assert_eq!(prox_state_of(Some(1), None), ProxState::Far);
    assert_eq!(prox_state_of(Some(0), Some(10)), ProxState::Away);
    assert_eq!(prox_state_of(Some(2), Some(10)), ProxState::Away);
    assert_eq!(prox_state_of(None, Some(10)), ProxState::Away);
}

#[test]
fn consensus_of_sensors() {
    let (vn, nr, fr, aw) = (ProxState::VeryNear, ProxState::Near, ProxState::Far, ProxState::Away);
    assert_eq!(consensus_prox(&[]), aw);
    assert_eq!(consensus_prox(&[aw, aw]), aw);
    assert_eq!(consensus_prox(&[nr, aw, aw]), nr);
    assert_eq!(consensus_prox(&[vn, vn, fr]), vn);
    assert_eq!(consensus_prox(&[fr, nr, fr]), fr);
    assert_eq!(consensus_prox(&[nr, fr, aw, aw]), nr);
    assert_eq!(consensus_prox(&[vn, fr]), vn);
}

#[test]
fn attention_from_readings() {
    assert_eq!(consensus_attention(&[]), AttentionState::NotLooking);
    assert_eq!(consensus_attention(&[Some(0), Some(100)]), AttentionState::Looking);
    assert_eq!(consensus_attention(&[None, Some(99)]), AttentionState::NotLooking);
}

#[test]
fn actions_classified() {
    assert!(matches!(classify_action("lock", 0, ""), ActionKind::Lock));
    assert!(matches!(classify_action("wake", 0, ""), ActionKind::Wake));
    assert!(matches!(classify_action("dim", 30, ""), ActionKind::Dim(30)));
    assert!(matches!(classify_action("brighten", 0, ""), ActionKind::Brighten));
    match classify_action("custom", 0, "echo hi") {
        ActionKind::Custom(c) => assert_eq!(c, "echo hi"),
        other => panic!("unexpected {:?}", other),
    }
    assert!(matches!(classify_action("custom", 0, ""), ActionKind::Nothing));
    assert!(matches!(classify_action("none", 0, "x"), ActionKind::Nothing));
}

#[test]
fn session_and_desktop_checks() {
    assert!(locked_hint("LockedHint=yes\n"));
    assert!(!locked_hint("LockedHint=no\n"));
    assert!(desktop_is_gnome("ubuntu:GNOME"));
    assert!(!desktop_is_gnome("KDE"));
    assert!(desktop_is_kde("KDE"));
    assert!(desktop_is_kde("plasma"));
    assert!(!desktop_is_kde("XFCE"));
}

fn run(l: &LoopAction) -> (Trigger, String, u8, String) {
    match l {
        LoopAction::Run { trigger, action, arg, custom } => (*trigger, action.clone(), *arg, custom.clone()),
        LoopAction::RestoreBrightness => panic!("not a run"),
    }
}

#[test]
fn away_action_fires_once_after_delay_and_return_follows() {
    let mut cfg = PresenceConfig::default();
    cfg.prox_away_delay = 5;
    cfg.prox_away_action = "lock".to_string();
    cfg.prox_return_action = "wake".to_string();
    let mut s = SensorLoop::new(&cfg, ProxState::Near, AttentionState::Looking);
    assert!(s.step(&cfg, ProxState::Far, AttentionState::Looking, 1_000).is_empty());
    assert_eq!(s.away_pending, Some(6_000));
    assert!(s.step(&cfg, ProxState::Far, AttentionState::Looking, 5_999).is_empty());
    let acts = s.step(&cfg, ProxState::Away, AttentionState::Looking, 6_000);
    assert_eq!(acts.len(), 1);
    assert_eq!(run(&acts[0]), (Trigger::Away, "lock".to_string(), 0, String::new()));
    assert!(s.step(&cfg, ProxState::Away, AttentionState::Looking, 9_000).is_empty());
    let back = s.step(&cfg, ProxState::Near, AttentionState::Looking, 10_000);
    assert_eq!(back.len(), 1);
    assert_eq!(run(&back[0]).0, Trigger::Return);
    assert_eq!(run(&back[0]).1, "wake");
}

#[test]
fn returning_before_the_delay_runs_nothing() {
    let cfg = PresenceConfig::default();
    let mut s = SensorLoop::new(&cfg, ProxState::Near, AttentionState::Looking);
    assert!(s.step(&cfg, ProxState::Far, AttentionState::Looking, 0).is_empty());
    assert!(s.step(&cfg, ProxState::Near, AttentionState::Looking, 1_000).is_empty());
    assert_eq!(s.away_pending, None);
    assert!(!s.away_fired);
}

#[test]
fn start_up_in_an_episode_runs_nothing() {
    let cfg = PresenceConfig::default();
    let mut s = SensorLoop::new(&cfg, ProxState::Away, AttentionState::NotLooking);
    assert!(s.prev_is_away && s.prev_is_notlooking);
    assert!(s.step(&cfg, ProxState::Away, AttentionState::NotLooking, 1_000_000).is_empty());
}

#[test]
fn dim_then_restore_and_looking_action() {
    let mut cfg = PresenceConfig::default();
    cfg.attn_notlooking_delay = 0;
    cfg.attn_notlooking_action = "dim".to_string();
    cfg.attn_notlooking_dim = 25;
    cfg.attn_looking_action = "custom".to_string();
    cfg.attn_looking_custom = "echo back".to_string();
    let mut s = SensorLoop::new(&cfg, ProxState::Near, AttentionState::Looking);
    let acts = s.step(&cfg, ProxState::Near, AttentionState::NotLooking, 500);
    assert_eq!(acts.len(), 1);
    assert_eq!(run(&acts[0]), (Trigger::NotLooking, "dim".to_string(), 25, String::new()));
    assert!(s.screen_dimmed);
    let back = s.step(&cfg, ProxState::Near, AttentionState::Looking, 700);
    assert_eq!(back.len(), 2);
    assert!(matches!(back[0], LoopAction::RestoreBrightness));
    assert_eq!(run(&back[1]), (Trigger::Looking, "custom".to_string(), 0, "echo back".to_string()));
    assert!(!s.screen_dimmed);
}

#[test]
fn clock_limit_value() {
    assert_eq!(MAX_NOW_MS, u64::MAX - (u32::MAX as u64) * 1000);
}

#[test]
fn state_names_rank_for_threshold() {
    assert_eq!(state_level(ProxState::VeryNear.display()), 0);
    assert_eq!(state_level(ProxState::Near.display()), 1);
    assert_eq!(state_level(ProxState::Far.display()), 2);
    assert_eq!(state_level(ProxState::Away.display()), 3);
}

#[test]
fn consensus_ties_go_to_the_nearer_state() {
    let (vn, nr, fr, aw) = (ProxState::VeryNear, ProxState::Near, ProxState::Far, ProxState::Away);
    assert_eq!(consensus_prox(&[nr, fr]), nr);
    assert_eq!(consensus_prox(&[fr, vn, aw, aw]), vn);
    assert_eq!(consensus_prox(&[fr, fr, nr, aw, aw]), fr);
}

#[test]
fn away_action_once_per_episode_over_many_ticks() {
    let mut cfg = PresenceConfig::default();
    cfg.prox_away_delay = 1;
    cfg.prox_away_action = "lock".to_string();
    let mut s = SensorLoop::new(&cfg, ProxState::Away, AttentionState::Looking);
    let mut away_runs = Vec::new();
    let readings = [
        ProxState::Away, ProxState::Away, ProxState::Near, ProxState::Far, ProxState::Far,
        ProxState::Far, ProxState::Far, ProxState::Near, ProxState::Far,
    ];
    for (k, p) in readings.iter().enumerate() {
        let acts = s.step(&cfg, *p, AttentionState::Looking, 500 * k as u64);
        for a in &acts {
            if let LoopAction::Run { trigger: Trigger::Away, .. } = a {
                away_runs.push(k);
            }
        }
    }
    // The start-up episode runs nothing; the episode from tick 3 runs at tick 5 only.
    assert_eq!(away_runs, vec![5]);
}
