//! The presence daemon's decisions: the proximity state of each sensor and the consensus of
//! all sensors, the attention state, what a configured action asks for, and the sensor loop
//! that turns states and time into actions.
use vstd::prelude::*;
use crate::presence_config::{spec_state_level, PresenceConfig, PresenceConfigView};
use crate::text::{
    chars_eq_str, chars_of, contains, contains_str, lowercase_view, parse_signed,
    parse_signed_chars, to_lowercase, trim, trim_chars,
};

verus! {

/// How near the user is, by one sensor or by all of them.
#[derive(Clone, Copy, Debug, PartialEq, Eq, Structural)]
pub enum ProxState {
    VeryNear,
    Near,
    Far,
    Away,
}

/// Whether the user looks at the screen.
#[derive(Clone, Copy, Debug, PartialEq, Eq, Structural)]
pub enum AttentionState {
    Looking,
    NotLooking,
}

/// The name under which a proximity state is shown and compared with the away threshold.
pub open spec fn prox_name(s: ProxState) -> Seq<char> {
    match s {
        ProxState::VeryNear => "Very Near"@,
        ProxState::Near => "Near"@,
        ProxState::Far => "Far"@,
        ProxState::Away => "Away"@,
    }
}

/// The rank of a proximity state, nearest first.
pub open spec fn prox_rank(s: ProxState) -> u8 {
    match s {
        ProxState::VeryNear => 0,
        ProxState::Near => 1,
        ProxState::Far => 2,
        ProxState::Away => 3,
    }
}

/// The name under which an attention state is shown.
pub open spec fn attention_name(s: AttentionState) -> Seq<char> {
    match s {
        AttentionState::Looking => "Looking"@,
        AttentionState::NotLooking => "Not Looking"@,
    }
}

impl ProxState {
    /// The state's name.
    pub fn display(&self) -> (res: &'static str)
        ensures
            res@ == prox_name(*self),
    {
        match self {
            ProxState::VeryNear => "Very Near",
            ProxState::Near => "Near",
            ProxState::Far => "Far",
            ProxState::Away => "Away",
        }
    }
}

impl AttentionState {
    /// The state's name.
    pub fn display(&self) -> (res: &'static str)
        ensures
            res@ == attention_name(*self),
    {
        match self {
            AttentionState::Looking => "Looking",
            AttentionState::NotLooking => "Not Looking",
        }
    }
}

// ───────────────────────────── sensor readings ─────────────────────────────
/// A sensor file's contents read as an integer: trimmed, then read as `i64`.
pub fn parse_reading(content: &str) -> (res: Option<i64>)
    ensures
        match res {
            Some(v) => parse_signed(trim(content@), i64::MIN as int, i64::MAX as int) == Some(
                v as int,
            ),
            None => parse_signed(trim(content@), i64::MIN as int, i64::MAX as int) is None,
        },
{
    let cs = chars_of(content);
    let t = trim_chars(cs.as_slice());
    parse_signed_chars(t.as_slice(), i64::MIN, i64::MAX)
}

/// `proximity1` below this is "Very Near".
pub const PROX1_VERY_NEAR: i64 = 250;

/// `proximity1` below this (and not very near) is "Near".
pub const PROX1_NEAR: i64 = 800;

/// The proximity state of one sensor from its readings: nobody is detected unless
/// `proximity0` reads exactly 1; then the distance `proximity1` decides.
pub open spec fn prox_state_view(prox0: Option<i64>, prox1: Option<i64>) -> ProxState {
    if prox0 == Some(1i64) {
        match prox1 {
            Some(v) => if v < PROX1_VERY_NEAR {
                ProxState::VeryNear
            } else if v < PROX1_NEAR {
                ProxState::Near
            } else {
                ProxState::Far
            },
            None => ProxState::Far,
        }
    } else {
        ProxState::Away
    }
}

/// The proximity state of one sensor from its two readings.
pub fn prox_state_of(prox0: Option<i64>, prox1: Option<i64>) -> (res: ProxState)
    ensures
        res == prox_state_view(prox0, prox1),
{
    match prox0 {
        Some(1) => match prox1 {
            Some(v) if v < PROX1_VERY_NEAR => ProxState::VeryNear,
            Some(v) if v < PROX1_NEAR => ProxState::Near,
            _ => ProxState::Far,
        },
        _ => ProxState::Away,
    }
}

/// How many of `states` are `x`.
pub open spec fn count_of(states: Seq<ProxState>, x: ProxState) -> nat
    decreases states.len(),
{
    if states.len() == 0 {
        0
    } else {
        count_of(states.drop_last(), x) + if states.last() == x {
            1nat
        } else {
            0nat
        }
    }
}

/// The state that all sensors agree on: "Away" when there are none or all say so; else the
/// most reported of "Very Near", "Near" and "Far", the nearer one on a tie.
pub open spec fn consensus_view(states: Seq<ProxState>) -> ProxState {
    if forall|i: int| 0 <= i < states.len() ==> states[i] == ProxState::Away {
        ProxState::Away
    } else {
        let vn = count_of(states, ProxState::VeryNear);
        let nr = count_of(states, ProxState::Near);
        let fr = count_of(states, ProxState::Far);
        if vn >= nr && vn >= fr {
            ProxState::VeryNear
        } else if nr >= fr {
            ProxState::Near
        } else {
            ProxState::Far
        }
    }
}

/// The consensus proximity state of all sensors.
pub fn consensus_prox(states: &[ProxState]) -> (res: ProxState)
    ensures
        res == consensus_view(states@),
{
    let n = states.len();
    let mut vn: usize = 0;
    let mut nr: usize = 0;
    let mut fr: usize = 0;
    let mut all_away = true;
    let mut i: usize = 0;
    while i < n
        invariant
            n == states@.len(),
            i <= n,
            vn == count_of(states@.take(i as int), ProxState::VeryNear),
            nr == count_of(states@.take(i as int), ProxState::Near),
            fr == count_of(states@.take(i as int), ProxState::Far),
            vn + nr + fr <= i,
            all_away == forall|j: int| 0 <= j < i ==> states@[j] == ProxState::Away,
        decreases n - i,
    {
        assert(states@.take(i + 1).drop_last() =~= states@.take(i as int));
        match states[i] {
            ProxState::VeryNear => {
                vn = vn + 1;
                all_away = false;
            },
            ProxState::Near => {
                nr = nr + 1;
                all_away = false;
            },
            ProxState::Far => {
                fr = fr + 1;
                all_away = false;
            },
            ProxState::Away => {},
        }
        i = i + 1;
    }
    assert(states@.take(n as int) =~= states@);
    if all_away {
        return ProxState::Away;
    }
    let half = n / 2;
    if vn > half {
        ProxState::VeryNear
    } else if nr > half {
        ProxState::Near
    } else if fr > half {
        ProxState::Far
    } else if vn >= nr && vn >= fr {
        ProxState::VeryNear
    } else if nr >= fr {
        ProxState::Near
    } else {
        ProxState::Far
    }
}

/// "Looking" when some attention channel reads exactly 100; channels that could not be
/// read count as not looking.
pub open spec fn attention_view(readings: Seq<Option<i64>>) -> AttentionState {
    if exists|i: int| 0 <= i < readings.len() && readings[i] == Some(100i64) {
        AttentionState::Looking
    } else {
        AttentionState::NotLooking
    }
}

/// The attention state from the readings of all attention channels.
pub fn consensus_attention(readings: &[Option<i64>]) -> (res: AttentionState)
    ensures
        res == attention_view(readings@),
{
    let mut i: usize = 0;
    while i < readings.len()
        invariant
            i <= readings@.len(),
            forall|j: int| 0 <= j < i ==> readings@[j] != Some(100i64),
        decreases readings@.len() - i,
    {
        if readings[i] == Some(100i64) {
            return AttentionState::Looking;
        }
        i = i + 1;
    }
    AttentionState::NotLooking
}

} // verus!

verus! {

// ───────────────────────────── actions ─────────────────────────────
/// What a configured action asks for.
#[derive(Debug)]
pub enum ActionKind {
    /// Lock the session (unless it is locked already).
    Lock,
    /// Wake the display.
    Wake,
    /// Dim the display to the given percentage.
    Dim(u8),
    /// Restore the display's brightness.
    Brighten,
    /// Run the given shell command.
    Custom(String),
    /// Nothing to do.
    Nothing,
}

/// What the action named `action` asks for, with `arg` for "dim" and `custom` for "custom"
/// (a custom action with an empty command does nothing).
pub fn classify_action(action: &str, arg: u8, custom: &str) -> (res: ActionKind)
    ensures
        if action@ == "lock"@ {
            res is Lock
        } else if action@ == "wake"@ {
            res is Wake
        } else if action@ == "dim"@ {
            res == ActionKind::Dim(arg)
        } else if action@ == "brighten"@ {
            res is Brighten
        } else if action@ == "custom"@ && custom@.len() > 0 {
            res matches ActionKind::Custom(c) && c@ == custom@
        } else {
            res is Nothing
        },
{
    let a = chars_of(action);
    if chars_eq_str(a.as_slice(), "lock") {
        ActionKind::Lock
    } else if chars_eq_str(a.as_slice(), "wake") {
        ActionKind::Wake
    } else if chars_eq_str(a.as_slice(), "dim") {
        ActionKind::Dim(arg)
    } else if chars_eq_str(a.as_slice(), "brighten") {
        ActionKind::Brighten
    } else if chars_eq_str(a.as_slice(), "custom") && !custom.is_empty() {
        ActionKind::Custom(String::from_str(custom))
    } else {
        ActionKind::Nothing
    }
}

/// Whether `loginctl show-session -p LockedHint` output says the session is locked.
pub fn locked_hint(output: &str) -> (res: bool)
    ensures
        res == contains(output@, "LockedHint=yes"@),
{
    let cs = chars_of(output);
    contains_str(cs.as_slice(), "LockedHint=yes")
}

/// Whether the desktop name (`XDG_CURRENT_DESKTOP`) names GNOME, in any case.
pub fn desktop_is_gnome(desktop: &str) -> (res: bool)
    ensures
        res == contains(lowercase_view(desktop@), "gnome"@),
{
    let lower = to_lowercase(desktop);
    let cs = chars_of(lower.as_str());
    contains_str(cs.as_slice(), "gnome")
}

/// Whether the desktop name (`XDG_CURRENT_DESKTOP`) names KDE or Plasma, in any case.
pub fn desktop_is_kde(desktop: &str) -> (res: bool)
    ensures
        res == (contains(lowercase_view(desktop@), "kde"@) || contains(
            lowercase_view(desktop@),
            "plasma"@,
        )),
{
    let lower = to_lowercase(desktop);
    let cs = chars_of(lower.as_str());
    contains_str(cs.as_slice(), "kde") || contains_str(cs.as_slice(), "plasma")
}

// ───────────────────────────── sensor loop ─────────────────────────────
/// Which configured action the loop runs.
#[derive(Clone, Copy, Debug, PartialEq, Eq, Structural)]
pub enum Trigger {
    /// The user went away (proximity threshold met for the away delay).
    Away,
    /// The user came back after the away action ran.
    Return,
    /// The user stopped looking for the not-looking delay.
    NotLooking,
    /// The user looks again after the not-looking action ran.
    Looking,
}

/// What the loop asks the caller to do, in order.
#[derive(Debug)]
pub enum LoopAction {
    /// Run a configured action.
    Run { trigger: Trigger, action: String, arg: u8, custom: String },
    /// Restore the brightness that dimming lowered.
    RestoreBrightness,
}

/// A loop action as plain values.
pub enum LoopActionView {
    Run(Trigger, Seq<char>, u8, Seq<char>),
    RestoreBrightness,
}

impl View for LoopAction {
    type V = LoopActionView;

    open spec fn view(&self) -> LoopActionView {
        match self {
            LoopAction::Run { trigger, action, arg, custom } => LoopActionView::Run(
                *trigger,
                action@,
                *arg,
                custom@,
            ),
            LoopAction::RestoreBrightness => LoopActionView::RestoreBrightness,
        }
    }
}

/// The daemon's memory between sensor readings. Times are milliseconds on a monotonic clock.
#[derive(Clone, Copy, Debug)]
pub struct SensorLoop {
    /// The proximity state met the away threshold at the last reading.
    pub prev_is_away: bool,
    /// When the away action is due, while it is pending.
    pub away_pending: Option<u64>,
    /// The away action ran in the current away episode.
    pub away_fired: bool,
    /// The user was not looking at the last reading.
    pub prev_is_notlooking: bool,
    /// When the not-looking action is due, while it is pending.
    pub notlooking_pending: Option<u64>,
    /// The not-looking action ran in the current episode.
    pub notlooking_fired: bool,
    /// The not-looking action dimmed the screen.
    pub screen_dimmed: bool,
}

/// The largest clock reading the loop accepts: a due time, up to `u32::MAX` seconds ahead,
/// must fit in a `u64`.
pub const MAX_NOW_MS: u64 = 18446739778742256615;

/// The loop's memory is consistent: a pending action belongs to a running episode whose action
/// has not run; a fired action belongs to a running episode; dimming belongs to a fired
/// not-looking action.
pub open spec fn loop_wf(s: SensorLoop) -> bool {
    &&& (s.away_pending is Some ==> s.prev_is_away && !s.away_fired)
    &&& (s.away_fired ==> s.prev_is_away)
    &&& (s.notlooking_pending is Some ==> s.prev_is_notlooking && !s.notlooking_fired)
    &&& (s.notlooking_fired ==> s.prev_is_notlooking)
    &&& (s.screen_dimmed ==> s.notlooking_fired)
}

/// The proximity half of a step: the new memory and the actions it runs.
pub open spec fn away_step(s: SensorLoop, c: PresenceConfigView, is_away: bool, now: u64) -> (
    SensorLoop,
    Seq<LoopActionView>,
) {
    // A change of state starts or ends an away episode.
    let (s1, acts1) = if is_away != s.prev_is_away {
        if is_away {
            (
                SensorLoop {
                    away_pending: Some((now + c.prox_away_delay as u64 * 1000) as u64),
                    away_fired: false,
                    prev_is_away: true,
                    ..s
                },
                Seq::<LoopActionView>::empty(),
            )
        } else {
            (
                SensorLoop { away_pending: None, away_fired: false, prev_is_away: false, ..s },
                if s.away_fired {
                    seq![
                        LoopActionView::Run(
                            Trigger::Return,
                            c.prox_return_action,
                            0,
                            c.prox_return_custom,
                        ),
                    ]
                } else {
                    Seq::empty()
                },
            )
        }
    } else {
        (s, Seq::empty())
    };
    // A pending away action runs once it is due.
    if is_away && !s1.away_fired && (s1.away_pending matches Some(due) && now >= due) {
        (
            SensorLoop { away_fired: true, away_pending: None, ..s1 },
            acts1.push(LoopActionView::Run(Trigger::Away, c.prox_away_action, 0, c.prox_away_custom)),
        )
    } else {
        (s1, acts1)
    }
}

/// The attention half of a step: the new memory and the actions it runs.
pub open spec fn attention_step(
    s: SensorLoop,
    c: PresenceConfigView,
    is_notlooking: bool,
    now: u64,
) -> (SensorLoop, Seq<LoopActionView>) {
    // A change of state starts or ends a not-looking episode.
    let (s1, acts1) = if is_notlooking != s.prev_is_notlooking {
        if is_notlooking {
            (
                SensorLoop {
                    notlooking_pending: Some((now + c.attn_notlooking_delay as u64 * 1000) as u64),
                    notlooking_fired: false,
                    prev_is_notlooking: true,
                    ..s
                },
                Seq::<LoopActionView>::empty(),
            )
        } else {
            let restore = s.notlooking_fired && s.screen_dimmed;
            (
                SensorLoop {
                    notlooking_pending: None,
                    notlooking_fired: false,
                    prev_is_notlooking: false,
                    screen_dimmed: if restore {
                        false
                    } else {
                        s.screen_dimmed
                    },
                    ..s
                },
                if s.notlooking_fired {
                    (if restore {
                        seq![LoopActionView::RestoreBrightness]
                    } else {
                        Seq::empty()
                    }).push(
                        LoopActionView::Run(
                            Trigger::Looking,
                            c.attn_looking_action,
                            0,
                            c.attn_looking_custom,
                        ),
                    )
                } else {
                    Seq::empty()
                },
            )
        }
    } else {
        (s, Seq::empty())
    };
    // A pending not-looking action runs once it is due; "dim" marks the screen dimmed.
    if is_notlooking && !s1.notlooking_fired && (s1.notlooking_pending matches Some(due) && now
        >= due) {
        (
            SensorLoop {
                notlooking_fired: true,
                notlooking_pending: None,
                screen_dimmed: if c.attn_notlooking_action == "dim"@ {
                    true
                } else {
                    s1.screen_dimmed
                },
                ..s1
            },
            acts1.push(
                LoopActionView::Run(
                    Trigger::NotLooking,
                    c.attn_notlooking_action,
                    c.attn_notlooking_dim,
                    c.attn_notlooking_custom,
                ),
            ),
        )
    } else {
        (s1, acts1)
    }
}

/// One step of the sensor loop: the proximity half, then the attention half.
pub open spec fn loop_step(
    s: SensorLoop,
    c: PresenceConfigView,
    prox: ProxState,
    attn: AttentionState,
    now: u64,
) -> (SensorLoop, Seq<LoopActionView>) {
    let is_away = spec_state_level(prox_name(prox)) >= spec_state_level(c.prox_away_threshold);
    let (s1, a1) = away_step(s, c, is_away, now);
    let (s2, a2) = attention_step(s1, c, attn == AttentionState::NotLooking, now);
    (s2, a1 + a2)
}

} // verus!

verus! {

/// The view of each action, in order.
pub open spec fn actions_view(acts: Seq<LoopAction>) -> Seq<LoopActionView> {
    acts.map_values(|a: LoopAction| a@)
}

/// Appends one action.
fn push_action(acts: &mut Vec<LoopAction>, a: LoopAction)
    ensures
        actions_view(final(acts)@) == actions_view(old(acts)@).push(a@),
{
    acts.push(a);
    assert(actions_view(acts@) =~= actions_view(old(acts)@).push(a@));
}

impl SensorLoop {
    /// The memory at the first reading: the states read then count as already observed, so
    /// an episode in progress at start-up runs no action until it ends and starts again.
    pub fn new(cfg: &PresenceConfig, prox: ProxState, attn: AttentionState) -> (s: Self)
        ensures
            s == (SensorLoop {
                prev_is_away: spec_state_level(prox_name(prox)) >= spec_state_level(
                    cfg.prox_away_threshold@,
                ),
                away_pending: None,
                away_fired: false,
                prev_is_notlooking: attn == AttentionState::NotLooking,
                notlooking_pending: None,
                notlooking_fired: false,
                screen_dimmed: false,
            }),
            loop_wf(s),
    {
        SensorLoop {
            prev_is_away: cfg.prox_meets_away_threshold(prox.display()),
            away_pending: None,
            away_fired: false,
            prev_is_notlooking: attn == AttentionState::NotLooking,
            notlooking_pending: None,
            notlooking_fired: false,
            screen_dimmed: false,
        }
    }

    /// The proximity half of a step.
    fn step_away(&mut self, cfg: &PresenceConfig, is_away: bool, now_ms: u64) -> (res: Vec<LoopAction>)
        requires
            now_ms <= MAX_NOW_MS,
        ensures
            (*final(self), actions_view(res@)) == away_step(*old(self), cfg@, is_away, now_ms),
    {
        let mut acts: Vec<LoopAction> = Vec::new();
        assert(actions_view(acts@) =~= Seq::<LoopActionView>::empty());
        if is_away != self.prev_is_away {
            if is_away {
                self.away_pending = Some(now_ms + (cfg.prox_away_delay as u64) * 1000);
                self.away_fired = false;
            } else {
                self.away_pending = None;
                if self.away_fired {
                    push_action(
                        &mut acts,
                        LoopAction::Run {
                            trigger: Trigger::Return,
                            action: cfg.prox_return_action.clone(),
                            arg: 0,
                            custom: cfg.prox_return_custom.clone(),
                        },
                    );
                }
                self.away_fired = false;
            }
            self.prev_is_away = is_away;
        }
        if is_away && !self.away_fired {
            if let Some(fire_at) = self.away_pending {
                if now_ms >= fire_at {
                    push_action(
                        &mut acts,
                        LoopAction::Run {
                            trigger: Trigger::Away,
                            action: cfg.prox_away_action.clone(),
                            arg: 0,
                            custom: cfg.prox_away_custom.clone(),
                        },
                    );
                    self.away_fired = true;
                    self.away_pending = None;
                }
            }
        }
        acts
    }

    /// The attention half of a step.
    fn step_attention(&mut self, cfg: &PresenceConfig, is_notlooking: bool, now_ms: u64) -> (res: Vec<LoopAction>)
        requires
            now_ms <= MAX_NOW_MS,
        ensures
            (*final(self), actions_view(res@)) == attention_step(
                *old(self),
                cfg@,
                is_notlooking,
                now_ms,
            ),
    {
        let mut acts: Vec<LoopAction> = Vec::new();
        assert(actions_view(acts@) =~= Seq::<LoopActionView>::empty());
        if is_notlooking != self.prev_is_notlooking {
            if is_notlooking {
                self.notlooking_pending = Some(now_ms + (cfg.attn_notlooking_delay as u64) * 1000);
                self.notlooking_fired = false;
            } else {
                self.notlooking_pending = None;
                if self.notlooking_fired {
                    if self.screen_dimmed {
                        push_action(&mut acts, LoopAction::RestoreBrightness);
                        self.screen_dimmed = false;
                    }
                    push_action(
                        &mut acts,
                        LoopAction::Run {
                            trigger: Trigger::Looking,
                            action: cfg.attn_looking_action.clone(),
                            arg: 0,
                            custom: cfg.attn_looking_custom.clone(),
                        },
                    );
                }
                self.notlooking_fired = false;
            }
            self.prev_is_notlooking = is_notlooking;
        }
        if is_notlooking && !self.notlooking_fired {
            if let Some(fire_at) = self.notlooking_pending {
                if now_ms >= fire_at {
                    let action = cfg.attn_notlooking_action.clone();
                    let dims = chars_eq_str(chars_of(action.as_str()).as_slice(), "dim");
                    push_action(
                        &mut acts,
                        LoopAction::Run {
                            trigger: Trigger::NotLooking,
                            action,
                            arg: cfg.attn_notlooking_dim,
                            custom: cfg.attn_notlooking_custom.clone(),
                        },
                    );
                    if dims {
                        self.screen_dimmed = true;
                    }
                    self.notlooking_fired = true;
                    self.notlooking_pending = None;
                }
            }
        }
        acts
    }

    /// One reading of the sensors at time `now_ms`: updates the memory and returns the
    /// actions to run, in order.
    pub fn step(&mut self, cfg: &PresenceConfig, prox: ProxState, attn: AttentionState, now_ms: u64) -> (res: Vec<LoopAction>)
        requires
            now_ms <= MAX_NOW_MS,
        ensures
            (*final(self), actions_view(res@)) == loop_step(*old(self), cfg@, prox, attn, now_ms),
            loop_wf(*old(self)) ==> loop_wf(*final(self)),
    {
        let is_away = cfg.prox_meets_away_threshold(prox.display());
        let mut acts = self.step_away(cfg, is_away, now_ms);
        let is_notlooking = attn == AttentionState::NotLooking;
        let mut acts2 = self.step_attention(cfg, is_notlooking, now_ms);
        let ghost first = acts@;
        let ghost second = acts2@;
        acts.append(&mut acts2);
        assert(actions_view(acts@) =~= actions_view(first) + actions_view(second));
        acts
    }
}

} // verus!

verus! {

// ───────────────────────────── laws ─────────────────────────────
/// A state's name ranks the state: the away threshold compares states in the order
/// "Very Near" < "Near" < "Far" < "Away".
pub proof fn law_state_name_rank(p: ProxState)
    ensures
        spec_state_level(prox_name(p)) == prox_rank(p),
{
    reveal_strlit("Very Near");
    reveal_strlit("Near");
    reveal_strlit("Far");
    reveal_strlit("Away");
    assert("Very Near"@.len() == 9);
    assert("Near"@.len() == 4);
    assert("Far"@.len() == 3);
    assert("Away"@.len() == 4);
    assert("Away"@[0] != "Near"@[0]);
}

/// Counts of the four states add up to the number of states.
proof fn lemma_counts(states: Seq<ProxState>)
    ensures
        count_of(states, ProxState::VeryNear) + count_of(states, ProxState::Near) + count_of(
            states,
            ProxState::Far,
        ) + count_of(states, ProxState::Away) == states.len(),
        count_of(states, ProxState::Away) == states.len() <==> forall|i: int|
            0 <= i < states.len() ==> states[i] == ProxState::Away,
    decreases states.len(),
{
    if states.len() > 0 {
        let init = states.drop_last();
        lemma_counts(init);
        if count_of(states, ProxState::Away) == states.len() {
            assert forall|i: int| 0 <= i < states.len() implies states[i] == ProxState::Away by {
                if i < states.len() - 1 {
                    assert(states[i] == init[i]);
                }
            }
        }
        if forall|i: int| 0 <= i < states.len() ==> states[i] == ProxState::Away {
            assert forall|i: int| 0 <= i < init.len() implies init[i] == ProxState::Away by {
                assert(init[i] == states[i]);
            }
        }
    }
}

/// A state that no element has is counted zero times; one that every element has, every time.
proof fn lemma_count_extremes(states: Seq<ProxState>, x: ProxState)
    ensures
        (forall|i: int| 0 <= i < states.len() ==> states[i] != x) ==> count_of(states, x) == 0,
        (forall|i: int| 0 <= i < states.len() ==> states[i] == x) ==> count_of(states, x)
            == states.len(),
    decreases states.len(),
{
    if states.len() > 0 {
        let init = states.drop_last();
        lemma_count_extremes(init, x);
        if forall|i: int| 0 <= i < states.len() ==> states[i] != x {
            assert forall|i: int| 0 <= i < init.len() implies init[i] != x by {
                assert(init[i] == states[i]);
            }
        }
        if forall|i: int| 0 <= i < states.len() ==> states[i] == x {
            assert forall|i: int| 0 <= i < init.len() implies init[i] == x by {
                assert(init[i] == states[i]);
            }
        }
    }
}

/// Every element of `states` is `x`.
pub open spec fn all_are(states: Seq<ProxState>, x: ProxState) -> bool {
    forall|i: int| 0 <= i < states.len() ==> states[i] == x
}

/// The sensors' consensus: "Away" exactly when every sensor (or none at all) says "Away";
/// otherwise a state that some sensor reports; the state of all sensors when they agree; and
/// a nearer-than-away state that more than half of the sensors report.
pub proof fn law_consensus_prox(states: Seq<ProxState>)
    ensures
        consensus_view(states) == ProxState::Away <==> forall|i: int|
            0 <= i < states.len() ==> states[i] == ProxState::Away,
        states.len() > 0 ==> exists|i: int|
            0 <= i < states.len() && states[i] == consensus_view(states),
        forall|x: ProxState|
            states.len() > 0 && #[trigger] all_are(states, x) ==> consensus_view(states) == x,
        forall|x: ProxState|
            x != ProxState::Away && #[trigger] count_of(states, x) > states.len() / 2
                ==> consensus_view(states) == x,
        forall|x: ProxState|
            x != ProxState::Away && consensus_view(states) != ProxState::Away ==> #[trigger] count_of(
                states,
                x,
            ) <= count_of(states, consensus_view(states)),
        forall|x: ProxState|
            x != ProxState::Away && consensus_view(states) != ProxState::Away && prox_rank(x)
                < prox_rank(consensus_view(states)) ==> #[trigger] count_of(states, x) < count_of(
                states,
                consensus_view(states),
            ),
{
    lemma_counts(states);
    let r = consensus_view(states);
    let vn = count_of(states, ProxState::VeryNear);
    let nr = count_of(states, ProxState::Near);
    let fr = count_of(states, ProxState::Far);
    if states.len() > 0 && !(exists|i: int| 0 <= i < states.len() && states[i] == r) {
        lemma_count_extremes(states, r);
        if r == ProxState::Away {
            assert(states[0] == ProxState::Away);
        }
    }
    assert forall|x: ProxState| states.len() > 0 && #[trigger] all_are(states, x) implies consensus_view(
        states,
    ) == x by {
        lemma_count_extremes(states, x);
        lemma_count_extremes(states, ProxState::VeryNear);
        lemma_count_extremes(states, ProxState::Near);
        lemma_count_extremes(states, ProxState::Far);
        if x != ProxState::Away {
            assert(states[0] != ProxState::Away);
        }
    }
}

/// Whether `a` runs the action for `t`.
pub open spec fn is_run_of(a: LoopActionView, t: Trigger) -> bool {
    a matches LoopActionView::Run(u, _, _, _) && u == t
}

/// Whether the actions include a run of the action for `t`.
pub open spec fn runs(acts: Seq<LoopActionView>, t: Trigger) -> bool {
    exists|i: int| 0 <= i < acts.len() && #[trigger] is_run_of(acts[i], t)
}

/// Whether `a` restores the brightness.
pub open spec fn is_restore(a: LoopActionView) -> bool {
    a is RestoreBrightness
}

/// Whether the actions include restoring the brightness.
pub open spec fn restores(acts: Seq<LoopActionView>) -> bool {
    exists|i: int| 0 <= i < acts.len() && #[trigger] is_restore(acts[i])
}

/// The sensor loop's promises for one step from a consistent memory: the away action runs at
/// most once per away episode and only when it is due (its delay has passed since the user
/// went away, or the delay is zero and the user just went away); the return action runs only
/// when the away action ran in the episode that ends; brightness is restored only when the
/// not-looking action dimmed the screen, and at most once.
pub proof fn law_sensor_loop_step(
    s: SensorLoop,
    c: PresenceConfigView,
    prox: ProxState,
    attn: AttentionState,
    now: u64,
)
    requires
        loop_wf(s),
        now <= MAX_NOW_MS,
    ensures
        ({
            let (t, acts) = loop_step(s, c, prox, attn, now);
            &&& loop_wf(t)
            &&& runs(acts, Trigger::Away) ==> !s.away_fired && t.away_fired && ((s.away_pending
                matches Some(due) && now >= due) || (!s.prev_is_away && c.prox_away_delay == 0))
            &&& runs(acts, Trigger::Return) ==> s.away_fired && !t.away_fired
            &&& runs(acts, Trigger::NotLooking) ==> !s.notlooking_fired && t.notlooking_fired
            &&& runs(acts, Trigger::Looking) ==> s.notlooking_fired && !t.notlooking_fired
            &&& restores(acts) ==> s.screen_dimmed && !t.screen_dimmed
        }),
{
    let is_away = spec_state_level(prox_name(prox)) >= spec_state_level(c.prox_away_threshold);
    let (s1, a1) = away_step(s, c, is_away, now);
    let (s2, a2) = attention_step(s1, c, attn == AttentionState::NotLooking, now);
    let acts = a1 + a2;
    assert(a1.len() <= 2);
    assert forall|i: int, t: Trigger|
        0 <= i < a2.len() && (t == Trigger::Away || t == Trigger::Return) implies !#[trigger] is_run_of(
        a2[i],
        t,
    ) by {
    }
    assert forall|i: int, t: Trigger|
        0 <= i < a1.len() && (t == Trigger::NotLooking || t == Trigger::Looking) implies !#[trigger] is_run_of(
        a1[i],
        t,
    ) by {
    }
    assert forall|i: int| 0 <= i < a1.len() implies !is_restore(#[trigger] a1[i]) by {}
    if runs(acts, Trigger::Away) {
        let i = choose|i: int| 0 <= i < acts.len() && #[trigger] is_run_of(acts[i], Trigger::Away);
        if i >= a1.len() {
            assert(acts[i] == a2[i - a1.len()]);
        } else {
            assert(acts[i] == a1[i]);
        }
    }
    if runs(acts, Trigger::Return) {
        let i = choose|i: int| 0 <= i < acts.len() && #[trigger] is_run_of(acts[i], Trigger::Return);
        if i >= a1.len() {
            assert(acts[i] == a2[i - a1.len()]);
        } else {
            assert(acts[i] == a1[i]);
        }
    }
    if runs(acts, Trigger::NotLooking) {
        let i = choose|i: int| 0 <= i < acts.len() && #[trigger] is_run_of(acts[i], Trigger::NotLooking);
        if i < a1.len() {
            assert(acts[i] == a1[i]);
        }
        assert(acts[i] == a2[i - a1.len()]);
    }
    if runs(acts, Trigger::Looking) {
        let i = choose|i: int| 0 <= i < acts.len() && #[trigger] is_run_of(acts[i], Trigger::Looking);
        if i < a1.len() {
            assert(acts[i] == a1[i]);
        }
        assert(acts[i] == a2[i - a1.len()]);
    }
    if restores(acts) {
        let i = choose|i: int| 0 <= i < acts.len() && #[trigger] is_restore(acts[i]);
        if i < a1.len() {
            assert(acts[i] == a1[i]);
        }
        assert(acts[i] == a2[i - a1.len()]);
    }
}

/// One sensor's proximity state: nobody is there unless the presence flag reads exactly 1;
/// then a distance below 250 is "Very Near", from 250 below 800 "Near", and from 800 (or an
/// unreadable distance) "Far". A greater distance is never a nearer state.
pub proof fn law_prox_state_thresholds(p0: Option<i64>, p1: Option<i64>, v1: i64, v2: i64)
    ensures
        (prox_state_view(p0, p1) == ProxState::Away) <==> p0 != Some(1i64),
        p0 == Some(1i64) && p1 == Some(v1) ==> ((prox_state_view(p0, p1) == ProxState::VeryNear)
            <==> v1 < 250),
        p0 == Some(1i64) && p1 == Some(v1) ==> ((prox_state_view(p0, p1) == ProxState::Near) <==> (
        250 <= v1 && v1 < 800)),
        p0 == Some(1i64) && p1 == Some(v1) ==> ((prox_state_view(p0, p1) == ProxState::Far) <==> 800
            <= v1),
        p0 == Some(1i64) && p1 is None ==> prox_state_view(p0, p1) == ProxState::Far,
        v1 <= v2 ==> prox_rank(prox_state_view(Some(1i64), Some(v1))) <= prox_rank(
            prox_state_view(Some(1i64), Some(v2)),
        ),
{
}

} // verus!
