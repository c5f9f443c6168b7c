//! The sensor loop over a run of readings: when each configured action runs, stated over the
//! whole history of proximity and attention states since start-up.
use vstd::prelude::*;
use crate::daemon::{
    attention_step, away_step, is_restore, is_run_of, loop_step, prox_name, restores, runs,
    loop_wf, law_sensor_loop_step, AttentionState, LoopActionView, ProxState, SensorLoop, Trigger,
    MAX_NOW_MS,
};
use crate::presence_config::{spec_state_level, PresenceConfigView};

verus! {

/// An action as the settings `c` configure it: each trigger runs its own configured action
/// and command (the away action with the away command, the return action with the return
/// command, the not-looking action with the dim level and not-looking command, the looking
/// action with the looking command), and only the not-looking action carries an argument.
pub open spec fn configured(c: PresenceConfigView, x: LoopActionView) -> bool {
    match x {
        LoopActionView::Run(t, a, g, u) => match t {
            Trigger::Away => a == c.prox_away_action && g == 0 && u == c.prox_away_custom,
            Trigger::Return => a == c.prox_return_action && g == 0 && u == c.prox_return_custom,
            Trigger::NotLooking => a == c.attn_notlooking_action && g == c.attn_notlooking_dim
                && u == c.attn_notlooking_custom,
            Trigger::Looking => a == c.attn_looking_action && g == 0 && u == c.attn_looking_custom,
        },
        LoopActionView::RestoreBrightness => true,
    }
}

/// Whether the proximity state `p` counts as away under the settings `c`.
pub open spec fn is_away_for(c: PresenceConfigView, p: ProxState) -> bool {
    spec_state_level(prox_name(p)) >= spec_state_level(c.prox_away_threshold)
}

/// The looking-again actions: brightness restored first when the screen was dimmed, then the
/// configured looking action.
pub open spec fn looking_actions(c: PresenceConfigView, dimmed: bool) -> Seq<LoopActionView> {
    (if dimmed {
        seq![LoopActionView::RestoreBrightness]
    } else {
        Seq::<LoopActionView>::empty()
    }).push(LoopActionView::Run(Trigger::Looking, c.attn_looking_action, 0, c.attn_looking_custom))
}

proof fn lemma_runs_concat(a: Seq<LoopActionView>, b: Seq<LoopActionView>, t: Trigger)
    ensures
        runs(a + b, t) == (runs(a, t) || runs(b, t)),
        restores(a + b) == (restores(a) || restores(b)),
{
    if runs(a + b, t) {
        let i = choose|i: int| 0 <= i < (a + b).len() && #[trigger] is_run_of((a + b)[i], t);
        if i < a.len() {
            assert(is_run_of(a[i], t));
        } else {
            assert(is_run_of(b[i - a.len()], t));
        }
    }
    if runs(a, t) {
        let i = choose|i: int| 0 <= i < a.len() && #[trigger] is_run_of(a[i], t);
        assert(is_run_of((a + b)[i], t));
    }
    if runs(b, t) {
        let i = choose|i: int| 0 <= i < b.len() && #[trigger] is_run_of(b[i], t);
        assert(is_run_of((a + b)[i + a.len()], t));
    }
    if restores(a + b) {
        let i = choose|i: int| 0 <= i < (a + b).len() && #[trigger] is_restore((a + b)[i]);
        if i < a.len() {
            assert(is_restore(a[i]));
        } else {
            assert(is_restore(b[i - a.len()]));
        }
    }
    if restores(a) {
        let i = choose|i: int| 0 <= i < a.len() && #[trigger] is_restore(a[i]);
        assert(is_restore((a + b)[i]));
    }
    if restores(b) {
        let i = choose|i: int| 0 <= i < b.len() && #[trigger] is_restore(b[i]);
        assert(is_restore((a + b)[i + a.len()]));
    }
}

proof fn lemma_runs_small(x: LoopActionView, t: Trigger)
    ensures
        !runs(Seq::<LoopActionView>::empty(), t),
        !restores(Seq::<LoopActionView>::empty()),
        runs(seq![x], t) == is_run_of(x, t),
        restores(seq![x]) == is_restore(x),
{
    if is_run_of(x, t) {
        assert(is_run_of(seq![x][0], t));
    }
    if is_restore(x) {
        assert(is_restore(seq![x][0]));
    }
}

/// When the away action of a step is due: set by the step that starts an away episode, kept
/// while it lasts.
pub open spec fn away_due(s: SensorLoop, c: PresenceConfigView, ia: bool, now: u64) -> Option<u64> {
    if ia && !s.prev_is_away {
        Some((now + c.prox_away_delay * 1000) as u64)
    } else if ia {
        s.away_pending
    } else {
        None
    }
}

/// When the not-looking action of a step is due.
pub open spec fn notlooking_due(s: SensorLoop, c: PresenceConfigView, inl: bool, now: u64) -> Option<
    u64,
> {
    if inl && !s.prev_is_notlooking {
        Some((now + c.attn_notlooking_delay * 1000) as u64)
    } else if inl {
        s.notlooking_pending
    } else {
        None
    }
}

/// One step of the loop, in closed form: when each action runs, and what a step that ends a
/// not-looking episode returns.
pub proof fn lemma_step_runs(
    s: SensorLoop,
    c: PresenceConfigView,
    prox: ProxState,
    attn: AttentionState,
    now: u64,
)
    requires
        now <= MAX_NOW_MS,
    ensures
        runs(loop_step(s, c, prox, attn, now).1, Trigger::Away) == (is_away_for(c, prox) && !(
        s.prev_is_away && s.away_fired) && (away_due(s, c, is_away_for(c, prox), now) matches Some(
            d,
        ) && now >= d)),
        runs(loop_step(s, c, prox, attn, now).1, Trigger::Return) == (!is_away_for(c, prox)
            && s.prev_is_away && s.away_fired),
        runs(loop_step(s, c, prox, attn, now).1, Trigger::NotLooking) == (attn
            == AttentionState::NotLooking && !(s.prev_is_notlooking && s.notlooking_fired) && (
        notlooking_due(s, c, attn == AttentionState::NotLooking, now) matches Some(d) && now >= d)),
        runs(loop_step(s, c, prox, attn, now).1, Trigger::Looking) == (attn
            != AttentionState::NotLooking && s.prev_is_notlooking && s.notlooking_fired),
        restores(loop_step(s, c, prox, attn, now).1) == (attn != AttentionState::NotLooking
            && s.prev_is_notlooking && s.notlooking_fired && s.screen_dimmed),
        (attn != AttentionState::NotLooking && s.prev_is_notlooking) ==> loop_step(
            s,
            c,
            prox,
            attn,
            now,
        ).1 == away_step(s, c, is_away_for(c, prox), now).1 + (if s.notlooking_fired {
            looking_actions(c, s.screen_dimmed)
        } else {
            Seq::<LoopActionView>::empty()
        }),
{
    let ia = is_away_for(c, prox);
    let inl = attn == AttentionState::NotLooking;
    let (s1, a1) = away_step(s, c, ia, now);
    let (s2, a2) = attention_step(s1, c, inl, now);
    assert(loop_step(s, c, prox, attn, now) == (s2, a1 + a2));
    lemma_away_runs(s, c, ia, now);
    lemma_attention_runs(s1, c, inl, now);
    lemma_runs_concat(a1, a2, Trigger::Away);
    lemma_runs_concat(a1, a2, Trigger::Return);
    lemma_runs_concat(a1, a2, Trigger::NotLooking);
    lemma_runs_concat(a1, a2, Trigger::Looking);
}

/// The proximity half of a step, in closed form.
proof fn lemma_away_runs(s: SensorLoop, c: PresenceConfigView, ia: bool, now: u64)
    requires
        now <= MAX_NOW_MS,
    ensures
        runs(away_step(s, c, ia, now).1, Trigger::Away) == (ia && !(s.prev_is_away && s.away_fired)
            && (away_due(s, c, ia, now) matches Some(d) && now >= d)),
        runs(away_step(s, c, ia, now).1, Trigger::Return) == (!ia && s.prev_is_away
            && s.away_fired),
        !runs(away_step(s, c, ia, now).1, Trigger::NotLooking),
        !runs(away_step(s, c, ia, now).1, Trigger::Looking),
        !restores(away_step(s, c, ia, now).1),
        away_step(s, c, ia, now).0.prev_is_notlooking == s.prev_is_notlooking,
        away_step(s, c, ia, now).0.notlooking_fired == s.notlooking_fired,
        away_step(s, c, ia, now).0.notlooking_pending == s.notlooking_pending,
        away_step(s, c, ia, now).0.screen_dimmed == s.screen_dimmed,
        forall|i: int|
            0 <= i < away_step(s, c, ia, now).1.len() ==> configured(
                c,
                #[trigger] away_step(s, c, ia, now).1[i],
            ),
{
    let a1 = away_step(s, c, ia, now).1;
    let ret = LoopActionView::Run(Trigger::Return, c.prox_return_action, 0, c.prox_return_custom);
    let awy = LoopActionView::Run(Trigger::Away, c.prox_away_action, 0, c.prox_away_custom);
    let e = Seq::<LoopActionView>::empty();
    assert(e.push(ret) =~= seq![ret]);
    assert(e.push(awy) =~= seq![awy]);
    assert(seq![ret].push(awy) =~= seq![ret] + seq![awy]);
    lemma_runs_small(ret, Trigger::Away);
    lemma_runs_small(awy, Trigger::Away);
    lemma_runs_concat(seq![ret], seq![awy], Trigger::Away);
    lemma_runs_small(ret, Trigger::Return);
    lemma_runs_small(awy, Trigger::Return);
    lemma_runs_concat(seq![ret], seq![awy], Trigger::Return);
    lemma_runs_small(ret, Trigger::NotLooking);
    lemma_runs_small(awy, Trigger::NotLooking);
    lemma_runs_concat(seq![ret], seq![awy], Trigger::NotLooking);
    lemma_runs_small(ret, Trigger::Looking);
    lemma_runs_small(awy, Trigger::Looking);
    lemma_runs_concat(seq![ret], seq![awy], Trigger::Looking);
    if ia != s.prev_is_away && !ia && s.away_fired {
        assert(a1 == seq![ret]);
    } else if ia && ((ia != s.prev_is_away && now >= (now + c.prox_away_delay * 1000) as u64) || (
    ia == s.prev_is_away && !s.away_fired && (s.away_pending matches Some(d) && now >= d))) {
        assert(a1 == seq![awy]);
    } else {
        assert(a1 == e);
    }
}

/// The attention half of a step, in closed form.
proof fn lemma_attention_runs(u: SensorLoop, c: PresenceConfigView, inl: bool, now: u64)
    requires
        now <= MAX_NOW_MS,
    ensures
        runs(attention_step(u, c, inl, now).1, Trigger::NotLooking) == (inl && !(
        u.prev_is_notlooking && u.notlooking_fired) && (notlooking_due(u, c, inl, now) matches Some(
            d,
        ) && now >= d)),
        runs(attention_step(u, c, inl, now).1, Trigger::Looking) == (!inl && u.prev_is_notlooking
            && u.notlooking_fired),
        restores(attention_step(u, c, inl, now).1) == (!inl && u.prev_is_notlooking
            && u.notlooking_fired && u.screen_dimmed),
        !runs(attention_step(u, c, inl, now).1, Trigger::Away),
        !runs(attention_step(u, c, inl, now).1, Trigger::Return),
        (!inl && u.prev_is_notlooking) ==> attention_step(u, c, inl, now).1 == (
        if u.notlooking_fired {
            looking_actions(c, u.screen_dimmed)
        } else {
            Seq::<LoopActionView>::empty()
        }),
        forall|i: int|
            0 <= i < attention_step(u, c, inl, now).1.len() ==> configured(
                c,
                #[trigger] attention_step(u, c, inl, now).1[i],
            ),
{
    let a2 = attention_step(u, c, inl, now).1;
    let lk = LoopActionView::Run(Trigger::Looking, c.attn_looking_action, 0, c.attn_looking_custom);
    let nl = LoopActionView::Run(
        Trigger::NotLooking,
        c.attn_notlooking_action,
        c.attn_notlooking_dim,
        c.attn_notlooking_custom,
    );
    let r = LoopActionView::RestoreBrightness;
    let e = Seq::<LoopActionView>::empty();
    assert(e.push(nl) =~= seq![nl]);
    assert(e.push(lk) =~= seq![lk]);
    assert(seq![r].push(lk) =~= seq![r] + seq![lk]);
    lemma_runs_small(lk, Trigger::Away);
    lemma_runs_small(nl, Trigger::Away);
    lemma_runs_small(r, Trigger::Away);
    lemma_runs_concat(seq![r], seq![lk], Trigger::Away);
    lemma_runs_small(lk, Trigger::Return);
    lemma_runs_small(nl, Trigger::Return);
    lemma_runs_small(r, Trigger::Return);
    lemma_runs_concat(seq![r], seq![lk], Trigger::Return);
    lemma_runs_small(lk, Trigger::NotLooking);
    lemma_runs_small(nl, Trigger::NotLooking);
    lemma_runs_small(r, Trigger::NotLooking);
    lemma_runs_concat(seq![r], seq![lk], Trigger::NotLooking);
    lemma_runs_small(lk, Trigger::Looking);
    lemma_runs_small(nl, Trigger::Looking);
    lemma_runs_small(r, Trigger::Looking);
    lemma_runs_concat(seq![r], seq![lk], Trigger::Looking);
    if !inl && u.prev_is_notlooking {
        if u.notlooking_fired {
            if u.screen_dimmed {
                assert(a2 == seq![r] + seq![lk]);
            } else {
                assert(a2 == seq![lk]);
            }
        } else {
            assert(a2 == e);
        }
    } else if !inl {
        assert(a2 == e);
    } else if !u.prev_is_notlooking {
        if now >= (now + c.attn_notlooking_delay * 1000) as u64 {
            assert(a2 == seq![nl]);
        } else {
            assert(a2 == e);
        }
    } else if !u.notlooking_fired && (u.notlooking_pending matches Some(d) && now >= d) {
        assert(a2 == seq![nl]);
    } else {
        assert(a2 == e);
    }
}

/// The memory after one step, in closed form, from a consistent memory.
proof fn lemma_step_state(
    s: SensorLoop,
    c: PresenceConfigView,
    prox: ProxState,
    attn: AttentionState,
    now: u64,
)
    requires
        now <= MAX_NOW_MS,
        loop_wf(s),
    ensures
        ({
            let ia = is_away_for(c, prox);
            let inl = attn == AttentionState::NotLooking;
            let t = loop_step(s, c, prox, attn, now).0;
            let acts = loop_step(s, c, prox, attn, now).1;
            &&& t.prev_is_away == ia
            &&& t.away_fired == (ia && ((s.prev_is_away && s.away_fired) || runs(
                acts,
                Trigger::Away,
            )))
            &&& t.away_pending == (if t.away_fired || !ia {
                None
            } else {
                away_due(s, c, ia, now)
            })
            &&& t.prev_is_notlooking == inl
            &&& t.notlooking_fired == (inl && ((s.prev_is_notlooking && s.notlooking_fired) || runs(
                acts,
                Trigger::NotLooking,
            )))
            &&& t.notlooking_pending == (if t.notlooking_fired || !inl {
                None
            } else {
                notlooking_due(s, c, inl, now)
            })
            &&& t.screen_dimmed == (if !inl && s.prev_is_notlooking && s.notlooking_fired
                && s.screen_dimmed {
                false
            } else if runs(acts, Trigger::NotLooking) && c.attn_notlooking_action == "dim"@ {
                true
            } else {
                s.screen_dimmed
            })
        }),
{
    lemma_step_runs(s, c, prox, attn, now);
    let ia = is_away_for(c, prox);
    let inl = attn == AttentionState::NotLooking;
    let (s1, a1) = away_step(s, c, ia, now);
    let (s2, a2) = attention_step(s1, c, inl, now);
    assert(loop_step(s, c, prox, attn, now) == (s2, a1 + a2));
    assert(s1.prev_is_notlooking == s.prev_is_notlooking);
    assert(s1.notlooking_fired == s.notlooking_fired);
    assert(s1.notlooking_pending == s.notlooking_pending);
    assert(s1.screen_dimmed == s.screen_dimmed);
    assert(s2.prev_is_away == s1.prev_is_away);
    assert(s2.away_fired == s1.away_fired);
    assert(s2.away_pending == s1.away_pending);
}

// ───────────────────────────── runs of readings ─────────────────────────────
/// The loop's memory before tick `k` of a run that starts from `s0` and reads `ticks`, each
/// tick a proximity state, an attention state and a clock reading in milliseconds, under the
/// settings `c`.
pub open spec fn state_before(
    c: PresenceConfigView,
    s0: SensorLoop,
    ticks: Seq<(ProxState, AttentionState, u64)>,
    k: int,
) -> SensorLoop
    decreases k,
{
    if k <= 0 {
        s0
    } else {
        loop_step(
            state_before(c, s0, ticks, k - 1),
            c,
            ticks[k - 1].0,
            ticks[k - 1].1,
            ticks[k - 1].2,
        ).0
    }
}

/// The actions that tick `k` runs, in order.
pub open spec fn actions_at(
    c: PresenceConfigView,
    s0: SensorLoop,
    ticks: Seq<(ProxState, AttentionState, u64)>,
    k: int,
) -> Seq<LoopActionView> {
    loop_step(state_before(c, s0, ticks, k), c, ticks[k].0, ticks[k].1, ticks[k].2).1
}

/// The user counts as away at tick `k`; at tick -1, as read before the loop started.
pub open spec fn away_at(
    c: PresenceConfigView,
    s0: SensorLoop,
    ticks: Seq<(ProxState, AttentionState, u64)>,
    k: int,
) -> bool {
    if k < 0 {
        s0.prev_is_away
    } else {
        is_away_for(c, ticks[k].0)
    }
}

/// The user is not looking at tick `k`; at tick -1, as read before the loop started.
pub open spec fn notlooking_at(
    s0: SensorLoop,
    ticks: Seq<(ProxState, AttentionState, u64)>,
    k: int,
) -> bool {
    if k < 0 {
        s0.prev_is_notlooking
    } else {
        ticks[k].1 == AttentionState::NotLooking
    }
}

/// The first tick of the away episode that holds tick `k`; -1 when it was already under way
/// when the loop started.
pub open spec fn away_start(
    c: PresenceConfigView,
    s0: SensorLoop,
    ticks: Seq<(ProxState, AttentionState, u64)>,
    k: int,
) -> int
    decreases k + 1,
{
    if k < 0 {
        -1
    } else if !away_at(c, s0, ticks, k - 1) {
        k
    } else {
        away_start(c, s0, ticks, k - 1)
    }
}

/// The first tick of the not-looking episode that holds tick `k`; -1 when it was already under
/// way when the loop started.
pub open spec fn notlooking_start(
    s0: SensorLoop,
    ticks: Seq<(ProxState, AttentionState, u64)>,
    k: int,
) -> int
    decreases k + 1,
{
    if k < 0 {
        -1
    } else if !notlooking_at(s0, ticks, k - 1) {
        k
    } else {
        notlooking_start(s0, ticks, k - 1)
    }
}

/// The tick at which the action `t` ran, within ticks `lo..=hi`.
pub open spec fn ran_in(
    c: PresenceConfigView,
    s0: SensorLoop,
    ticks: Seq<(ProxState, AttentionState, u64)>,
    t: Trigger,
    lo: int,
    hi: int,
) -> bool {
    exists|j: int| lo <= j <= hi && #[trigger] runs(actions_at(c, s0, ticks, j), t)
}

/// Some tick in `lo..=hi` reads the clock at or after `due`.
pub open spec fn due_in(
    ticks: Seq<(ProxState, AttentionState, u64)>,
    due: int,
    lo: int,
    hi: int,
) -> bool {
    exists|j: int| lo <= j <= hi && #[trigger] ticks[j].2 >= due
}

/// A memory that no action has touched yet: nothing pending, fired or dimmed.
pub open spec fn fresh(s0: SensorLoop) -> bool {
    &&& s0.away_pending is None
    &&& !s0.away_fired
    &&& s0.notlooking_pending is None
    &&& !s0.notlooking_fired
    &&& !s0.screen_dimmed
}

/// Every clock reading of the run is within the loop's range.
pub open spec fn clock_ok(ticks: Seq<(ProxState, AttentionState, u64)>) -> bool {
    forall|j: int| 0 <= j < ticks.len() ==> #[trigger] ticks[j].2 <= MAX_NOW_MS
}

/// The away half of the memory after tick `k` (before tick 0 for `k == -1`), as the run's
/// history determines it.
pub open spec fn away_inv(
    c: PresenceConfigView,
    s0: SensorLoop,
    ticks: Seq<(ProxState, AttentionState, u64)>,
    k: int,
) -> bool {
    let t = state_before(c, s0, ticks, k + 1);
    let sa = away_start(c, s0, ticks, k);
    let due_a = ticks[sa].2 + c.prox_away_delay * 1000;
    &&& t.prev_is_away == away_at(c, s0, ticks, k)
    &&& (!away_at(c, s0, ticks, k) || sa < 0) ==> !t.away_fired && t.away_pending is None
    &&& (away_at(c, s0, ticks, k) && sa >= 0) ==> {
        &&& t.away_fired == ran_in(c, s0, ticks, Trigger::Away, sa, k)
        &&& t.away_fired == due_in(ticks, due_a, sa, k)
        &&& t.away_pending == (if t.away_fired {
            None
        } else {
            Some(due_a as u64)
        })
    }
}

/// The attention half of the memory after tick `k`, as the run's history determines it.
pub open spec fn attention_inv(
    c: PresenceConfigView,
    s0: SensorLoop,
    ticks: Seq<(ProxState, AttentionState, u64)>,
    k: int,
) -> bool {
    let t = state_before(c, s0, ticks, k + 1);
    let sn = notlooking_start(s0, ticks, k);
    let due_n = ticks[sn].2 + c.attn_notlooking_delay * 1000;
    &&& t.prev_is_notlooking == notlooking_at(s0, ticks, k)
    &&& (!notlooking_at(s0, ticks, k) || sn < 0) ==> !t.notlooking_fired
        && t.notlooking_pending is None
    &&& (notlooking_at(s0, ticks, k) && sn >= 0) ==> {
        &&& t.notlooking_fired == ran_in(c, s0, ticks, Trigger::NotLooking, sn, k)
        &&& t.notlooking_fired == due_in(ticks, due_n, sn, k)
        &&& t.notlooking_pending == (if t.notlooking_fired {
            None
        } else {
            Some(due_n as u64)
        })
    }
    &&& t.screen_dimmed == (t.notlooking_fired && c.attn_notlooking_action == "dim"@)
}

/// The memory after tick `k` is consistent and is what the run's history determines.
pub open spec fn run_inv(
    c: PresenceConfigView,
    s0: SensorLoop,
    ticks: Seq<(ProxState, AttentionState, u64)>,
    k: int,
) -> bool {
    &&& loop_wf(state_before(c, s0, ticks, k + 1))
    &&& away_inv(c, s0, ticks, k)
    &&& attention_inv(c, s0, ticks, k)
}

/// Where an episode starts: `-1 <= start <= k`; a start after start-up follows a tick outside
/// the episode; every tick from the start to `k` is in it.
pub proof fn lemma_starts(
    c: PresenceConfigView,
    s0: SensorLoop,
    ticks: Seq<(ProxState, AttentionState, u64)>,
    k: int,
)
    requires
        k >= -1,
    ensures
        -1 <= away_start(c, s0, ticks, k) <= k,
        -1 <= notlooking_start(s0, ticks, k) <= k,
        away_start(c, s0, ticks, k) >= 0 ==> !away_at(c, s0, ticks, away_start(c, s0, ticks, k) - 1),
        notlooking_start(s0, ticks, k) >= 0 ==> !notlooking_at(
            s0,
            ticks,
            notlooking_start(s0, ticks, k) - 1,
        ),
        away_at(c, s0, ticks, k) ==> forall|j: int|
            away_start(c, s0, ticks, k) <= j <= k ==> #[trigger] away_at(c, s0, ticks, j),
        notlooking_at(s0, ticks, k) ==> forall|j: int|
            notlooking_start(s0, ticks, k) <= j <= k ==> #[trigger] notlooking_at(s0, ticks, j),
    decreases k + 1,
{
    if k >= 0 {
        lemma_starts(c, s0, ticks, k - 1);
    }
}

/// A run of ticks `lo..=k` holds an action exactly when `lo..k` does or tick `k` does.
proof fn lemma_ran_in_last(
    c: PresenceConfigView,
    s0: SensorLoop,
    ticks: Seq<(ProxState, AttentionState, u64)>,
    t: Trigger,
    lo: int,
    k: int,
)
    requires
        lo <= k,
    ensures
        ran_in(c, s0, ticks, t, lo, k) == (ran_in(c, s0, ticks, t, lo, k - 1) || runs(
            actions_at(c, s0, ticks, k),
            t,
        )),
{
    if ran_in(c, s0, ticks, t, lo, k) {
        let j = choose|j: int| lo <= j <= k && #[trigger] runs(actions_at(c, s0, ticks, j), t);
        if j < k {
            assert(ran_in(c, s0, ticks, t, lo, k - 1));
        }
    }
    if ran_in(c, s0, ticks, t, lo, k - 1) {
        let j = choose|j: int| lo <= j <= k - 1 && #[trigger] runs(actions_at(c, s0, ticks, j), t);
        assert(lo <= j <= k);
    }
}

/// Some tick of `lo..=k` is due exactly when some tick of `lo..k` is or tick `k` is.
proof fn lemma_due_in_last(ticks: Seq<(ProxState, AttentionState, u64)>, due: int, lo: int, k: int)
    requires
        lo <= k,
    ensures
        due_in(ticks, due, lo, k) == (due_in(ticks, due, lo, k - 1) || ticks[k].2 >= due),
{
    if due_in(ticks, due, lo, k) {
        let j = choose|j: int| lo <= j <= k && #[trigger] ticks[j].2 >= due;
        if j < k {
            assert(due_in(ticks, due, lo, k - 1));
        }
    }
    if due_in(ticks, due, lo, k - 1) {
        let j = choose|j: int| lo <= j <= k - 1 && #[trigger] ticks[j].2 >= due;
        assert(lo <= j <= k);
    }
}

proof fn lemma_away_inv_step(
    c: PresenceConfigView,
    s0: SensorLoop,
    ticks: Seq<(ProxState, AttentionState, u64)>,
    k: int,
)
    requires
        clock_ok(ticks),
        0 <= k < ticks.len(),
        run_inv(c, s0, ticks, k - 1),
    ensures
        away_inv(c, s0, ticks, k),
{
    let s = state_before(c, s0, ticks, k);
    let prox = ticks[k].0;
    let attn = ticks[k].1;
    let now = ticks[k].2;
    assert(now <= MAX_NOW_MS);
    assert(state_before(c, s0, ticks, k + 1) == loop_step(s, c, prox, attn, now).0);
    lemma_step_runs(s, c, prox, attn, now);
    lemma_step_state(s, c, prox, attn, now);
    assert(c.prox_away_delay * 1000 <= 4294967295000);
    lemma_starts(c, s0, ticks, k);
    lemma_starts(c, s0, ticks, k - 1);
    let sa = away_start(c, s0, ticks, k);
    if away_at(c, s0, ticks, k) && sa >= 0 {
        let due_a = ticks[sa].2 + c.prox_away_delay * 1000;
        lemma_ran_in_last(c, s0, ticks, Trigger::Away, sa, k);
        lemma_due_in_last(ticks, due_a, sa, k);
        if sa == k {
            assert(!ran_in(c, s0, ticks, Trigger::Away, sa, k - 1));
            assert(!due_in(ticks, due_a, sa, k - 1));
        }
    }
}

proof fn lemma_attention_inv_step(
    c: PresenceConfigView,
    s0: SensorLoop,
    ticks: Seq<(ProxState, AttentionState, u64)>,
    k: int,
)
    requires
        clock_ok(ticks),
        0 <= k < ticks.len(),
        run_inv(c, s0, ticks, k - 1),
    ensures
        attention_inv(c, s0, ticks, k),
{
    let s = state_before(c, s0, ticks, k);
    let prox = ticks[k].0;
    let attn = ticks[k].1;
    let now = ticks[k].2;
    assert(now <= MAX_NOW_MS);
    assert(state_before(c, s0, ticks, k + 1) == loop_step(s, c, prox, attn, now).0);
    lemma_step_runs(s, c, prox, attn, now);
    lemma_step_state(s, c, prox, attn, now);
    assert(c.attn_notlooking_delay * 1000 <= 4294967295000);
    lemma_starts(c, s0, ticks, k);
    lemma_starts(c, s0, ticks, k - 1);
    let sn = notlooking_start(s0, ticks, k);
    if notlooking_at(s0, ticks, k) && sn >= 0 {
        let due_n = ticks[sn].2 + c.attn_notlooking_delay * 1000;
        lemma_ran_in_last(c, s0, ticks, Trigger::NotLooking, sn, k);
        lemma_due_in_last(ticks, due_n, sn, k);
        if sn == k {
            assert(!ran_in(c, s0, ticks, Trigger::NotLooking, sn, k - 1));
            assert(!due_in(ticks, due_n, sn, k - 1));
        }
    }
}

/// The memory after each tick is what the run's history determines (`run_inv`).
pub proof fn lemma_run_inv(
    c: PresenceConfigView,
    s0: SensorLoop,
    ticks: Seq<(ProxState, AttentionState, u64)>,
    k: int,
)
    requires
        fresh(s0),
        clock_ok(ticks),
        -1 <= k < ticks.len(),
    ensures
        run_inv(c, s0, ticks, k),
    decreases k + 1,
{
    if k < 0 {
        assert(state_before(c, s0, ticks, 0) == s0);
    } else {
        lemma_run_inv(c, s0, ticks, k - 1);
        let s = state_before(c, s0, ticks, k);
        assert(ticks[k].2 <= MAX_NOW_MS);
        assert(state_before(c, s0, ticks, k + 1) == loop_step(
            s,
            c,
            ticks[k].0,
            ticks[k].1,
            ticks[k].2,
        ).0);
        law_sensor_loop_step(s, c, ticks[k].0, ticks[k].1, ticks[k].2);
        lemma_away_inv_step(c, s0, ticks, k);
        lemma_attention_inv_step(c, s0, ticks, k);
    }
}

// ───────────────────────────── laws ─────────────────────────────
/// The away action over a run of readings under one configuration, from a fresh memory: it
/// runs at tick `k` exactly when the user is away at `k`, the away episode holding `k` began
/// after start-up (at tick `away_start`, after a tick that was not away, and away at every
/// tick since), and `k` is the first tick of that episode whose clock reaches the episode's
/// first tick plus the away delay. So it runs at most once per episode, and never in an
/// episode that was under way at start-up.
pub proof fn law_run_away_action(
    c: PresenceConfigView,
    s0: SensorLoop,
    ticks: Seq<(ProxState, AttentionState, u64)>,
    k: int,
)
    requires
        fresh(s0),
        clock_ok(ticks),
        0 <= k < ticks.len(),
    ensures
        ({
            let st = away_start(c, s0, ticks, k);
            let due = ticks[st].2 + c.prox_away_delay * 1000;
            &&& runs(actions_at(c, s0, ticks, k), Trigger::Away) <==> (away_at(c, s0, ticks, k) && st
                >= 0 && ticks[k].2 >= due && forall|j: int| st <= j < k ==> #[trigger] ticks[j].2 < due)
            &&& -1 <= st <= k
            &&& st >= 0 ==> !away_at(c, s0, ticks, st - 1)
            &&& away_at(c, s0, ticks, k) ==> forall|j: int|
                st <= j <= k ==> #[trigger] away_at(c, s0, ticks, j)
        }),
{
    lemma_starts(c, s0, ticks, k);
    lemma_starts(c, s0, ticks, k - 1);
    lemma_run_inv(c, s0, ticks, k - 1);
    let s = state_before(c, s0, ticks, k);
    let now = ticks[k].2;
    assert(now <= MAX_NOW_MS);
    lemma_step_runs(s, c, ticks[k].0, ticks[k].1, now);
    assert(c.prox_away_delay * 1000 <= 4294967295000);
    let st = away_start(c, s0, ticks, k);
    let due = ticks[st].2 + c.prox_away_delay * 1000;
    if away_at(c, s0, ticks, k) && away_at(c, s0, ticks, k - 1) && st >= 0 {
        assert(due_in(ticks, due, st, k - 1) <==> !(forall|j: int|
            st <= j < k ==> #[trigger] ticks[j].2 < due)) by {
            if due_in(ticks, due, st, k - 1) {
                let j = choose|j: int| st <= j <= k - 1 && #[trigger] ticks[j].2 >= due;
                assert(ticks[j].2 >= due);
            }
            if !(forall|j: int| st <= j < k ==> #[trigger] ticks[j].2 < due) {
                let j = choose|j: int| !(st <= j < k ==> #[trigger] ticks[j].2 < due);
                assert(st <= j <= k - 1 && ticks[j].2 >= due);
            }
        }
    }
}

/// The return action over a run of readings under one configuration, from a fresh memory: it
/// runs at tick `k` exactly when the user stops being away at `k` and the away action ran at
/// some tick of the away episode that ends at `k - 1` (which began after start-up).
pub proof fn law_run_return_action(
    c: PresenceConfigView,
    s0: SensorLoop,
    ticks: Seq<(ProxState, AttentionState, u64)>,
    k: int,
)
    requires
        fresh(s0),
        clock_ok(ticks),
        0 <= k < ticks.len(),
    ensures
        runs(actions_at(c, s0, ticks, k), Trigger::Return) <==> (!away_at(c, s0, ticks, k)
            && away_at(c, s0, ticks, k - 1) && away_start(c, s0, ticks, k - 1) >= 0 && ran_in(
            c,
            s0,
            ticks,
            Trigger::Away,
            away_start(c, s0, ticks, k - 1),
            k - 1,
        )),
{
    lemma_run_inv(c, s0, ticks, k - 1);
    let s = state_before(c, s0, ticks, k);
    assert(ticks[k].2 <= MAX_NOW_MS);
    lemma_step_runs(s, c, ticks[k].0, ticks[k].1, ticks[k].2);
}

/// The not-looking action over a run of readings under one configuration, from a fresh
/// memory: it runs at tick `k` exactly when the user is not looking at `k`, the not-looking
/// episode holding `k` began after start-up, and `k` is the first tick of that episode whose
/// clock reaches the episode's first tick plus the not-looking delay.
pub proof fn law_run_notlooking_action(
    c: PresenceConfigView,
    s0: SensorLoop,
    ticks: Seq<(ProxState, AttentionState, u64)>,
    k: int,
)
    requires
        fresh(s0),
        clock_ok(ticks),
        0 <= k < ticks.len(),
    ensures
        ({
            let st = notlooking_start(s0, ticks, k);
            let due = ticks[st].2 + c.attn_notlooking_delay * 1000;
            &&& runs(actions_at(c, s0, ticks, k), Trigger::NotLooking) <==> (notlooking_at(
                s0,
                ticks,
                k,
            ) && st >= 0 && ticks[k].2 >= due && forall|j: int|
                st <= j < k ==> #[trigger] ticks[j].2 < due)
            &&& -1 <= st <= k
            &&& st >= 0 ==> !notlooking_at(s0, ticks, st - 1)
            &&& notlooking_at(s0, ticks, k) ==> forall|j: int|
                st <= j <= k ==> #[trigger] notlooking_at(s0, ticks, j)
        }),
{
    lemma_starts(c, s0, ticks, k);
    lemma_starts(c, s0, ticks, k - 1);
    lemma_run_inv(c, s0, ticks, k - 1);
    let s = state_before(c, s0, ticks, k);
    let now = ticks[k].2;
    assert(now <= MAX_NOW_MS);
    lemma_step_runs(s, c, ticks[k].0, ticks[k].1, now);
    assert(c.attn_notlooking_delay * 1000 <= 4294967295000);
    let st = notlooking_start(s0, ticks, k);
    let due = ticks[st].2 + c.attn_notlooking_delay * 1000;
    if notlooking_at(s0, ticks, k) && notlooking_at(s0, ticks, k - 1) && st >= 0 {
        assert(due_in(ticks, due, st, k - 1) <==> !(forall|j: int|
            st <= j < k ==> #[trigger] ticks[j].2 < due)) by {
            if due_in(ticks, due, st, k - 1) {
                let j = choose|j: int| st <= j <= k - 1 && #[trigger] ticks[j].2 >= due;
                assert(ticks[j].2 >= due);
            }
            if !(forall|j: int| st <= j < k ==> #[trigger] ticks[j].2 < due) {
                let j = choose|j: int| !(st <= j < k ==> #[trigger] ticks[j].2 < due);
                assert(st <= j <= k - 1 && ticks[j].2 >= due);
            }
        }
    }
}

/// Looking again, over a run of readings under one configuration, from a fresh memory: the
/// looking action runs at tick `k` exactly when the user looks again at `k` and the
/// not-looking action ran in the episode that ends at `k - 1`; brightness is restored at `k`
/// exactly then when that action was "dim"; and such a tick runs the proximity actions of the
/// tick, then the restore (when dimmed), then the looking action, and nothing else.
pub proof fn law_run_looking_actions(
    c: PresenceConfigView,
    s0: SensorLoop,
    ticks: Seq<(ProxState, AttentionState, u64)>,
    k: int,
)
    requires
        fresh(s0),
        clock_ok(ticks),
        0 <= k < ticks.len(),
    ensures
        ({
            let ended = !notlooking_at(s0, ticks, k) && notlooking_at(s0, ticks, k - 1);
            let st = notlooking_start(s0, ticks, k - 1);
            let ran = st >= 0 && ran_in(c, s0, ticks, Trigger::NotLooking, st, k - 1);
            let dim = c.attn_notlooking_action == "dim"@;
            &&& runs(actions_at(c, s0, ticks, k), Trigger::Looking) <==> (ended && ran)
            &&& restores(actions_at(c, s0, ticks, k)) <==> (ended && ran && dim)
            &&& ended ==> actions_at(c, s0, ticks, k) == away_step(
                state_before(c, s0, ticks, k),
                c,
                away_at(c, s0, ticks, k),
                ticks[k].2,
            ).1 + (if ran {
                looking_actions(c, dim)
            } else {
                Seq::<LoopActionView>::empty()
            })
        }),
{
    lemma_run_inv(c, s0, ticks, k - 1);
    let s = state_before(c, s0, ticks, k);
    assert(ticks[k].2 <= MAX_NOW_MS);
    lemma_step_runs(s, c, ticks[k].0, ticks[k].1, ticks[k].2);
}

/// Every action that a step returns is as the settings configure it: the return action runs
/// the configured return action and return command, never the away command, and likewise for
/// the away, not-looking and looking actions.
pub proof fn law_step_actions_configured(
    s: SensorLoop,
    c: PresenceConfigView,
    prox: ProxState,
    attn: AttentionState,
    now: u64,
)
    requires
        now <= MAX_NOW_MS,
    ensures
        forall|i: int|
            0 <= i < loop_step(s, c, prox, attn, now).1.len() ==> configured(
                c,
                #[trigger] loop_step(s, c, prox, attn, now).1[i],
            ),
{
    let ia = is_away_for(c, prox);
    let inl = attn == AttentionState::NotLooking;
    let (s1, a1) = away_step(s, c, ia, now);
    let (s2, a2) = attention_step(s1, c, inl, now);
    assert(loop_step(s, c, prox, attn, now) == (s2, a1 + a2));
    lemma_away_runs(s, c, ia, now);
    lemma_attention_runs(s1, c, inl, now);
    assert forall|i: int| 0 <= i < (a1 + a2).len() implies configured(c, #[trigger] (a1 + a2)[i]) by {
        if i < a1.len() {
            assert((a1 + a2)[i] == a1[i]);
        } else {
            assert((a1 + a2)[i] == a2[i - a1.len()]);
        }
    }
}

} // verus!
