//! The global guarantees of the simulation core, stated and proved over
//! the same specification functions the executable contracts use: one
//! effect set per running instance per tick and its atomic application,
//! determinism of replay, and lifecycle monotonicity.

use vstd::prelude::*;

use crate::behavior::GameBehavior;
use crate::gamedata::{
    apply_effect_view, apply_effects_view, apply_step, apply_upto, drain_upto,
    lemma_apply_effect_frame, lemma_apply_upto_frame, pend_set, purge_pass, snapshot_spec,
    tick_spec, PlayerAction, WorldView,
};
use crate::instance::state_rank;
use crate::interpreter::{EffectView, WalkView};
use crate::region::GameRegion;

verus! {

/// During a tick, each instance keeps its tick-start value until its own
/// turn of phase two; its turn applies exactly its own effect set — the one
/// walk of its graph — and a non-`Running` instance's turn applies nothing.
pub proof fn lemma_one_effect_set_per_tick(
    w1: WorldView,
    regions: Seq<GameRegion>,
    outs: Seq<WalkView>,
    i: int,
)
    requires
        0 <= i < w1.instances.len(),
    ensures
        apply_upto(w1, regions, outs, i).instances[i] == w1.instances[i],
        apply_upto(w1, regions, outs, i + 1) == apply_step(
            w1,
            apply_upto(w1, regions, outs, i),
            regions,
            outs,
            i,
        ),
        !(w1.instances[i].state is Running) ==> apply_upto(w1, regions, outs, i + 1)
            == apply_upto(w1, regions, outs, i),
{
    lemma_apply_upto_frame(w1, regions, outs, i);
}

/// One effect is applied atomically: only the addressed instance can
/// change, and a rejected effect changes nothing of the world beyond its
/// record in the diagnostic log — never a partial update.
pub proof fn lemma_effect_application_atomic(
    w: WorldView,
    regions: Seq<GameRegion>,
    idx: int,
    e: EffectView,
)
    requires
        0 <= idx < w.instances.len(),
    ensures
        ({
            let r = apply_effect_view(w, regions, idx, e);
            &&& r.instances =~= w.instances.update(idx, r.instances[idx])
            &&& (r.diagnostics != w.diagnostics ==> r.instances =~= w.instances && r.emitted
                == w.emitted)
            &&& (r.emitted != w.emitted ==> r.instances =~= w.instances && r.diagnostics
                == w.diagnostics)
        }),
{
    lemma_apply_effect_frame(w, regions, idx, e);
    let r = apply_effect_view(w, regions, idx, e);
    assert(r.instances =~= w.instances.update(idx, r.instances[idx]));
    if r.diagnostics != w.diagnostics {
        assert(r.instances =~= w.instances);
    }
    if r.emitted != w.emitted {
        assert(r.instances =~= w.instances);
    }
}

/// One event fed to the simulation: a fixed tick, or a consumer command
/// submitted between ticks.
#[derive(Clone, Copy, PartialEq, Eq, Structural, Debug)]
pub enum SimEvent {
    Tick,
    Action { instance_id: usize, action: PlayerAction },
}

/// The world after replaying a sequence of ticks and submitted commands.
pub open spec fn replay(
    w: WorldView,
    regions: Seq<GameRegion>,
    behaviors: Seq<GameBehavior>,
    purge_delay: u64,
    events: Seq<SimEvent>,
) -> WorldView
    decreases events.len(),
{
    if events.len() == 0 {
        w
    } else {
        let w2 = match events[0] {
            SimEvent::Tick => tick_spec(w, regions, behaviors, purge_delay),
            SimEvent::Action { instance_id, action } => WorldView {
                pending: pend_set(w.pending, instance_id, action),
                ..w
            },
        };
        replay(w2, regions, behaviors, purge_delay, events.skip(1))
    }
}

/// Replay is deterministic: identical initial worlds, tables and event
/// sequences end in identical worlds, and every viewer's snapshot of the
/// two ends is identical. Together with the executable contracts — `tick`,
/// `execute_packed_instance_action` and `poll_update` each ensure that the
/// state they leave is exactly the specification function of the state they
/// found — this pins the running system's outputs to a function of its
/// initial state and inputs alone.
pub proof fn lemma_replay_deterministic(
    wa: WorldView,
    wb: WorldView,
    regions_a: Seq<GameRegion>,
    regions_b: Seq<GameRegion>,
    behaviors_a: Seq<GameBehavior>,
    behaviors_b: Seq<GameBehavior>,
    purge_delay_a: u64,
    purge_delay_b: u64,
    events_a: Seq<SimEvent>,
    events_b: Seq<SimEvent>,
    viewer_id: usize,
)
    requires
        wa == wb,
        regions_a == regions_b,
        behaviors_a == behaviors_b,
        purge_delay_a == purge_delay_b,
        events_a == events_b,
    ensures
        replay(wa, regions_a, behaviors_a, purge_delay_a, events_a) == replay(
            wb,
            regions_b,
            behaviors_b,
            purge_delay_b,
            events_b,
        ),
        snapshot_spec(replay(wa, regions_a, behaviors_a, purge_delay_a, events_a), viewer_id)
            == snapshot_spec(
            replay(wb, regions_b, behaviors_b, purge_delay_b, events_b),
            viewer_id,
        ),
{
}

/// One applied effect never moves any instance's lifecycle state backwards.
proof fn lemma_effect_rank(w: WorldView, regions: Seq<GameRegion>, idx: int, e: EffectView)
    ensures
        ({
            let r = apply_effect_view(w, regions, idx, e);
            &&& r.instances.len() == w.instances.len()
            &&& forall|j: int|
                0 <= j < w.instances.len() ==> state_rank((#[trigger] w.instances[j]).state)
                    <= state_rank(r.instances[j].state)
        }),
{
    lemma_apply_effect_frame(w, regions, idx, e);
}

/// A whole applied effect list never moves a lifecycle state backwards.
proof fn lemma_effects_rank(
    w: WorldView,
    regions: Seq<GameRegion>,
    idx: int,
    effs: Seq<EffectView>,
)
    ensures
        ({
            let r = apply_effects_view(w, regions, idx, effs);
            &&& r.instances.len() == w.instances.len()
            &&& forall|j: int|
                0 <= j < w.instances.len() ==> state_rank((#[trigger] w.instances[j]).state)
                    <= state_rank(r.instances[j].state)
        }),
    decreases effs.len(),
{
    if effs.len() > 0 {
        lemma_effect_rank(w, regions, idx, effs[0]);
        lemma_effects_rank(apply_effect_view(w, regions, idx, effs[0]), regions, idx, effs.skip(1));
    }
}

/// Draining the command buffer never moves a lifecycle state backwards.
proof fn lemma_drain_rank(
    w: WorldView,
    regions: Seq<GameRegion>,
    cmds: Seq<(usize, PlayerAction)>,
    k: int,
)
    ensures
        ({
            let r = drain_upto(w, regions, cmds, k);
            &&& r.instances.len() == w.instances.len()
            &&& forall|j: int|
                0 <= j < w.instances.len() ==> state_rank((#[trigger] w.instances[j]).state)
                    <= state_rank(r.instances[j].state)
        }),
    decreases k,
{
    if k > 0 {
        lemma_drain_rank(w, regions, cmds, k - 1);
        let prev = drain_upto(w, regions, cmds, k - 1);
        let cmd = cmds[k - 1];
        if crate::instance::has_instance(prev.instances, cmd.0) {
            let idx = crate::instance::instance_indexof(prev.instances, cmd.0);
            let delta = crate::gamedata::action_delta(cmd.1);
            lemma_effect_rank(
                prev,
                regions,
                idx,
                EffectView::MoveByV { dx: delta.0, dy: delta.1 },
            );
        }
    }
}

/// Phase two of a tick never moves a lifecycle state backwards.
proof fn lemma_apply_upto_rank(
    w1: WorldView,
    regions: Seq<GameRegion>,
    outs: Seq<WalkView>,
    k: int,
)
    ensures
        ({
            let r = apply_upto(w1, regions, outs, k);
            &&& r.instances.len() == w1.instances.len()
            &&& forall|j: int|
                0 <= j < w1.instances.len() ==> state_rank((#[trigger] w1.instances[j]).state)
                    <= state_rank(r.instances[j].state)
        }),
    decreases k,
{
    if k > 0 {
        lemma_apply_upto_rank(w1, regions, outs, k - 1);
        let prev = apply_upto(w1, regions, outs, k - 1);
        if 0 <= k - 1 < w1.instances.len() && w1.instances[k - 1].state is Running {
            lemma_effects_rank(prev, regions, k - 1, outs[k - 1].effects);
        }
    }
}

/// Lifecycle monotonicity over one whole tick: along
/// `Running < Killed < Purged` no instance's state ever runs backwards, so
/// no instance is observed `Running` after it was observed `Killed` or
/// `Purged`. By induction over `replay`, the same holds along any sequence
/// of ticks and submitted commands.
pub proof fn lemma_tick_lifecycle_monotonic(
    w: WorldView,
    regions: Seq<GameRegion>,
    behaviors: Seq<GameBehavior>,
    purge_delay: u64,
)
    ensures
        tick_spec(w, regions, behaviors, purge_delay).instances.len() == w.instances.len(),
        forall|j: int|
            0 <= j < w.instances.len() ==> state_rank((#[trigger] w.instances[j]).state)
                <= state_rank(tick_spec(w, regions, behaviors, purge_delay).instances[j].state),
{
    let w0 = WorldView { emitted: Seq::empty(), pending: Seq::empty(), ..w };
    let w1 = drain_upto(w0, regions, w.pending, w.pending.len() as int);
    lemma_drain_rank(w0, regions, w.pending, w.pending.len() as int);
    let outs = Seq::new(
        w1.instances.len(),
        |i: int| crate::gamedata::eval_instance_view(regions, behaviors, w1.instances[i]),
    );
    let w2 = apply_upto(w1, regions, outs, w1.instances.len() as int);
    lemma_apply_upto_rank(w1, regions, outs, w1.instances.len() as int);
    let w3 = purge_pass(w2, purge_delay);
    assert(forall|j: int|
        0 <= j < w2.instances.len() ==> state_rank((#[trigger] w2.instances[j]).state)
            <= state_rank(w3.instances[j].state));
}

/// Lifecycle monotonicity extended over a whole replayed history.
pub proof fn lemma_replay_lifecycle_monotonic(
    w: WorldView,
    regions: Seq<GameRegion>,
    behaviors: Seq<GameBehavior>,
    purge_delay: u64,
    events: Seq<SimEvent>,
)
    ensures
        replay(w, regions, behaviors, purge_delay, events).instances.len() == w.instances.len(),
        forall|j: int|
            0 <= j < w.instances.len() ==> state_rank((#[trigger] w.instances[j]).state)
                <= state_rank(replay(w, regions, behaviors, purge_delay, events).instances[j].state),
    decreases events.len(),
{
    if events.len() > 0 {
        let w2 = match events[0] {
            SimEvent::Tick => tick_spec(w, regions, behaviors, purge_delay),
            SimEvent::Action { instance_id, action } => WorldView {
                pending: pend_set(w.pending, instance_id, action),
                ..w
            },
        };
        if events[0] is Tick {
            lemma_tick_lifecycle_monotonic(w, regions, behaviors, purge_delay);
        }
        lemma_replay_lifecycle_monotonic(w2, regions, behaviors, purge_delay, events.skip(1));
    }
}

} // verus!
