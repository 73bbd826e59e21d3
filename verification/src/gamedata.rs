//! The authoritative simulation state and its tick scheduler: regions,
//! behaviors and instances, the buffered consumer commands, the per-viewer
//! pull-based update protocol, and the fixed-step `tick` that drives it all.

use vstd::prelude::*;

use crate::behavior::{behavior_at, behaviors_wf, find_behavior, has_behavior, GameBehavior};
use crate::error::{Diagnostic, SimError};
use crate::instance::{
    has_instance, instance_indexof, instances_wf, lemma_instance_index_is, state_rank,
    transition_allowed, BehaviorInstance, BehaviorInstanceState, InstanceView,
};
use crate::interpreter::{
    check_move, check_move_exec, effect_view, effects_view, walk, walk_exec, Effect, EffectView, MoveCheck,
    WalkView, STEP_LIMIT,
};
use crate::region::{regions_wf, GameRegion, TileRef};
use crate::value::{val_view, var_set_view, wf_vars};

verus! {

/// A decoded consumer command: what a consumer wants one instance to do
/// before the next tick.
#[derive(Clone, Copy, PartialEq, Eq, Structural, Debug)]
pub enum PlayerAction {
    MoveUp,
    MoveDown,
    MoveLeft,
    MoveRight,
}

/// The movement delta of a consumer command.
pub open spec fn action_delta(a: PlayerAction) -> (isize, isize) {
    match a {
        PlayerAction::MoveUp => (0isize, -1isize),
        PlayerAction::MoveDown => (0isize, 1isize),
        PlayerAction::MoveLeft => (-1isize, 0isize),
        PlayerAction::MoveRight => (1isize, 0isize),
    }
}

/// A consumer command addressed to one instance.
#[derive(Clone, Copy, PartialEq, Eq, Structural, Debug)]
pub struct InstanceAction {
    pub instance_id: usize,
    pub action: PlayerAction,
}

/// A game action a behavior emitted during the last tick, for the update
/// consumers.
#[derive(Clone, PartialEq, Eq, Debug)]
pub struct EmittedAction {
    pub instance_id: usize,
    pub action: String,
}

/// What an update consumer needs to know of one visible instance.
#[derive(Clone, Copy, PartialEq, Eq, Debug)]
pub struct InstanceSnap {
    pub id: usize,
    pub position: (usize, isize, isize),
    pub tile: Option<TileRef>,
    pub state: BehaviorInstanceState,
}

/// A self-contained snapshot for one viewer: immutable once produced.
pub struct GameUpdate {
    pub tick: u64,
    pub epoch: u64,
    /// The region the viewer's instance stands in, if it is placed.
    pub region_id: Option<usize>,
    /// The non-purged instances placed in that region, in id order.
    pub instances: Vec<InstanceSnap>,
    /// The actions emitted during the last tick.
    pub actions: Vec<EmittedAction>,
}

/// The mathematical shape of a snapshot.
#[verifier::ext_equal]
pub struct UpdateView {
    pub tick: u64,
    pub epoch: u64,
    pub region_id: Option<usize>,
    pub instances: Seq<InstanceSnap>,
    pub actions: Seq<(usize, Seq<char>)>,
}

/// The view of an emitted-action list.
pub open spec fn emitted_view(s: Seq<EmittedAction>) -> Seq<(usize, Seq<char>)> {
    s.map_values(|e: EmittedAction| (e.instance_id, e.action@))
}

impl GameUpdate {
    /// The view of a snapshot.
    pub open spec fn view(self) -> UpdateView {
        UpdateView {
            tick: self.tick,
            epoch: self.epoch,
            region_id: self.region_id,
            instances: self.instances@,
            actions: emitted_view(self.actions@),
        }
    }
}

/// The mathematical shape of everything a tick may change: the instance
/// table, the command buffer, last tick's emitted actions, the diagnostic
/// log, and the two counters.
pub struct WorldView {
    pub instances: Seq<InstanceView>,
    pub pending: Seq<(usize, PlayerAction)>,
    pub emitted: Seq<(usize, Seq<char>)>,
    pub diagnostics: Seq<Diagnostic>,
    pub tick_count: u64,
    pub epoch: u64,
}

/// The authoritative simulation state. All mutation happens inside `tick`,
/// the command buffer, or the explicit edit and lifecycle operations;
/// polling a snapshot never mutates simulation state.
pub struct GameData {
    pub regions: Vec<GameRegion>,
    pub behaviors: Vec<GameBehavior>,
    pub instances: Vec<BehaviorInstance>,
    /// Buffered consumer commands, at most one per instance (last wins).
    pub pending: Vec<(usize, PlayerAction)>,
    /// Per-viewer last-polled epoch.
    pub viewers: Vec<(usize, u64)>,
    /// Actions emitted during the last tick.
    pub emitted: Vec<EmittedAction>,
    /// Every recoverable error reported so far.
    pub diagnostics: Vec<Diagnostic>,
    pub tick_count: u64,
    pub epoch: u64,
    /// How many ticks a killed instance stays visible before it is purged.
    pub purge_delay: u64,
    /// Whether `startup` has run and `shutdown` has not.
    pub running: bool,
    pub next_instance_id: usize,
}

impl GameData {
    /// The view of the instance table.
    pub open spec fn instances_view(self) -> Seq<InstanceView> {
        self.instances@.map_values(|inst: BehaviorInstance| inst.view())
    }

    /// The view of the mutable world.
    pub open spec fn world(self) -> WorldView {
        WorldView {
            instances: self.instances_view(),
            pending: self.pending@,
            emitted: emitted_view(self.emitted@),
            diagnostics: self.diagnostics@,
            tick_count: self.tick_count,
            epoch: self.epoch,
        }
    }

    /// Whether the viewer registry holds `viewer_id`.
    pub open spec fn has_viewer(self, viewer_id: usize) -> bool {
        exists|i: int|
            0 <= i < self.viewers@.len() && (#[trigger] self.viewers@[i]).0 == viewer_id
    }

    /// The index of the viewer entry (meaningful only under `has_viewer`;
    /// unique under `wf`).
    pub open spec fn viewer_indexof(self, viewer_id: usize) -> int {
        choose|i: int|
            0 <= i < self.viewers@.len() && (#[trigger] self.viewers@[i]).0 == viewer_id
    }

    /// The epoch recorded at the viewer's last poll (meaningful only under
    /// `has_viewer`).
    pub open spec fn viewer_epoch(self, viewer_id: usize) -> u64 {
        self.viewers@[self.viewer_indexof(viewer_id)].1
    }

    /// Well-formedness of the whole simulation state.
    pub open spec fn wf(self) -> bool {
        &&& regions_wf(self.regions@)
        &&& behaviors_wf(self.behaviors@)
        &&& instances_wf(self.instances_view())
        &&& forall|i: int|
            0 <= i < self.instances@.len() ==> (#[trigger] self.instances@[i]).id
                < self.next_instance_id
        &&& forall|i: int, j: int|
            0 <= i < j < self.pending@.len() ==> (#[trigger] self.pending@[i]).0 != (
            #[trigger] self.pending@[j]).0
        &&& forall|i: int, j: int|
            0 <= i < j < self.viewers@.len() ==> (#[trigger] self.viewers@[i]).0 != (
            #[trigger] self.viewers@[j]).0
    }
}

/// One effect applied to instance `idx` of the world, atomically: either
/// the instance is updated in full, or the effect is dropped and a
/// diagnostic is recorded. Nothing else changes.
pub open spec fn apply_effect_view(
    w: WorldView,
    regions: Seq<GameRegion>,
    idx: int,
    e: EffectView,
) -> WorldView {
    if !(0 <= idx < w.instances.len()) {
        w
    } else {
        let inst = w.instances[idx];
        match e {
            EffectView::MoveByV { dx, dy } => {
                match check_move(regions, inst.position, dx, dy) {
                    MoveCheck::NoPosition => w,
                    MoveCheck::OffRange => diag(w, inst.id, SimError::BlockedMove),
                    MoveCheck::UnknownRegion => diag(w, inst.id, SimError::NotFound),
                    MoveCheck::Blocked => diag(w, inst.id, SimError::BlockedMove),
                    MoveCheck::Free { to } => WorldView {
                        instances: w.instances.update(
                            idx,
                            InstanceView { position: Some(to), ..inst },
                        ),
                        ..w
                    },
                }
            },
            EffectView::TransitionV { target } => {
                if transition_allowed(inst.state, target) {
                    let killed_at = if target is Killed && inst.state is Running {
                        Some(w.tick_count)
                    } else {
                        inst.killed_at
                    };
                    WorldView {
                        instances: w.instances.update(
                            idx,
                            InstanceView { state: target, killed_at, ..inst },
                        ),
                        ..w
                    }
                } else {
                    diag(w, inst.id, SimError::InvalidTransition)
                }
            },
            EffectView::EmitV { action } => WorldView {
                emitted: w.emitted.push((inst.id, action)),
                ..w
            },
            EffectView::SetVarV { name, value } => WorldView {
                instances: w.instances.update(
                    idx,
                    InstanceView { variables: var_set_view(inst.variables, name, value), ..inst },
                ),
                ..w
            },
        }
    }
}

/// The world with one diagnostic recorded.
pub open spec fn diag(w: WorldView, instance_id: usize, error: SimError) -> WorldView {
    WorldView {
        diagnostics: w.diagnostics.push(
            Diagnostic { tick: w.tick_count, instance_id, error },
        ),
        ..w
    }
}

/// A whole effect list applied to instance `idx`, in order.
pub open spec fn apply_effects_view(
    w: WorldView,
    regions: Seq<GameRegion>,
    idx: int,
    effs: Seq<EffectView>,
) -> WorldView
    decreases effs.len(),
{
    if effs.len() == 0 {
        w
    } else {
        apply_effects_view(
            apply_effect_view(w, regions, idx, effs[0]),
            regions,
            idx,
            effs.skip(1),
        )
    }
}

/// What evaluating one instance this tick yields: nothing for an unknown
/// behavior or an invalid graph, otherwise one budgeted walk from the
/// graph's entry node.
pub open spec fn eval_instance_view(
    regions: Seq<GameRegion>,
    behaviors: Seq<GameBehavior>,
    inst: InstanceView,
) -> WalkView {
    if !has_behavior(behaviors, inst.behavior_id) {
        WalkView { effects: Seq::empty(), vars: inst.variables, steps: 0, limited: false }
    } else {
        let graph = behavior_at(behaviors, inst.behavior_id).data;
        match graph.entry_of() {
            Result::Err(_) => WalkView {
                effects: Seq::empty(),
                vars: inst.variables,
                steps: 0,
                limited: false,
            },
            Result::Ok(entry) => walk(
                regions,
                graph,
                inst.position,
                inst.variables,
                entry,
                STEP_LIMIT as nat,
            ),
        }
    }
}

/// One buffered command turned into a move effect for its instance:
/// unknown instance ids are reported, instances that are not `Running` or
/// not placed are skipped.
pub open spec fn drain_one(
    w: WorldView,
    regions: Seq<GameRegion>,
    cmd: (usize, PlayerAction),
) -> WorldView {
    if !has_instance(w.instances, cmd.0) {
        diag(w, cmd.0, SimError::NotFound)
    } else {
        let idx = instance_indexof(w.instances, cmd.0);
        let inst = w.instances[idx];
        if inst.state is Running && inst.position is Some {
            let delta = action_delta(cmd.1);
            apply_effect_view(
                w,
                regions,
                idx,
                EffectView::MoveByV { dx: delta.0, dy: delta.1 },
            )
        } else {
            w
        }
    }
}

/// The first `k` buffered commands applied in order.
pub open spec fn drain_upto(
    w: WorldView,
    regions: Seq<GameRegion>,
    cmds: Seq<(usize, PlayerAction)>,
    k: int,
) -> WorldView
    decreases k,
{
    if k <= 0 {
        w
    } else {
        drain_one(drain_upto(w, regions, cmds, k - 1), regions, cmds[k - 1])
    }
}

/// Phase two of a tick for instance `i`: the effect set collected against
/// the tick-start world `w1` is applied if the instance was `Running`
/// then, and a cut-short walk is reported.
pub open spec fn apply_step(
    w1: WorldView,
    w: WorldView,
    regions: Seq<GameRegion>,
    outs: Seq<WalkView>,
    i: int,
) -> WorldView {
    if 0 <= i < w1.instances.len() && w1.instances[i].state is Running {
        let wa = apply_effects_view(w, regions, i, outs[i].effects);
        if outs[i].limited {
            diag(wa, w1.instances[i].id, SimError::GraphStepLimitExceeded)
        } else {
            wa
        }
    } else {
        w
    }
}

/// Phase two of a tick for the first `k` instances, in stable id order.
pub open spec fn apply_upto(
    w1: WorldView,
    regions: Seq<GameRegion>,
    outs: Seq<WalkView>,
    k: int,
) -> WorldView
    decreases k,
{
    if k <= 0 {
        w1
    } else {
        apply_step(w1, apply_upto(w1, regions, outs, k - 1), regions, outs, k - 1)
    }
}

/// The purge policy applied to one instance: an instance killed
/// `purge_delay` or more ticks ago becomes `Purged`.
pub open spec fn purge_inst(inst: InstanceView, tick_count: u64, purge_delay: u64) -> InstanceView {
    if inst.state is Killed && inst.killed_at is Some && tick_count as int
        >= inst.killed_at->0 as int + purge_delay as int {
        InstanceView { state: BehaviorInstanceState::Purged, ..inst }
    } else {
        inst
    }
}

/// The purge policy applied to the whole table.
pub open spec fn purge_pass(w: WorldView, purge_delay: u64) -> WorldView {
    WorldView {
        instances: Seq::new(
            w.instances.len(),
            |i: int| purge_inst(w.instances[i], w.tick_count, purge_delay),
        ),
        ..w
    }
}

/// One whole tick: clear last tick's emitted actions, drain the command
/// buffer, evaluate every `Running` instance against the tick-start state
/// in stable ascending-id order, apply each instance's effect set in that
/// same order, run the purge policy, and advance the clock and the epoch.
pub open spec fn tick_spec(
    w: WorldView,
    regions: Seq<GameRegion>,
    behaviors: Seq<GameBehavior>,
    purge_delay: u64,
) -> WorldView {
    let w0 = WorldView { emitted: Seq::empty(), pending: Seq::empty(), ..w };
    let w1 = drain_upto(w0, regions, w.pending, w.pending.len() as int);
    let outs = Seq::new(
        w1.instances.len(),
        |i: int| eval_instance_view(regions, behaviors, w1.instances[i]),
    );
    let w2 = apply_upto(w1, regions, outs, w1.instances.len() as int);
    let w3 = purge_pass(w2, purge_delay);
    WorldView { tick_count: (w3.tick_count + 1) as u64, epoch: (w3.epoch + 1) as u64, ..w3 }
}

/// The snapshot one viewer sees: the region its instance stands in, the
/// non-purged instances placed there in id order, and last tick's emitted
/// actions.
pub open spec fn snapshot_spec(w: WorldView, viewer_id: usize) -> UpdateView {
    let region_id = if has_instance(w.instances, viewer_id) && w.instances[instance_indexof(
        w.instances,
        viewer_id,
    )].position is Some {
        Some((w.instances[instance_indexof(w.instances, viewer_id)].position->0).0)
    } else {
        None
    };
    UpdateView {
        tick: w.tick_count,
        epoch: w.epoch,
        region_id,
        instances: match region_id {
            Some(rid) => visible_in(w.instances, rid),
            None => Seq::empty(),
        },
        actions: w.emitted,
    }
}

/// The non-purged instances placed in region `rid`, in table order.
pub open spec fn visible_in(instances: Seq<InstanceView>, rid: usize) -> Seq<InstanceSnap>
    decreases instances.len(),
{
    if instances.len() == 0 {
        Seq::empty()
    } else {
        let rest = visible_in(instances.drop_last(), rid);
        let inst = instances.last();
        if !(inst.state is Purged) && inst.position is Some && (inst.position->0).0 == rid {
            rest.push(
                InstanceSnap {
                    id: inst.id,
                    position: inst.position->0,
                    tile: inst.tile,
                    state: inst.state,
                },
            )
        } else {
            rest
        }
    }
}

/// The command buffer after a new command arrives: the command replaces
/// any buffered one for the same instance (last wins) and is appended
/// otherwise.
pub open spec fn pend_set(
    pending: Seq<(usize, PlayerAction)>,
    id: usize,
    action: PlayerAction,
) -> Seq<(usize, PlayerAction)> {
    if exists|i: int| 0 <= i < pending.len() && (#[trigger] pending[i]).0 == id {
        pending.update(
            choose|i: int| 0 <= i < pending.len() && (#[trigger] pending[i]).0 == id,
            (id, action),
        )
    } else {
        pending.push((id, action))
    }
}

/// One applied effect touches only the addressed instance; the command
/// buffer and the two counters stay as they are.
pub proof fn lemma_apply_effect_frame(
    w: WorldView,
    regions: Seq<GameRegion>,
    idx: int,
    e: EffectView,
)
    ensures
        ({
            let r = apply_effect_view(w, regions, idx, e);
            &&& r.instances.len() == w.instances.len()
            &&& forall|j: int|
                0 <= j < w.instances.len() && j != idx ==> r.instances[j] == w.instances[j]
            &&& 0 <= idx < w.instances.len() ==> {
                &&& r.instances[idx].id == w.instances[idx].id
                &&& r.instances[idx].behavior_id == w.instances[idx].behavior_id
                &&& r.instances[idx].tile == w.instances[idx].tile
            }
            &&& r.pending == w.pending
            &&& r.tick_count == w.tick_count
            &&& r.epoch == w.epoch
        }),
{
}

/// A whole applied effect list touches only the addressed instance.
pub proof fn lemma_apply_effects_frame(
    w: WorldView,
    regions: Seq<GameRegion>,
    idx: int,
    effs: Seq<EffectView>,
)
    ensures
        ({
            let r = apply_effects_view(w, regions, idx, effs);
            &&& r.instances.len() == w.instances.len()
            &&& forall|j: int|
                0 <= j < w.instances.len() && j != idx ==> r.instances[j] == w.instances[j]
            &&& 0 <= idx < w.instances.len() ==> {
                &&& r.instances[idx].id == w.instances[idx].id
                &&& r.instances[idx].behavior_id == w.instances[idx].behavior_id
                &&& r.instances[idx].tile == w.instances[idx].tile
            }
            &&& r.pending == w.pending
            &&& r.tick_count == w.tick_count
            &&& r.epoch == w.epoch
        }),
    decreases effs.len(),
{
    if effs.len() > 0 {
        lemma_apply_effect_frame(w, regions, idx, effs[0]);
        lemma_apply_effects_frame(
            apply_effect_view(w, regions, idx, effs[0]),
            regions,
            idx,
            effs.skip(1),
        );
    }
}

/// Phase two touches instance `j` only once it is `j`'s turn: after the
/// first `k` instances have run, everything from index `k` on still holds
/// its phase-one value.
pub proof fn lemma_apply_upto_frame(
    w1: WorldView,
    regions: Seq<GameRegion>,
    outs: Seq<WalkView>,
    k: int,
)
    ensures
        ({
            let r = apply_upto(w1, regions, outs, k);
            &&& r.instances.len() == w1.instances.len()
            &&& forall|j: int|
                k <= j < w1.instances.len() ==> r.instances[j] == w1.instances[j]
            &&& r.pending == w1.pending
            &&& r.tick_count == w1.tick_count
            &&& r.epoch == w1.epoch
        }),
    decreases k,
{
    if k > 0 {
        lemma_apply_upto_frame(w1, regions, outs, k - 1);
        let prev = apply_upto(w1, regions, outs, k - 1);
        if 0 <= k - 1 < w1.instances.len() && w1.instances[k - 1].state is Running {
            lemma_apply_effects_frame(prev, regions, k - 1, outs[k - 1].effects);
        }
    }
}

/// The movement delta of a consumer command.
fn action_delta_exec(a: PlayerAction) -> (r: (isize, isize))
    ensures
        r == action_delta(a),
{
    match a {
        PlayerAction::MoveUp => (0, -1),
        PlayerAction::MoveDown => (0, 1),
        PlayerAction::MoveLeft => (-1, 0),
        PlayerAction::MoveRight => (1, 0),
    }
}

/// The lifecycle rank as a runtime value.
fn rank_exec(s: BehaviorInstanceState) -> (r: u8)
    ensures
        r as int == state_rank(s),
{
    match s {
        BehaviorInstanceState::Running => 0,
        BehaviorInstanceState::Killed => 1,
        BehaviorInstanceState::Purged => 2,
    }
}

impl GameData {
    /// A fresh simulation state: empty world, clock at zero, not running.
    pub fn new(purge_delay: u64) -> (r: GameData)
        ensures
            r.wf(),
            r.world() == (WorldView {
                instances: Seq::empty(),
                pending: Seq::empty(),
                emitted: Seq::empty(),
                diagnostics: Seq::empty(),
                tick_count: 0,
                epoch: 0,
            }),
            r.regions@.len() == 0,
            r.behaviors@.len() == 0,
            r.viewers@.len() == 0,
            r.purge_delay == purge_delay,
            !r.running,
            r.next_instance_id == 0,
    {
        let r = GameData {
            regions: Vec::new(),
            behaviors: Vec::new(),
            instances: Vec::new(),
            pending: Vec::new(),
            viewers: Vec::new(),
            emitted: Vec::new(),
            diagnostics: Vec::new(),
            tick_count: 0,
            epoch: 0,
            purge_delay,
            running: false,
            next_instance_id: 0,
        };
        proof {
            assert(r.instances_view() =~= Seq::<InstanceView>::empty());
            assert(emitted_view(r.emitted@) =~= Seq::<(usize, Seq<char>)>::empty());
            assert(r.world() =~= (WorldView {
                instances: Seq::empty(),
                pending: Seq::empty(),
                emitted: Seq::empty(),
                diagnostics: Seq::empty(),
                tick_count: 0,
                epoch: 0,
            }));
        }
        r
    }

    /// Records one recoverable error.
    fn push_diag(&mut self, instance_id: usize, error: SimError)
        requires
            old(self).wf(),
        ensures
            final(self).wf(),
            final(self).world() == diag(old(self).world(), instance_id, error),
            final(self).tick_count == old(self).tick_count,
            final(self).epoch == old(self).epoch,
            final(self).regions == old(self).regions,
            final(self).behaviors == old(self).behaviors,
            final(self).viewers == old(self).viewers,
            final(self).purge_delay == old(self).purge_delay,
            final(self).running == old(self).running,
            final(self).next_instance_id == old(self).next_instance_id,
    {
        let d = Diagnostic { tick: self.tick_count, instance_id, error };
        self.diagnostics.push(d);
        proof {
            assert(self.instances_view() =~= old(self).instances_view());
            assert(self.world() =~= diag(old(self).world(), instance_id, error));
        }
    }

    /// Applies one effect to the instance at table index `idx`, atomically:
    /// a rejected effect changes nothing of the instance and is recorded.
    fn apply_one_effect(&mut self, idx: usize, e: &Effect)
        requires
            old(self).wf(),
            idx < old(self).instances@.len(),
        ensures
            final(self).wf(),
            final(self).instances@.len() == old(self).instances@.len(),
            final(self).world() == apply_effect_view(
                old(self).world(),
                old(self).regions@,
                idx as int,
                effect_view(*e),
            ),
            final(self).tick_count == old(self).tick_count,
            final(self).epoch == old(self).epoch,
            final(self).regions == old(self).regions,
            final(self).behaviors == old(self).behaviors,
            final(self).viewers == old(self).viewers,
            final(self).purge_delay == old(self).purge_delay,
            final(self).running == old(self).running,
            final(self).next_instance_id == old(self).next_instance_id,
    {
        proof {
            assert(old(self).world().instances[idx as int] == old(self).instances@[idx as int].view());
        }
        match e {
            Effect::MoveBy { dx, dy } => {
                let pos = self.instances[idx].position;
                let iid = self.instances[idx].id;
                let chk = check_move_exec(&self.regions, pos, *dx, *dy);
                match chk {
                    MoveCheck::NoPosition => {
                        proof {
                            assert(self.world() =~= apply_effect_view(
                                old(self).world(),
                                old(self).regions@,
                                idx as int,
                                effect_view(*e),
                            ));
                        }
                    },
                    MoveCheck::OffRange => {
                        self.push_diag(iid, SimError::BlockedMove);
                    },
                    MoveCheck::UnknownRegion => {
                        self.push_diag(iid, SimError::NotFound);
                    },
                    MoveCheck::Blocked => {
                        self.push_diag(iid, SimError::BlockedMove);
                    },
                    MoveCheck::Free { to } => {
                        let mut tmp = BehaviorInstance::new(0, 0, None, None);
                        self.instances.set_and_swap(idx, &mut tmp);
                        tmp.position = Some(to);
                        self.instances.set_and_swap(idx, &mut tmp);
                        proof {
                            assert(self.instances_view() =~= old(self).instances_view().update(
                                idx as int,
                                InstanceView {
                                    position: Some(to),
                                    ..old(self).instances@[idx as int].view()
                                },
                            ));
                            assert(self.world() =~= apply_effect_view(
                                old(self).world(),
                                old(self).regions@,
                                idx as int,
                                effect_view(*e),
                            ));
                        }
                    },
                }
            },
            Effect::TransitionState { target } => {
                let cur = self.instances[idx].state;
                let iid = self.instances[idx].id;
                if rank_exec(cur) <= rank_exec(*target) {
                    let mut tmp = BehaviorInstance::new(0, 0, None, None);
                    self.instances.set_and_swap(idx, &mut tmp);
                    if matches!(*target, BehaviorInstanceState::Killed) && matches!(
                        cur,
                        BehaviorInstanceState::Running,
                    ) {
                        tmp.killed_at = Some(self.tick_count);
                    }
                    tmp.state = *target;
                    self.instances.set_and_swap(idx, &mut tmp);
                    proof {
                        let inst0 = old(self).instances@[idx as int].view();
                        let ka: Option<u64> = if *target is Killed && inst0.state is Running {
                            Some(old(self).tick_count)
                        } else {
                            inst0.killed_at
                        };
                        assert(self.instances_view() =~= old(self).instances_view().update(
                            idx as int,
                            InstanceView { state: *target, killed_at: ka, ..inst0 },
                        ));
                        assert(self.world() =~= apply_effect_view(
                            old(self).world(),
                            old(self).regions@,
                            idx as int,
                            effect_view(*e),
                        ));
                    }
                } else {
                    self.push_diag(iid, SimError::InvalidTransition);
                }
            },
            Effect::EmitAction { action } => {
                let iid = self.instances[idx].id;
                self.emitted.push(EmittedAction { instance_id: iid, action: action.clone() });
                proof {
                    assert(emitted_view(self.emitted@) =~= emitted_view(old(self).emitted@).push(
                        (iid, action@),
                    ));
                    assert(self.instances_view() =~= old(self).instances_view());
                    assert(self.world() =~= apply_effect_view(
                        old(self).world(),
                        old(self).regions@,
                        idx as int,
                        effect_view(*e),
                    ));
                }
            },
            Effect::SetVariable { name, value } => {
                let mut tmp = BehaviorInstance::new(0, 0, None, None);
                self.instances.set_and_swap(idx, &mut tmp);
                crate::value::var_set_exec(&mut tmp.variables, name, value);
                self.instances.set_and_swap(idx, &mut tmp);
                proof {
                    assert(self.instances_view() =~= old(self).instances_view().update(
                        idx as int,
                        InstanceView {
                            variables: var_set_view(
                                old(self).instances@[idx as int].view().variables,
                                name@,
                                val_view(*value),
                            ),
                            ..old(self).instances@[idx as int].view()
                        },
                    ));
                    assert(self.world() =~= apply_effect_view(
                        old(self).world(),
                        old(self).regions@,
                        idx as int,
                        effect_view(*e),
                    ));
                }
            },
        }
    }

    /// Applies a whole effect list to the instance at table index `idx`,
    /// in order.
    fn apply_effects_exec(&mut self, idx: usize, effs: &Vec<Effect>)
        requires
            old(self).wf(),
            idx < old(self).instances@.len(),
        ensures
            final(self).wf(),
            final(self).instances@.len() == old(self).instances@.len(),
            final(self).world() == apply_effects_view(
                old(self).world(),
                old(self).regions@,
                idx as int,
                effects_view(effs@),
            ),
            final(self).tick_count == old(self).tick_count,
            final(self).epoch == old(self).epoch,
            final(self).regions == old(self).regions,
            final(self).behaviors == old(self).behaviors,
            final(self).viewers == old(self).viewers,
            final(self).purge_delay == old(self).purge_delay,
            final(self).running == old(self).running,
            final(self).next_instance_id == old(self).next_instance_id,
    {
        let n = effs.len();
        proof {
            assert(effects_view(effs@).skip(0) =~= effects_view(effs@));
        }
        let mut k: usize = 0;
        while k < n
            invariant
                self.wf(),
                idx < self.instances@.len(),
                n == effs@.len(),
                k <= n,
                self.regions == old(self).regions,
                self.behaviors == old(self).behaviors,
                self.viewers == old(self).viewers,
                self.purge_delay == old(self).purge_delay,
                self.running == old(self).running,
                self.next_instance_id == old(self).next_instance_id,
                self.tick_count == old(self).tick_count,
                self.epoch == old(self).epoch,
                self.instances@.len() == old(self).instances@.len(),
                apply_effects_view(
                    self.world(),
                    old(self).regions@,
                    idx as int,
                    effects_view(effs@).skip(k as int),
                ) == apply_effects_view(
                    old(self).world(),
                    old(self).regions@,
                    idx as int,
                    effects_view(effs@),
                ),
            decreases n - k,
        {
            self.apply_one_effect(idx, &effs[k]);
            proof {
                let ev = effects_view(effs@);
                assert(ev.skip(k as int).skip(1) =~= ev.skip(k + 1 as int));
                assert(ev.skip(k as int)[0] == ev[k as int]);
                assert(ev[k as int] == effect_view(effs@[k as int]));
            }
            k += 1;
        }
        proof {
            assert(effects_view(effs@).skip(n as int) =~= Seq::<EffectView>::empty());
        }
    }

    /// The table index of the instance with this id.
    fn find_instance_index(&self, id: usize) -> (r: Option<usize>)
        requires
            self.wf(),
        ensures
            match r {
                Some(i) => i < self.instances@.len() && has_instance(self.instances_view(), id)
                    && i as int == instance_indexof(self.instances_view(), id),
                None => !has_instance(self.instances_view(), id),
            },
    {
        let n = self.instances.len();
        let mut i: usize = 0;
        while i < n
            invariant
                self.wf(),
                n == self.instances@.len(),
                i <= n,
                forall|j: int| 0 <= j < i ==> (#[trigger] self.instances_view()[j]).id != id,
            decreases n - i,
        {
            if self.instances[i].id == id {
                proof {
                    lemma_instance_index_is(self.instances_view(), id, i as int);
                }
                return Some(i);
            }
            i += 1;
        }
        proof {
            assert(!has_instance(self.instances_view(), id));
        }
        None
    }

    /// The instance with this id, if the manager owns one.
    pub fn instance_by_id(&self, id: usize) -> (r: Option<&BehaviorInstance>)
        requires
            self.wf(),
        ensures
            match r {
                Some(inst) => has_instance(self.instances_view(), id) && inst.view()
                    == self.instances_view()[instance_indexof(self.instances_view(), id)],
                None => !has_instance(self.instances_view(), id),
            },
    {
        match self.find_instance_index(id) {
            Some(i) => Some(&self.instances[i]),
            None => None,
        }
    }

    /// Applies an interpreter's effect list to the named instance,
    /// atomically per effect. An unknown instance id is reported and the
    /// whole list is dropped.
    pub fn apply_effects(&mut self, instance_id: usize, effects: &Vec<Effect>)
        requires
            old(self).wf(),
        ensures
            final(self).wf(),
            final(self).world() == (if has_instance(old(self).instances_view(), instance_id) {
                apply_effects_view(
                    old(self).world(),
                    old(self).regions@,
                    instance_indexof(old(self).instances_view(), instance_id),
                    effects_view(effects@),
                )
            } else {
                diag(old(self).world(), instance_id, SimError::NotFound)
            }),
            final(self).regions == old(self).regions,
            final(self).behaviors == old(self).behaviors,
            final(self).viewers == old(self).viewers,
            final(self).purge_delay == old(self).purge_delay,
            final(self).running == old(self).running,
            final(self).next_instance_id == old(self).next_instance_id,
    {
        match self.find_instance_index(instance_id) {
            Some(idx) => {
                self.apply_effects_exec(idx, effects);
            },
            None => {
                self.push_diag(instance_id, SimError::NotFound);
            },
        }
    }

    /// Buffers a consumer command for its instance. Commands are drained
    /// at the start of the next tick; a second command for the same
    /// instance before that replaces the first (last wins).
    pub fn execute_packed_instance_action(&mut self, cmd: InstanceAction)
        requires
            old(self).wf(),
        ensures
            final(self).wf(),
            final(self).pending@ == pend_set(old(self).pending@, cmd.instance_id, cmd.action),
            final(self).world() == (WorldView {
                pending: pend_set(old(self).pending@, cmd.instance_id, cmd.action),
                ..old(self).world()
            }),
            final(self).regions == old(self).regions,
            final(self).behaviors == old(self).behaviors,
            final(self).viewers == old(self).viewers,
            final(self).instances == old(self).instances,
            final(self).purge_delay == old(self).purge_delay,
            final(self).running == old(self).running,
            final(self).next_instance_id == old(self).next_instance_id,
    {
        let n = self.pending.len();
        let mut i: usize = 0;
        while i < n
            invariant
                *self == *old(self),
                old(self).wf(),
                n == self.pending@.len(),
                i <= n,
                forall|j: int| 0 <= j < i ==> (#[trigger] self.pending@[j]).0 != cmd.instance_id,
            decreases n - i,
        {
            if self.pending[i].0 == cmd.instance_id {
                self.pending.set(i, (cmd.instance_id, cmd.action));
                proof {
                    let p = old(self).pending@;
                    assert(exists|j: int|
                        0 <= j < p.len() && (#[trigger] p[j]).0 == cmd.instance_id);
                    let ci = choose|j: int|
                        0 <= j < p.len() && (#[trigger] p[j]).0 == cmd.instance_id;
                    if ci < i {
                        assert(p[ci].0 != p[i as int].0);
                    } else if i < ci {
                        assert(p[i as int].0 != p[ci].0);
                    }
                    assert(self.pending@ == pend_set(p, cmd.instance_id, cmd.action));
                    assert forall|a: int, b: int| 0 <= a < b < self.pending@.len() implies (
                    #[trigger] self.pending@[a]).0 != (#[trigger] self.pending@[b]).0 by {
                        assert(self.pending@[a].0 == p[a].0 && self.pending@[b].0 == p[b].0);
                    }
                    assert(self.instances_view() =~= old(self).instances_view());
                    assert(self.world() =~= (WorldView {
                        pending: pend_set(p, cmd.instance_id, cmd.action),
                        ..old(self).world()
                    }));
                }
                return ;
            }
            i += 1;
        }
        proof {
            assert(!exists|j: int|
                0 <= j < self.pending@.len() && (#[trigger] self.pending@[j]).0
                    == cmd.instance_id);
        }
        self.pending.push((cmd.instance_id, cmd.action));
        proof {
            let p = old(self).pending@;
            assert(self.pending@ == pend_set(p, cmd.instance_id, cmd.action));
            assert forall|a: int, b: int| 0 <= a < b < self.pending@.len() implies (
            #[trigger] self.pending@[a]).0 != (#[trigger] self.pending@[b]).0 by {
                assert(self.pending@[a].0 == p[a].0);
                if b < p.len() {
                    assert(self.pending@[b].0 == p[b].0);
                }
            }
            assert(self.instances_view() =~= old(self).instances_view());
            assert(self.world() =~= (WorldView {
                pending: pend_set(p, cmd.instance_id, cmd.action),
                ..old(self).world()
            }));
        }
    }

    /// Advances the simulation by one fixed step: drains the buffered
    /// commands, evaluates every `Running` instance against the tick-start
    /// state in stable ascending-id order, applies each instance's effect
    /// set in that same order, runs the purge policy, and advances the
    /// clock and the epoch. Ticks never overlap and a tick always runs to
    /// completion; no error inside it is fatal.
    pub fn tick(&mut self)
        requires
            old(self).wf(),
            old(self).tick_count < u64::MAX,
            old(self).epoch < u64::MAX,
        ensures
            final(self).wf(),
            final(self).world() == tick_spec(
                old(self).world(),
                old(self).regions@,
                old(self).behaviors@,
                old(self).purge_delay,
            ),
            final(self).regions == old(self).regions,
            final(self).behaviors == old(self).behaviors,
            final(self).viewers == old(self).viewers,
            final(self).purge_delay == old(self).purge_delay,
            final(self).running == old(self).running,
            final(self).next_instance_id == old(self).next_instance_id,
    {
        let ghost oldw = old(self).world();
        let ghost regs = old(self).regions@;
        let ghost behs = old(self).behaviors@;
        // Last tick's emitted actions and the drained commands make way.
        self.emitted = Vec::new();
        let mut cmds: Vec<(usize, PlayerAction)> = Vec::new();
        let npend = self.pending.len();
        let mut c: usize = 0;
        while c < npend
            invariant
                self.emitted@.len() == 0,
                self.pending == old(self).pending,
                self.instances == old(self).instances,
                self.regions == old(self).regions,
                self.behaviors == old(self).behaviors,
                self.viewers == old(self).viewers,
                self.diagnostics == old(self).diagnostics,
                self.tick_count == old(self).tick_count,
                self.epoch == old(self).epoch,
                self.purge_delay == old(self).purge_delay,
                self.running == old(self).running,
                self.next_instance_id == old(self).next_instance_id,
                npend == self.pending@.len(),
                c <= npend,
                cmds@ == self.pending@.take(c as int),
            decreases npend - c,
        {
            cmds.push(self.pending[c]);
            proof {
                assert(self.pending@.take(c + 1 as int) =~= self.pending@.take(c as int).push(
                    self.pending@[c as int],
                ));
            }
            c += 1;
        }
        proof {
            assert(self.pending@.take(npend as int) =~= self.pending@);
        }
        self.pending = Vec::new();
        let ghost w0 = WorldView { emitted: Seq::empty(), pending: Seq::empty(), ..oldw };
        proof {
            assert(emitted_view(self.emitted@) =~= Seq::<(usize, Seq<char>)>::empty());
            assert(self.instances_view() =~= old(self).instances_view());
            assert(self.world() =~= w0);
        }
        // Phase one of the protocol: the buffered commands, last wins per
        // instance, each applied as one move effect before any evaluation.
        let ncmd = cmds.len();
        let mut k: usize = 0;
        while k < ncmd
            invariant
                self.wf(),
                self.regions == old(self).regions,
                self.behaviors == old(self).behaviors,
                self.viewers == old(self).viewers,
                self.purge_delay == old(self).purge_delay,
                self.running == old(self).running,
                self.next_instance_id == old(self).next_instance_id,
                self.instances@.len() == old(self).instances@.len(),
                self.tick_count == old(self).tick_count,
                self.epoch == old(self).epoch,
                regs == old(self).regions@,
                ncmd == cmds@.len(),
                k <= ncmd,
                self.world() == drain_upto(w0, regs, cmds@, k as int),
            decreases ncmd - k,
        {
            let ghost before = self.world();
            let cmd = cmds[k];
            match self.find_instance_index(cmd.0) {
                None => {
                    self.push_diag(cmd.0, SimError::NotFound);
                },
                Some(idx) => {
                    let st = self.instances[idx].state;
                    let pos = self.instances[idx].position;
                    if matches!(st, BehaviorInstanceState::Running) && pos.is_some() {
                        let delta = action_delta_exec(cmd.1);
                        let e = Effect::MoveBy { dx: delta.0, dy: delta.1 };
                        self.apply_one_effect(idx, &e);
                    }
                },
            }
            proof {
                assert(self.world() == drain_one(before, regs, cmds@[k as int]));
            }
            k += 1;
        }
        let ghost w1 = drain_upto(w0, regs, oldw.pending, oldw.pending.len() as int);
        proof {
            assert(self.world() == w1);
        }
        let ghost outsv = Seq::new(
            w1.instances.len(),
            |i: int| eval_instance_view(regs, behs, w1.instances[i]),
        );
        // Evaluation, all against the tick-start state: one effect set per
        // `Running` instance, none applied yet.
        let n = self.instances.len();
        let mut outs_effects: Vec<Vec<Effect>> = Vec::new();
        let mut outs_limited: Vec<bool> = Vec::new();
        let mut i: usize = 0;
        while i < n
            invariant
                self.wf(),
                self.regions == old(self).regions,
                self.behaviors == old(self).behaviors,
                regs == old(self).regions@,
                behs == old(self).behaviors@,
                self.world() == w1,
                n == self.instances@.len(),
                w1.instances.len() == n,
                outsv.len() == n,
                outsv == Seq::new(
                    w1.instances.len(),
                    |j: int| eval_instance_view(regs, behs, w1.instances[j]),
                ),
                i <= n,
                outs_effects@.len() == i,
                outs_limited@.len() == i,
                forall|j: int|
                    0 <= j < i ==> effects_view((#[trigger] outs_effects@[j])@) == outsv[j].effects,
                forall|j: int| 0 <= j < i ==> #[trigger] outs_limited@[j] == outsv[j].limited,
            decreases n - i,
        {
            proof {
                assert(w1.instances[i as int] == self.instances@[i as int].view());
            }
            let b_id = self.instances[i].behavior_id;
            let pos = self.instances[i].position;
            let mut pushed = false;
            match find_behavior(&self.behaviors, b_id) {
                None => {},
                Some(behavior) => {
                    match behavior.data.validate() {
                        Err(_) => {},
                        Ok(entry) => {
                            let vars = crate::value::duplicate_vars(&self.instances[i].variables);
                            let (effs, _vars_out, _steps, limited) = walk_exec(
                                &self.regions,
                                &behavior.data,
                                pos,
                                vars,
                                entry,
                                STEP_LIMIT,
                            );
                            outs_effects.push(effs);
                            outs_limited.push(limited);
                            pushed = true;
                        },
                    }
                },
            }
            if !pushed {
                let empty_effs: Vec<Effect> = Vec::new();
                proof {
                    assert(effects_view(empty_effs@) =~= Seq::<EffectView>::empty());
                }
                outs_effects.push(empty_effs);
                outs_limited.push(false);
            }
            proof {
                let ev = eval_instance_view(regs, behs, w1.instances[i as int]);
                assert(outsv[i as int] == ev);
                assert(effects_view(outs_effects@[i as int]@) == ev.effects);
                assert(outs_limited@[i as int] == ev.limited);
                assert forall|j: int|
                    0 <= j < i + 1 implies effects_view((#[trigger] outs_effects@[j])@)
                    == outsv[j].effects && outs_limited@[j] == outsv[j].limited by {
                    if j < i as int {
                        assert(effects_view((outs_effects@[j])@) == outsv[j].effects);
                        assert(outs_limited@[j] == outsv[j].limited);
                    }
                }
            }
            i += 1;
        }
        // Application, in the same stable order, one instance at a time.
        let mut i2: usize = 0;
        while i2 < n
            invariant
                self.wf(),
                self.regions == old(self).regions,
                self.behaviors == old(self).behaviors,
                self.viewers == old(self).viewers,
                self.purge_delay == old(self).purge_delay,
                self.running == old(self).running,
                self.next_instance_id == old(self).next_instance_id,
                regs == old(self).regions@,
                n == self.instances@.len(),
                w1.instances.len() == n,
                outsv.len() == n,
                outs_effects@.len() == n,
                outs_limited@.len() == n,
                self.tick_count == old(self).tick_count,
                self.epoch == old(self).epoch,
                forall|j: int|
                    0 <= j < n ==> effects_view((#[trigger] outs_effects@[j])@) == outsv[j].effects
                        && outs_limited@[j] == outsv[j].limited,
                i2 <= n,
                self.world() == apply_upto(w1, regs, outsv, i2 as int),
            decreases n - i2,
        {
            let ghost before = self.world();
            proof {
                lemma_apply_upto_frame(w1, regs, outsv, i2 as int);
                assert(before.instances[i2 as int] == w1.instances[i2 as int]);
                assert(self.instances@[i2 as int].view() == w1.instances[i2 as int]);
            }
            let st = self.instances[i2].state;
            if matches!(st, BehaviorInstanceState::Running) {
                self.apply_effects_exec(i2, &outs_effects[i2]);
                if outs_limited[i2] {
                    let iid = self.instances[i2].id;
                    proof {
                        lemma_apply_effects_frame(before, regs, i2 as int, outsv[i2 as int].effects);
                    }
                    self.push_diag(iid, SimError::GraphStepLimitExceeded);
                }
            }
            proof {
                assert(self.world() == apply_step(w1, before, regs, outsv, i2 as int));
            }
            i2 += 1;
        }
        let ghost w2 = apply_upto(w1, regs, outsv, n as int);
        proof {
            assert(self.world() == w2);
        }
        // The purge policy: an instance killed long enough ago leaves the
        // visible world.
        let delay = self.purge_delay;
        let mut i3: usize = 0;
        while i3 < n
            invariant
                self.wf(),
                self.regions == old(self).regions,
                self.behaviors == old(self).behaviors,
                self.viewers == old(self).viewers,
                self.purge_delay == old(self).purge_delay,
                self.running == old(self).running,
                self.next_instance_id == old(self).next_instance_id,
                delay == old(self).purge_delay,
                n == self.instances@.len(),
                w2.instances.len() == n,
                i3 <= n,
                self.pending@ == w2.pending,
                emitted_view(self.emitted@) == w2.emitted,
                self.diagnostics@ == w2.diagnostics,
                self.tick_count == w2.tick_count,
                self.epoch == w2.epoch,
                forall|j: int|
                    0 <= j < i3 ==> self.instances_view()[j] == purge_inst(
                        #[trigger] w2.instances[j],
                        w2.tick_count,
                        delay,
                    ),
                forall|j: int| i3 <= j < n ==> #[trigger] self.instances_view()[j] == w2.instances[j],
            decreases n - i3,
        {
            let ghost snap = self.instances_view();
            let st = self.instances[i3].state;
            let ka = self.instances[i3].killed_at;
            let mut purge = false;
            match ka {
                Some(kt) => {
                    if matches!(st, BehaviorInstanceState::Killed) && self.tick_count >= kt
                        && self.tick_count - kt >= delay {
                        purge = true;
                    }
                },
                None => {},
            }
            if purge {
                let mut tmp = BehaviorInstance::new(0, 0, None, None);
                self.instances.set_and_swap(i3, &mut tmp);
                tmp.state = BehaviorInstanceState::Purged;
                self.instances.set_and_swap(i3, &mut tmp);
            }
            proof {
                let vnew = self.instances_view();
                assert forall|j: int| 0 <= j < n && j != i3 implies #[trigger] vnew[j] == snap[j] by {
                    assert(vnew[j] == self.instances@[j].view());
                }
                assert(snap[i3 as int] == w2.instances[i3 as int]);
                assert(purge == (snap[i3 as int].state is Killed && snap[i3 as int].killed_at
                    is Some && w2.tick_count as int >= snap[i3 as int].killed_at->0 as int
                    + delay as int));
                if purge {
                    assert(vnew[i3 as int] =~= (InstanceView {
                        state: BehaviorInstanceState::Purged,
                        ..snap[i3 as int]
                    }));
                } else {
                    assert(vnew[i3 as int] == snap[i3 as int]);
                }
                assert(vnew[i3 as int] == purge_inst(
                    w2.instances[i3 as int],
                    w2.tick_count,
                    delay,
                ));
                assert forall|a: int, b: int| 0 <= a < b < vnew.len() implies (
                #[trigger] vnew[a]).id < (#[trigger] vnew[b]).id by {
                    assert(snap[a].id < snap[b].id);
                }
                assert forall|a: int| 0 <= a < vnew.len() implies wf_vars(
                    (#[trigger] vnew[a]).variables,
                ) by {
                    assert(wf_vars(snap[a].variables));
                }
                assert forall|a: int| 0 <= a < self.instances@.len() implies (
                #[trigger] self.instances@[a]).id < self.next_instance_id by {
                    assert(self.instances@[a].view().id == vnew[a].id);
                    assert(snap[a].id < self.next_instance_id);
                }
            }
            i3 += 1;
        }
        let ghost w3 = purge_pass(w2, delay);
        proof {
            assert(self.instances_view() =~= w3.instances);
            assert(self.world() =~= w3);
        }
        // The clock and the epoch advance; a new snapshot becomes visible.
        self.tick_count = self.tick_count + 1;
        self.epoch = self.epoch + 1;
        proof {
            assert(self.instances_view() =~= w3.instances);
            assert(self.world() =~= tick_spec(oldw, regs, behs, old(self).purge_delay));
        }
    }

    /// Builds the snapshot `viewer_id` would see right now.
    fn build_update(&self, viewer_id: usize) -> (u: GameUpdate)
        requires
            self.wf(),
        ensures
            u.view() == snapshot_spec(self.world(), viewer_id),
    {
        let ghost w = self.world();
        let region_id: Option<usize> = match self.find_instance_index(viewer_id) {
            Some(i) => {
                match self.instances[i].position {
                    Some(p) => Some(p.0),
                    None => None,
                }
            },
            None => None,
        };
        let mut snaps: Vec<InstanceSnap> = Vec::new();
        match region_id {
            Some(rid) => {
                let n = self.instances.len();
                let mut i: usize = 0;
                while i < n
                    invariant
                        self.wf(),
                        w == self.world(),
                        n == self.instances@.len(),
                        i <= n,
                        snaps@ == visible_in(w.instances.take(i as int), rid),
                    decreases n - i,
                {
                    proof {
                        assert(w.instances[i as int] == self.instances@[i as int].view());
                        assert(w.instances.take(i + 1 as int).drop_last() =~= w.instances.take(
                            i as int,
                        ));
                        assert(w.instances.take(i + 1 as int).last() == w.instances[i as int]);
                    }
                    let inst = &self.instances[i];
                    if !matches!(inst.state, BehaviorInstanceState::Purged) {
                        match inst.position {
                            Some(p) => {
                                if p.0 == rid {
                                    snaps.push(
                                        InstanceSnap {
                                            id: inst.id,
                                            position: p,
                                            tile: inst.tile,
                                            state: inst.state,
                                        },
                                    );
                                }
                            },
                            None => {},
                        }
                    }
                    i += 1;
                }
                proof {
                    assert(w.instances.take(n as int) =~= w.instances);
                }
            },
            None => {},
        }
        let mut actions: Vec<EmittedAction> = Vec::new();
        let m = self.emitted.len();
        let mut k: usize = 0;
        while k < m
            invariant
                self.emitted@.len() == m,
                k <= m,
                actions@.len() == k,
                forall|j: int|
                    0 <= j < k ==> (#[trigger] actions@[j]).instance_id
                        == self.emitted@[j].instance_id && actions@[j].action@
                        == self.emitted@[j].action@,
            decreases m - k,
        {
            actions.push(
                EmittedAction {
                    instance_id: self.emitted[k].instance_id,
                    action: self.emitted[k].action.clone(),
                },
            );
            k += 1;
        }
        proof {
            assert(emitted_view(actions@) =~= emitted_view(self.emitted@));
        }
        let u = GameUpdate {
            tick: self.tick_count,
            epoch: self.epoch,
            region_id,
            instances: snaps,
            actions,
        };
        proof {
            assert(u.view() =~= snapshot_spec(w, viewer_id));
        }
        u
    }

    /// Pulls the latest snapshot for one viewer. Returns `None` when
    /// nothing changed since that viewer's last poll — exactly when the
    /// viewer's recorded epoch equals the current one — so no redundant
    /// snapshot is ever produced; polling never mutates simulation state,
    /// only the viewer's own bookmark.
    pub fn poll_update(&mut self, viewer_id: usize) -> (r: Option<GameUpdate>)
        requires
            old(self).wf(),
        ensures
            final(self).wf(),
            final(self).world() == old(self).world(),
            final(self).regions == old(self).regions,
            final(self).behaviors == old(self).behaviors,
            final(self).instances == old(self).instances,
            final(self).purge_delay == old(self).purge_delay,
            final(self).running == old(self).running,
            final(self).next_instance_id == old(self).next_instance_id,
            (r is Some) == !(old(self).has_viewer(viewer_id) && old(self).viewer_epoch(viewer_id)
                == old(self).epoch),
            r matches Some(u) ==> u.view() == snapshot_spec(old(self).world(), viewer_id),
            final(self).has_viewer(viewer_id),
            final(self).viewer_epoch(viewer_id) == old(self).epoch,
            final(self).viewers@ == (if old(self).has_viewer(viewer_id) {
                old(self).viewers@.update(
                    old(self).viewer_indexof(viewer_id),
                    (viewer_id, old(self).epoch),
                )
            } else {
                old(self).viewers@.push((viewer_id, old(self).epoch))
            }),
    {
        let n = self.viewers.len();
        let mut i: usize = 0;
        while i < n
            invariant
                *self == *old(self),
                old(self).wf(),
                n == self.viewers@.len(),
                i <= n,
                forall|j: int| 0 <= j < i ==> (#[trigger] self.viewers@[j]).0 != viewer_id,
            decreases n - i,
        {
            if self.viewers[i].0 == viewer_id {
                proof {
                    let v = self.viewers@;
                    assert(self.has_viewer(viewer_id));
                    let ci = self.viewer_indexof(viewer_id);
                    if ci < i {
                        assert(v[ci].0 != v[i as int].0);
                    } else if i < ci {
                        assert(v[i as int].0 != v[ci].0);
                    }
                }
                if self.viewers[i].1 == self.epoch {
                    proof {
                        assert(self.viewers@.update(i as int, (viewer_id, self.epoch))
                            =~= self.viewers@);
                    }
                    return None;
                }
                let u = self.build_update(viewer_id);
                self.viewers.set(i, (viewer_id, self.epoch));
                proof {
                    let v2 = self.viewers@;
                    assert(v2[i as int].0 == viewer_id);
                    assert(self.has_viewer(viewer_id));
                    let ci2 = self.viewer_indexof(viewer_id);
                    if ci2 < i {
                        assert(v2[ci2].0 == old(self).viewers@[ci2].0);
                        assert(old(self).viewers@[ci2].0 != old(self).viewers@[i as int].0);
                    } else if i < ci2 {
                        assert(v2[ci2].0 == old(self).viewers@[ci2].0);
                        assert(old(self).viewers@[i as int].0 != old(self).viewers@[ci2].0);
                    }
                    assert forall|a: int, b: int| 0 <= a < b < v2.len() implies (
                    #[trigger] v2[a]).0 != (#[trigger] v2[b]).0 by {
                        assert(v2[a].0 == old(self).viewers@[a].0);
                        assert(v2[b].0 == old(self).viewers@[b].0);
                    }
                }
                return Some(u);
            }
            i += 1;
        }
        proof {
            assert(!self.has_viewer(viewer_id));
        }
        let u = self.build_update(viewer_id);
        self.viewers.push((viewer_id, self.epoch));
        proof {
            let v2 = self.viewers@;
            let v = old(self).viewers@;
            assert(v2[n as int].0 == viewer_id);
            assert(self.has_viewer(viewer_id));
            let ci2 = self.viewer_indexof(viewer_id);
            if ci2 < n {
                assert(v2[ci2].0 == v[ci2].0);
            }
            assert forall|a: int, b: int| 0 <= a < b < v2.len() implies (#[trigger] v2[a]).0 != (
            #[trigger] v2[b]).0 by {
                assert(v2[a].0 == v[a].0);
                if b < n {
                    assert(v2[b].0 == v[b].0);
                }
            }
        }
        Some(u)
    }

    /// Creates a new `Running` instance bound to the named behavior, at
    /// the given initial position or, without one, at the behavior's own
    /// start position, drawn with the behavior's tile. Fails with
    /// `NotFound` for an unknown behavior id and with the graph's own load
    /// error for a structurally invalid one.
    pub fn create_instance(
        &mut self,
        behavior_id: usize,
        initial_position: Option<(usize, isize, isize)>,
    ) -> (r: Result<usize, SimError>)
        requires
            old(self).wf(),
            old(self).next_instance_id < usize::MAX,
        ensures
            final(self).wf(),
            final(self).regions == old(self).regions,
            final(self).behaviors == old(self).behaviors,
            final(self).viewers == old(self).viewers,
            final(self).pending == old(self).pending,
            final(self).purge_delay == old(self).purge_delay,
            final(self).running == old(self).running,
            match r {
                Ok(id) => {
                    &&& has_behavior(old(self).behaviors@, behavior_id)
                    &&& behavior_at(old(self).behaviors@, behavior_id).data.entry_of() is Ok
                    &&& id == old(self).next_instance_id
                    &&& final(self).next_instance_id == old(self).next_instance_id + 1
                    &&& final(self).world() == (WorldView {
                        instances: old(self).instances_view().push(
                            InstanceView {
                                id,
                                behavior_id,
                                position: (if initial_position is Some {
                                    initial_position
                                } else {
                                    behavior_at(
                                        old(self).behaviors@,
                                        behavior_id,
                                    ).data.start_position
                                }),
                                tile: behavior_at(
                                    old(self).behaviors@,
                                    behavior_id,
                                ).data.start_tile,
                                state: BehaviorInstanceState::Running,
                                variables: Seq::empty(),
                                killed_at: None,
                            },
                        ),
                        ..old(self).world()
                    })
                },
                Err(e) => {
                    &&& *final(self) == *old(self)
                    &&& if !has_behavior(old(self).behaviors@, behavior_id) {
                        e is NotFound
                    } else {
                        behavior_at(old(self).behaviors@, behavior_id).data.entry_of()
                            == Err::<usize, SimError>(e)
                    }
                },
            },
    {
        let (position, tile) = match find_behavior(&self.behaviors, behavior_id) {
            None => {
                return Err(SimError::NotFound);
            },
            Some(behavior) => {
                match behavior.data.validate() {
                    Err(e) => {
                        return Err(e);
                    },
                    Ok(_entry) => (
                        match initial_position {
                            Some(p) => Some(p),
                            None => behavior.data.start_position,
                        },
                        behavior.data.start_tile,
                    ),
                }
            },
        };
        let id = self.next_instance_id;
        let inst = BehaviorInstance::new(id, behavior_id, position, tile);
        self.instances.push(inst);
        self.next_instance_id = id + 1;
        proof {
            let vold = old(self).instances_view();
            let vnew = self.instances_view();
            assert(vnew =~= vold.push(inst.view()));
            assert forall|a: int, b: int| 0 <= a < b < vnew.len() implies (#[trigger] vnew[a]).id
                < (#[trigger] vnew[b]).id by {
                assert(vnew[a] == vold[a]);
                if b < vold.len() {
                    assert(vnew[b] == vold[b]);
                } else {
                    assert(old(self).instances@[a].id < id);
                }
            }
            assert forall|a: int| 0 <= a < vnew.len() implies wf_vars(
                (#[trigger] vnew[a]).variables,
            ) by {
                if a < vold.len() {
                    assert(vnew[a] == vold[a]);
                }
            }
            assert(self.world() =~= (WorldView {
                instances: vold.push(inst.view()),
                ..old(self).world()
            }));
        }
        Ok(id)
    }

    /// Starts the simulation: spawns one instance for every behavior whose
    /// graph validates, in table order, and marks the state running.
    pub fn startup(&mut self)
        requires
            old(self).wf(),
            old(self).next_instance_id + old(self).behaviors@.len() <= usize::MAX,
        ensures
            final(self).wf(),
            final(self).running,
            final(self).regions == old(self).regions,
            final(self).behaviors == old(self).behaviors,
            final(self).viewers == old(self).viewers,
            final(self).purge_delay == old(self).purge_delay,
            final(self).world() == (WorldView {
                instances: old(self).instances_view() + spawn_upto(
                    old(self).behaviors@,
                    old(self).next_instance_id,
                    old(self).behaviors@.len() as int,
                ),
                ..old(self).world()
            }),
            final(self).next_instance_id == old(self).next_instance_id + spawn_upto(
                old(self).behaviors@,
                old(self).next_instance_id,
                old(self).behaviors@.len() as int,
            ).len(),
    {
        let ghost behs = self.behaviors@;
        let ghost next0 = self.next_instance_id;
        let nb = self.behaviors.len();
        let mut k: usize = 0;
        while k < nb
            invariant
                self.wf(),
                self.regions == old(self).regions,
                self.behaviors == old(self).behaviors,
                self.viewers == old(self).viewers,
                self.pending == old(self).pending,
                self.emitted == old(self).emitted,
                self.diagnostics == old(self).diagnostics,
                self.tick_count == old(self).tick_count,
                self.epoch == old(self).epoch,
                self.purge_delay == old(self).purge_delay,
                self.running == old(self).running,
                behs == old(self).behaviors@,
                next0 == old(self).next_instance_id,
                next0 + behs.len() <= usize::MAX,
                nb == behs.len(),
                k <= nb,
                self.instances_view() == old(self).instances_view() + spawn_upto(
                    behs,
                    next0,
                    k as int,
                ),
                self.next_instance_id == next0 + spawn_upto(behs, next0, k as int).len(),
                spawn_upto(behs, next0, k as int).len() <= k,
            decreases nb - k,
        {
            let ghost prev = spawn_upto(behs, next0, k as int);
            let valid = match self.behaviors[k].data.validate() {
                Ok(_) => true,
                Err(_) => false,
            };
            if valid {
                let b_id = self.behaviors[k].data.id;
                let position = self.behaviors[k].data.start_position;
                let tile = self.behaviors[k].data.start_tile;
                let id = self.next_instance_id;
                let inst = BehaviorInstance::new(id, b_id, position, tile);
                self.instances.push(inst);
                self.next_instance_id = id + 1;
                proof {
                    let vold = old(self).instances_view() + prev;
                    let vnew = self.instances_view();
                    assert(spawn_upto(behs, next0, k + 1 as int) =~= prev.push(inst.view()));
                    assert(vnew =~= vold.push(inst.view()));
                    assert(vnew =~= old(self).instances_view() + spawn_upto(
                        behs,
                        next0,
                        k + 1 as int,
                    ));
                    assert forall|a: int, b: int| 0 <= a < b < vnew.len() implies (
                    #[trigger] vnew[a]).id < (#[trigger] vnew[b]).id by {
                        assert(vnew[a] == vold[a]);
                        if b < vold.len() {
                            assert(vnew[b] == vold[b]);
                        } else {
                            assert(self.instances@[a].id < id || vold[a].id < id);
                            assert(old(self).instances@.len() <= a ==> vold[a].id
                                < self.instances@[b].id);
                        }
                    }
                    assert forall|a: int| 0 <= a < vnew.len() implies wf_vars(
                        (#[trigger] vnew[a]).variables,
                    ) by {
                        if a < vold.len() {
                            assert(vnew[a] == vold[a]);
                        }
                    }
                }
            } else {
                proof {
                    assert(spawn_upto(behs, next0, k + 1 as int) =~= prev);
                    assert(self.instances_view() =~= old(self).instances_view() + spawn_upto(
                        behs,
                        next0,
                        k + 1 as int,
                    ));
                }
            }
            k += 1;
        }
        self.running = true;
        proof {
            assert(self.world() =~= (WorldView {
                instances: old(self).instances_view() + spawn_upto(behs, next0, nb as int),
                ..old(self).world()
            }));
        }
    }

    /// Stops the simulation: the entity world, the command buffer and the
    /// emitted actions are torn down; the clock, the epoch and the
    /// diagnostic log survive until the next startup.
    pub fn shutdown(&mut self)
        requires
            old(self).wf(),
        ensures
            final(self).wf(),
            !final(self).running,
            final(self).regions == old(self).regions,
            final(self).behaviors == old(self).behaviors,
            final(self).viewers == old(self).viewers,
            final(self).purge_delay == old(self).purge_delay,
            final(self).next_instance_id == old(self).next_instance_id,
            final(self).world() == (WorldView {
                instances: Seq::empty(),
                pending: Seq::empty(),
                emitted: Seq::empty(),
                ..old(self).world()
            }),
    {
        self.instances = Vec::new();
        self.pending = Vec::new();
        self.emitted = Vec::new();
        self.running = false;
        proof {
            assert(self.instances_view() =~= Seq::<InstanceView>::empty());
            assert(emitted_view(self.emitted@) =~= Seq::<(usize, Seq<char>)>::empty());
            assert(self.world() =~= (WorldView {
                instances: Seq::empty(),
                pending: Seq::empty(),
                emitted: Seq::empty(),
                ..old(self).world()
            }));
        }
    }
}

/// The instance table after a compaction pass: every instance but the
/// `Purged` ones, in their original order.
pub open spec fn compact_list(instances: Seq<InstanceView>) -> Seq<InstanceView>
    decreases instances.len(),
{
    if instances.len() == 0 {
        Seq::empty()
    } else {
        let rest = compact_list(instances.drop_last());
        if instances.last().state is Purged {
            rest
        } else {
            rest.push(instances.last())
        }
    }
}

/// Every compacted instance comes from the original table, and the
/// original order (and thus ascending ids) survives.
proof fn lemma_compact_list_wf(instances: Seq<InstanceView>)
    requires
        forall|a: int, b: int|
            0 <= a < b < instances.len() ==> (#[trigger] instances[a]).id < (
            #[trigger] instances[b]).id,
    ensures
        forall|j: int|
            0 <= j < compact_list(instances).len() ==> exists|i: int|
                0 <= i < instances.len() && #[trigger] compact_list(instances)[j] == instances[i],
        forall|a: int, b: int|
            0 <= a < b < compact_list(instances).len() ==> (#[trigger] compact_list(
                instances,
            )[a]).id < (#[trigger] compact_list(instances)[b]).id,
    decreases instances.len(),
{
    if instances.len() > 0 {
        let prefix = instances.drop_last();
        lemma_compact_list_wf(prefix);
        let rest = compact_list(prefix);
        assert forall|j: int| 0 <= j < rest.len() implies exists|i: int|
            0 <= i < instances.len() && #[trigger] rest[j] == instances[i] by {
            let i0 = choose|i: int| 0 <= i < prefix.len() && #[trigger] rest[j] == prefix[i];
            assert(instances[i0] == prefix[i0]);
            assert(rest[j] == instances[i0]);
        }
        if !(instances.last().state is Purged) {
            let c = compact_list(instances);
            assert(c == rest.push(instances.last()));
            assert forall|a: int, b: int| 0 <= a < b < c.len() implies (#[trigger] c[a]).id < (
            #[trigger] c[b]).id by {
                if b < rest.len() {
                    assert(rest[a].id < rest[b].id);
                } else {
                    let i0 = choose|i: int|
                        0 <= i < prefix.len() && #[trigger] rest[a] == prefix[i];
                    assert(instances[i0].id < instances.last().id);
                }
            }
        }
    }
}

/// The instances `startup` spawns from the first `k` behaviors: one
/// `Running` instance per structurally valid graph, ids handed out in
/// table order starting at `next0`.
pub open spec fn spawn_upto(behaviors: Seq<GameBehavior>, next0: usize, k: int) -> Seq<
    InstanceView,
>
    decreases k,
{
    if k <= 0 {
        Seq::empty()
    } else {
        let prev = spawn_upto(behaviors, next0, k - 1);
        let b = behaviors[k - 1];
        if b.data.entry_of() is Ok {
            prev.push(
                InstanceView {
                    id: (next0 + prev.len()) as usize,
                    behavior_id: b.data.id,
                    position: b.data.start_position,
                    tile: b.data.start_tile,
                    state: BehaviorInstanceState::Running,
                    variables: Seq::empty(),
                    killed_at: None,
                },
            )
        } else {
            prev
        }
    }
}

/// The ids of the non-`Purged` instances placed in region `rid`, in
/// ascending order.
pub open spec fn ids_in_region(instances: Seq<InstanceView>, rid: usize) -> Seq<usize>
    decreases instances.len(),
{
    if instances.len() == 0 {
        Seq::empty()
    } else {
        let rest = ids_in_region(instances.drop_last(), rid);
        let inst = instances.last();
        if !(inst.state is Purged) && inst.position is Some && (inst.position->0).0 == rid {
            rest.push(inst.id)
        } else {
            rest
        }
    }
}

impl GameData {
    /// Removes every `Purged` instance. Called at safe points between
    /// ticks only, never during interpretation.
    pub fn compact(&mut self)
        requires
            old(self).wf(),
        ensures
            final(self).wf(),
            final(self).regions == old(self).regions,
            final(self).behaviors == old(self).behaviors,
            final(self).viewers == old(self).viewers,
            final(self).purge_delay == old(self).purge_delay,
            final(self).running == old(self).running,
            final(self).next_instance_id == old(self).next_instance_id,
            final(self).world() == (WorldView {
                instances: compact_list(old(self).instances_view()),
                ..old(self).world()
            }),
    {
        let ghost vold = old(self).instances_view();
        let ghost orig = old(self).instances@;
        let n = self.instances.len();
        let mut kept: Vec<BehaviorInstance> = Vec::new();
        let mut p: usize = 0;
        while p < n
            invariant
                old(self).wf(),
                vold == old(self).instances_view(),
                orig == old(self).instances@,
                n == orig.len(),
                p <= n,
                self.instances@ == orig.skip(p as int),
                self.regions == old(self).regions,
                self.behaviors == old(self).behaviors,
                self.viewers == old(self).viewers,
                self.pending == old(self).pending,
                self.emitted == old(self).emitted,
                self.diagnostics == old(self).diagnostics,
                self.tick_count == old(self).tick_count,
                self.epoch == old(self).epoch,
                self.purge_delay == old(self).purge_delay,
                self.running == old(self).running,
                self.next_instance_id == old(self).next_instance_id,
                kept@.map_values(|inst: BehaviorInstance| inst.view()) == compact_list(
                    vold.take(p as int),
                ),
                forall|j: int|
                    0 <= j < kept@.len() ==> exists|t: int|
                        0 <= t < p && #[trigger] kept@[j] == orig[t],
            decreases n - p,
        {
            proof {
                assert(orig.skip(p as int)[0] == orig[p as int]);
                assert(vold.take(p + 1 as int).drop_last() =~= vold.take(p as int));
                assert(vold.take(p + 1 as int).last() == vold[p as int]);
                assert(vold[p as int] == orig[p as int].view());
            }
            let inst = self.instances.remove(0);
            proof {
                assert(orig.skip(p as int).remove(0) =~= orig.skip(p + 1 as int));
            }
            if !matches!(inst.state, BehaviorInstanceState::Purged) {
                kept.push(inst);
                proof {
                    assert(kept@.map_values(|q: BehaviorInstance| q.view()) =~= compact_list(
                        vold.take(p + 1 as int),
                    ));
                }
            } else {
                proof {
                    assert(compact_list(vold.take(p + 1 as int)) =~= compact_list(
                        vold.take(p as int),
                    ));
                }
            }
            p += 1;
        }
        proof {
            assert(vold.take(n as int) =~= vold);
        }
        self.instances = kept;
        proof {
            lemma_compact_list_wf(vold);
            let vnew = self.instances_view();
            assert(vnew == compact_list(vold));
            assert forall|a: int| 0 <= a < vnew.len() implies wf_vars(
                (#[trigger] vnew[a]).variables,
            ) by {
                let i0 = choose|t: int| 0 <= t < vold.len() && #[trigger] vnew[a] == vold[t];
                assert(wf_vars(vold[i0].variables));
            }
            assert forall|a: int| 0 <= a < self.instances@.len() implies (
            #[trigger] self.instances@[a]).id < self.next_instance_id by {
                assert(self.instances@[a].view() == vnew[a]);
                let i0 = choose|t: int| 0 <= t < n && #[trigger] self.instances@[a] == orig[t];
                assert(orig[i0].id < old(self).next_instance_id);
            }
            assert(self.world() =~= (WorldView {
                instances: compact_list(vold),
                ..old(self).world()
            }));
        }
    }

    /// The ids of the non-`Purged` instances placed in the given region,
    /// in ascending order.
    pub fn instances_in_region(&self, region_id: usize) -> (r: Vec<usize>)
        ensures
            r@ == ids_in_region(self.instances_view(), region_id),
    {
        let ghost v = self.instances_view();
        let mut r: Vec<usize> = Vec::new();
        let n = self.instances.len();
        let mut i: usize = 0;
        while i < n
            invariant
                v == self.instances_view(),
                n == self.instances@.len(),
                i <= n,
                r@ == ids_in_region(v.take(i as int), region_id),
            decreases n - i,
        {
            proof {
                assert(v.take(i + 1 as int).drop_last() =~= v.take(i as int));
                assert(v.take(i + 1 as int).last() == v[i as int]);
                assert(v[i as int] == self.instances@[i as int].view());
            }
            let inst = &self.instances[i];
            if !matches!(inst.state, BehaviorInstanceState::Purged) {
                match inst.position {
                    Some(p) => {
                        if p.0 == region_id {
                            r.push(inst.id);
                        }
                    },
                    None => {},
                }
            }
            i += 1;
        }
        proof {
            assert(v.take(n as int) =~= v);
        }
        r
    }

    /// Where an instance of the named behavior starts, if the behavior
    /// exists and declares a start position.
    pub fn get_behavior_default_position(&self, behavior_id: usize) -> (r: Option<
        (usize, isize, isize),
    >)
        requires
            self.wf(),
        ensures
            r == (if has_behavior(self.behaviors@, behavior_id) {
                behavior_at(self.behaviors@, behavior_id).data.start_position
            } else {
                None::<(usize, isize, isize)>
            }),
    {
        match find_behavior(&self.behaviors, behavior_id) {
            Some(b) => b.data.start_position,
            None => None,
        }
    }

    /// The tile an instance of the named behavior is drawn with, if the
    /// behavior exists and declares one.
    pub fn get_behavior_default_tile(&self, behavior_id: usize) -> (r: Option<TileRef>)
        requires
            self.wf(),
        ensures
            r == (if has_behavior(self.behaviors@, behavior_id) {
                behavior_at(self.behaviors@, behavior_id).data.start_tile
            } else {
                None::<TileRef>
            }),
    {
        match find_behavior(&self.behaviors, behavior_id) {
            Some(b) => b.data.start_tile,
            None => None,
        }
    }

    /// Installs a region: a region with the same id is replaced, any other
    /// is added. Partial loads stay partial: one region never affects the
    /// others.
    pub fn add_region(&mut self, region: GameRegion)
        requires
            old(self).wf(),
            region.data.wf(),
        ensures
            final(self).wf(),
            final(self).regions@ == (if crate::region::has_region(
                old(self).regions@,
                region.data.id,
            ) {
                old(self).regions@.update(
                    crate::region::region_indexof(old(self).regions@, region.data.id),
                    region,
                )
            } else {
                old(self).regions@.push(region)
            }),
            final(self).behaviors == old(self).behaviors,
            final(self).instances == old(self).instances,
            final(self).viewers == old(self).viewers,
            final(self).pending == old(self).pending,
            final(self).emitted == old(self).emitted,
            final(self).diagnostics == old(self).diagnostics,
            final(self).tick_count == old(self).tick_count,
            final(self).epoch == old(self).epoch,
            final(self).purge_delay == old(self).purge_delay,
            final(self).running == old(self).running,
            final(self).next_instance_id == old(self).next_instance_id,
    {
        let n = self.regions.len();
        let mut i: usize = 0;
        while i < n
            invariant
                *self == *old(self),
                old(self).wf(),
                region.data.wf(),
                n == self.regions@.len(),
                i <= n,
                forall|j: int| 0 <= j < i ==> (#[trigger] self.regions@[j]).data.id != region.data.id,
            decreases n - i,
        {
            if self.regions[i].data.id == region.data.id {
                proof {
                    crate::region::lemma_region_index_is(
                        self.regions@,
                        region.data.id,
                        i as int,
                    );
                }
                self.regions.set(i, region);
                proof {
                    let r2 = self.regions@;
                    let r1 = old(self).regions@;
                    assert forall|a: int, b: int| 0 <= a < b < r2.len() implies (
                    #[trigger] r2[a]).data.id != (#[trigger] r2[b]).data.id by {
                        assert(r2[a].data.id == r1[a].data.id && r2[b].data.id == r1[b].data.id);
                    }
                    assert forall|a: int| 0 <= a < r2.len() implies (
                    #[trigger] r2[a]).data.wf() by {
                        if a != i {
                            assert(r2[a] == r1[a]);
                        }
                    }
                }
                return ;
            }
            i += 1;
        }
        proof {
            assert(!crate::region::has_region(self.regions@, region.data.id));
        }
        self.regions.push(region);
        proof {
            let r2 = self.regions@;
            let r1 = old(self).regions@;
            assert forall|a: int, b: int| 0 <= a < b < r2.len() implies (
            #[trigger] r2[a]).data.id != (#[trigger] r2[b]).data.id by {
                assert(r2[a].data.id == r1[a].data.id);
                if b < r1.len() {
                    assert(r2[b].data.id == r1[b].data.id);
                }
            }
            assert forall|a: int| 0 <= a < r2.len() implies (#[trigger] r2[a]).data.wf() by {
                if a < r1.len() {
                    assert(r2[a] == r1[a]);
                }
            }
        }
    }

    /// Installs a behavior: one with the same id is replaced, any other is
    /// added. The graph is kept as given; validation happens when an
    /// instance binds to it.
    pub fn add_behavior(&mut self, behavior: GameBehavior)
        requires
            old(self).wf(),
        ensures
            final(self).wf(),
            final(self).behaviors@ == (if has_behavior(old(self).behaviors@, behavior.data.id) {
                old(self).behaviors@.update(
                    crate::behavior::behavior_indexof(old(self).behaviors@, behavior.data.id),
                    behavior,
                )
            } else {
                old(self).behaviors@.push(behavior)
            }),
            final(self).regions == old(self).regions,
            final(self).instances == old(self).instances,
            final(self).viewers == old(self).viewers,
            final(self).pending == old(self).pending,
            final(self).emitted == old(self).emitted,
            final(self).diagnostics == old(self).diagnostics,
            final(self).tick_count == old(self).tick_count,
            final(self).epoch == old(self).epoch,
            final(self).purge_delay == old(self).purge_delay,
            final(self).running == old(self).running,
            final(self).next_instance_id == old(self).next_instance_id,
    {
        let ghost bid = behavior.data.id;
        let n = self.behaviors.len();
        let mut i: usize = 0;
        while i < n
            invariant
                *self == *old(self),
                old(self).wf(),
                bid == behavior.data.id,
                n == self.behaviors@.len(),
                i <= n,
                forall|j: int| 0 <= j < i ==> (#[trigger] self.behaviors@[j]).data.id != bid,
            decreases n - i,
        {
            if self.behaviors[i].data.id == behavior.data.id {
                proof {
                    crate::behavior::lemma_behavior_index_is(self.behaviors@, bid, i as int);
                }
                self.behaviors.set(i, behavior);
                proof {
                    let r2 = self.behaviors@;
                    let r1 = old(self).behaviors@;
                    assert forall|a: int, b: int| 0 <= a < b < r2.len() implies (
                    #[trigger] r2[a]).data.id != (#[trigger] r2[b]).data.id by {
                        assert(r2[a].data.id == r1[a].data.id && r2[b].data.id == r1[b].data.id);
                    }
                }
                return ;
            }
            i += 1;
        }
        proof {
            assert(!has_behavior(self.behaviors@, bid));
        }
        self.behaviors.push(behavior);
        proof {
            let r2 = self.behaviors@;
            let r1 = old(self).behaviors@;
            assert forall|a: int, b: int| 0 <= a < b < r2.len() implies (#[trigger] r2[a]).data.id
                != (#[trigger] r2[b]).data.id by {
                assert(r2[a].data.id == r1[a].data.id);
                if b < r1.len() {
                    assert(r2[b].data.id == r1[b].data.id);
                }
            }
        }
    }
}

} // verus!
