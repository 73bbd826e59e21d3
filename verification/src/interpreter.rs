//! The behavior interpreter: one walk through a graph per instance per
//! tick, producing an effect list. The walk never mutates shared state; it
//! reads the region table, threads the instance's variables, and is cut
//! short by a fixed step budget so that a cyclic graph cannot stall a tick.

use vstd::prelude::*;

use crate::behavior::{BehaviorNodeConnector, BehaviorNodeType, GameBehaviorData};
use crate::instance::BehaviorInstanceState;
use crate::region::{blocked_at, blocked_at_exec, find_region, has_region, region_at, regions_wf, GameRegion};
use crate::value::{
    val_view, var_num, var_num_exec, var_set_exec, var_set_view, vars_view, wf_vars, NodeValue,
    ValView, Vars, VarsView,
};

verus! {

/// The per-tick node-visit budget of one walk.
pub const STEP_LIMIT: u32 = 256;

/// One proposed state change. Effects are collected during a walk and
/// applied atomically by the instance manager afterwards; the interpreter
/// itself mutates nothing shared.
#[derive(Clone, PartialEq, Eq, Debug)]
pub enum Effect {
    /// Move the instance by `(dx, dy)` inside its region.
    MoveBy { dx: isize, dy: isize },
    /// Advance the instance's lifecycle state.
    TransitionState { target: BehaviorInstanceState },
    /// Queue a named game action for the update consumers.
    EmitAction { action: String },
    /// Write a named variable of the instance.
    SetVariable { name: String, value: NodeValue },
}

/// The mathematical shape of an effect.
pub enum EffectView {
    MoveByV { dx: isize, dy: isize },
    TransitionV { target: BehaviorInstanceState },
    EmitV { action: Seq<char> },
    SetVarV { name: Seq<char>, value: ValView },
}

/// The view of one effect.
pub open spec fn effect_view(e: Effect) -> EffectView {
    match e {
        Effect::MoveBy { dx, dy } => EffectView::MoveByV { dx, dy },
        Effect::TransitionState { target } => EffectView::TransitionV { target },
        Effect::EmitAction { action } => EffectView::EmitV { action: action@ },
        Effect::SetVariable { name, value } => EffectView::SetVarV {
            name: name@,
            value: val_view(value),
        },
    }
}

/// The view of an effect list.
pub open spec fn effects_view(s: Seq<Effect>) -> Seq<EffectView> {
    s.map_values(|e: Effect| effect_view(e))
}

/// What a proposed move amounts to, judged against the region table.
#[derive(Clone, Copy, Debug)]
pub enum MoveCheck {
    /// The instance is not placed in any region.
    NoPosition,
    /// The target coordinate leaves the representable range.
    OffRange,
    /// The instance's region id is unknown.
    UnknownRegion,
    /// The target cell's top tile blocks movement.
    Blocked,
    /// The move is free; the payload is the resulting position.
    Free { to: (usize, isize, isize) },
}

/// Judges a move of `(dx, dy)` from `pos` against the region table.
pub open spec fn check_move(
    regions: Seq<GameRegion>,
    pos: Option<(usize, isize, isize)>,
    dx: isize,
    dy: isize,
) -> MoveCheck {
    match pos {
        None => MoveCheck::NoPosition,
        Some(p) => {
            let tx = p.1 as int + dx as int;
            let ty = p.2 as int + dy as int;
            if !(isize::MIN <= tx <= isize::MAX) || !(isize::MIN <= ty <= isize::MAX) {
                MoveCheck::OffRange
            } else if !has_region(regions, p.0) {
                MoveCheck::UnknownRegion
            } else if blocked_at(region_at(regions, p.0).data, (tx as isize, ty as isize)) {
                MoveCheck::Blocked
            } else {
                MoveCheck::Free { to: (p.0, tx as isize, ty as isize) }
            }
        },
    }
}

/// Judges a move of `(dx, dy)` from `pos` against the region table.
pub fn check_move_exec(
    regions: &Vec<GameRegion>,
    pos: Option<(usize, isize, isize)>,
    dx: isize,
    dy: isize,
) -> (r: MoveCheck)
    requires
        regions_wf(regions@),
    ensures
        r == check_move(regions@, pos, dx, dy),
{
    match pos {
        None => MoveCheck::NoPosition,
        Some(p) => {
            let tx = p.1 as i128 + dx as i128;
            let ty = p.2 as i128 + dy as i128;
            if tx < isize::MIN as i128 || tx > isize::MAX as i128 || ty < isize::MIN as i128 || ty
                > isize::MAX as i128 {
                MoveCheck::OffRange
            } else {
                match find_region(regions, p.0) {
                    None => MoveCheck::UnknownRegion,
                    Some(region) => {
                        if blocked_at_exec(region, (tx as isize, ty as isize)) {
                            MoveCheck::Blocked
                        } else {
                            MoveCheck::Free { to: (p.0, tx as isize, ty as isize) }
                        }
                    },
                }
            }
        },
    }
}

/// The outcome of one walk: the effects in emission order, the variable
/// store as the walk left it, the number of nodes visited, and whether the
/// step budget cut the walk short.
#[verifier::ext_equal]
pub struct WalkView {
    pub effects: Seq<EffectView>,
    pub vars: VarsView,
    pub steps: nat,
    pub limited: bool,
}

/// What one node does when reached: the effects it emits, the variable
/// store it leaves, and the source connector it exits through (`None` ends
/// the walk).
pub open spec fn node_step(
    regions: Seq<GameRegion>,
    pos: Option<(usize, isize, isize)>,
    vars: VarsView,
    nt: BehaviorNodeType,
) -> (Seq<EffectView>, VarsView, Option<BehaviorNodeConnector>) {
    match nt {
        BehaviorNodeType::BehaviorTree => (
            Seq::empty(),
            vars,
            Some(BehaviorNodeConnector::Bottom),
        ),
        BehaviorNodeType::Sequence => (Seq::empty(), vars, Some(BehaviorNodeConnector::Bottom)),
        BehaviorNodeType::MoveDirection { dx, dy } => {
            match pos {
                None => (Seq::empty(), vars, Some(BehaviorNodeConnector::Fail)),
                Some(_) => (
                    seq![EffectView::MoveByV { dx, dy }],
                    vars,
                    Some(
                        if check_move(regions, pos, dx, dy) is Free {
                            BehaviorNodeConnector::Success
                        } else {
                            BehaviorNodeConnector::Fail
                        },
                    ),
                ),
            }
        },
        BehaviorNodeType::SetVariable { name, value } => (
            seq![EffectView::SetVarV { name: name@, value: val_view(value) }],
            var_set_view(vars, name@, val_view(value)),
            Some(BehaviorNodeConnector::Bottom),
        ),
        BehaviorNodeType::VariableIs { name, value } => (
            Seq::empty(),
            vars,
            Some(
                if var_num(vars, name@) == value {
                    BehaviorNodeConnector::Success
                } else {
                    BehaviorNodeConnector::Fail
                },
            ),
        ),
        BehaviorNodeType::EmitAction { action } => (
            seq![EffectView::EmitV { action: action@ }],
            vars,
            Some(BehaviorNodeConnector::Bottom),
        ),
        BehaviorNodeType::SetState { target } => (
            seq![EffectView::TransitionV { target }],
            vars,
            Some(BehaviorNodeConnector::Bottom),
        ),
        BehaviorNodeType::Wait => (Seq::empty(), vars, None),
    }
}

/// One walk from `node_id` with the given budget: visits the node, follows
/// the edge leaving the chosen result connector, and stops on a missing
/// node, a missing edge, a `Wait`, or an exhausted budget.
pub open spec fn walk(
    regions: Seq<GameRegion>,
    graph: GameBehaviorData,
    pos: Option<(usize, isize, isize)>,
    vars: VarsView,
    node_id: usize,
    budget: nat,
) -> WalkView
    decreases budget,
{
    if budget == 0 {
        WalkView { effects: Seq::empty(), vars, steps: 0, limited: true }
    } else if !graph.has_node(node_id) {
        WalkView { effects: Seq::empty(), vars, steps: 0, limited: false }
    } else {
        let node = graph.node_of(node_id);
        let step = node_step(regions, pos, vars, node.node_type);
        match step.2 {
            None => WalkView { effects: step.0, vars: step.1, steps: 1, limited: false },
            Some(c) => {
                if graph.has_edge(node_id, c) {
                    let rest = walk(
                        regions,
                        graph,
                        pos,
                        step.1,
                        graph.edge_target(node_id, c),
                        (budget - 1) as nat,
                    );
                    WalkView {
                        effects: step.0 + rest.effects,
                        vars: rest.vars,
                        steps: 1 + rest.steps,
                        limited: rest.limited,
                    }
                } else {
                    WalkView { effects: step.0, vars: step.1, steps: 1, limited: false }
                }
            },
        }
    }
}

/// Runs one walk from `node_id`. Returns the effects in emission order,
/// the variable store the walk left, the number of nodes visited, and
/// whether the budget cut the walk short.
pub fn walk_exec(
    regions: &Vec<GameRegion>,
    graph: &GameBehaviorData,
    pos: Option<(usize, isize, isize)>,
    vars: Vars,
    node_id: usize,
    budget: u32,
) -> (r: (Vec<Effect>, Vars, u32, bool))
    requires
        regions_wf(regions@),
        graph.nodes_unique(),
        graph.sources_unique(),
        wf_vars(vars_view(vars@)),
    ensures
        ({
            let w = walk(regions@, *graph, pos, vars_view(vars@), node_id, budget as nat);
            &&& effects_view(r.0@) == w.effects
            &&& vars_view(r.1@) == w.vars
            &&& r.2 as nat == w.steps
            &&& r.3 == w.limited
            &&& r.2 <= budget
            &&& wf_vars(vars_view(r.1@))
        }),
    decreases budget,
{
    if budget == 0 {
        let e: Vec<Effect> = Vec::new();
        proof {
            assert(effects_view(e@) =~= Seq::<EffectView>::empty());
        }
        return (e, vars, 0, true);
    }
    let node_opt = graph.get_node(node_id);
    if node_opt.is_none() {
        let e: Vec<Effect> = Vec::new();
        proof {
            assert(effects_view(e@) =~= Seq::<EffectView>::empty());
        }
        return (e, vars, 0, false);
    }
    let node = node_opt.unwrap();
    let ghost step = node_step(regions@, pos, vars_view(vars@), graph.node_of(node_id).node_type);
    let mut effects: Vec<Effect> = Vec::new();
    let mut vars2 = vars;
    let connector: Option<BehaviorNodeConnector> = match &node.node_type {
        BehaviorNodeType::BehaviorTree => {
            proof {
                assert(effects_view(effects@) =~= step.0);
            }
            Some(BehaviorNodeConnector::Bottom)
        },
        BehaviorNodeType::Sequence => {
            proof {
                assert(effects_view(effects@) =~= step.0);
            }
            Some(BehaviorNodeConnector::Bottom)
        },
        BehaviorNodeType::MoveDirection { dx, dy } => {
            match pos {
                None => {
                    proof {
                        assert(effects_view(effects@) =~= step.0);
                    }
                    Some(BehaviorNodeConnector::Fail)
                },
                Some(_) => {
                    effects.push(Effect::MoveBy { dx: *dx, dy: *dy });
                    proof {
                        assert(effects_view(effects@) =~= step.0);
                    }
                    let chk = check_move_exec(regions, pos, *dx, *dy);
                    Some(
                        if matches!(chk, MoveCheck::Free { .. }) {
                            BehaviorNodeConnector::Success
                        } else {
                            BehaviorNodeConnector::Fail
                        },
                    )
                },
            }
        },
        BehaviorNodeType::SetVariable { name, value } => {
            effects.push(Effect::SetVariable { name: name.clone(), value: value.duplicate() });
            var_set_exec(&mut vars2, name, value);
            proof {
                assert(effects_view(effects@) =~= step.0);
            }
            Some(BehaviorNodeConnector::Bottom)
        },
        BehaviorNodeType::VariableIs { name, value } => {
            let v = var_num_exec(&vars2, name);
            proof {
                assert(effects_view(effects@) =~= step.0);
            }
            Some(
                if v == *value {
                    BehaviorNodeConnector::Success
                } else {
                    BehaviorNodeConnector::Fail
                },
            )
        },
        BehaviorNodeType::EmitAction { action } => {
            effects.push(Effect::EmitAction { action: action.clone() });
            proof {
                assert(effects_view(effects@) =~= step.0);
            }
            Some(BehaviorNodeConnector::Bottom)
        },
        BehaviorNodeType::SetState { target } => {
            effects.push(Effect::TransitionState { target: *target });
            proof {
                assert(effects_view(effects@) =~= step.0);
            }
            Some(BehaviorNodeConnector::Bottom)
        },
        BehaviorNodeType::Wait => {
            proof {
                assert(effects_view(effects@) =~= step.0);
            }
            None
        },
    };
    proof {
        assert(effects_view(effects@) == step.0);
        assert(vars_view(vars2@) == step.1);
        assert(connector == step.2);
    }
    match connector {
        None => (effects, vars2, 1, false),
        Some(c) => {
            match graph.get_edge_target(node_id, c) {
                None => (effects, vars2, 1, false),
                Some(next) => {
                    let rest = walk_exec(regions, graph, pos, vars2, next, budget - 1);
                    let mut all = effects;
                    let mut rest_effects = rest.0;
                    all.append(&mut rest_effects);
                    proof {
                        let wrest = walk(
                            regions@,
                            *graph,
                            pos,
                            step.1,
                            graph.edge_target(node_id, c),
                            (budget - 1) as nat,
                        );
                        assert(effects_view(all@) =~= step.0 + wrest.effects);
                    }
                    (all, rest.1, 1 + rest.2, rest.3)
                },
            }
        },
    }
}

/// The walk visits no more nodes than its budget allows.
pub proof fn lemma_walk_steps_bounded(
    regions: Seq<GameRegion>,
    graph: GameBehaviorData,
    pos: Option<(usize, isize, isize)>,
    vars: VarsView,
    node_id: usize,
    budget: nat,
)
    ensures
        walk(regions, graph, pos, vars, node_id, budget).steps <= budget,
    decreases budget,
{
    if budget > 0 && graph.has_node(node_id) {
        let node = graph.node_of(node_id);
        let step = node_step(regions, pos, vars, node.node_type);
        match step.2 {
            None => {},
            Some(c) => {
                if graph.has_edge(node_id, c) {
                    lemma_walk_steps_bounded(
                        regions,
                        graph,
                        pos,
                        step.1,
                        graph.edge_target(node_id, c),
                        (budget - 1) as nat,
                    );
                }
            },
        }
    }
}

} // verus!
