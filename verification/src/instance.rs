//! Runtime entities: each instance binds to one behavior graph, carries a
//! position, an active tile, a named-variable scratch store, and a lifecycle
//! state that only ever moves forward.

use vstd::prelude::*;

use crate::region::TileRef;
use crate::value::{vars_view, wf_vars, NodeValue, VarsView};

verus! {

/// The lifecycle of an instance. States only ever advance along
/// `Running < Killed < Purged`; no instance re-enters `Running`.
#[derive(Clone, Copy, PartialEq, Eq, Structural, Debug)]
pub enum BehaviorInstanceState {
    /// Eligible for per-tick evaluation.
    Running,
    /// Excluded from interpretation and from active queries, but still
    /// rendered and queried for a grace period.
    Killed,
    /// Excluded from everything; removed on the next compaction pass.
    Purged,
}

/// The position of a state along the lifecycle order.
pub open spec fn state_rank(s: BehaviorInstanceState) -> int {
    match s {
        BehaviorInstanceState::Running => 0,
        BehaviorInstanceState::Killed => 1,
        BehaviorInstanceState::Purged => 2,
    }
}

/// Whether the lifecycle state machine allows moving from `a` to `b`:
/// states never run backwards.
pub open spec fn transition_allowed(a: BehaviorInstanceState, b: BehaviorInstanceState) -> bool {
    state_rank(a) <= state_rank(b)
}

/// One runtime entity.
pub struct BehaviorInstance {
    /// Unique over the whole instance table.
    pub id: usize,
    /// The behavior graph this instance evaluates each tick.
    pub behavior_id: usize,
    /// `(region id, x, y)`; `None` while not placed in any region.
    pub position: Option<(usize, isize, isize)>,
    /// The tile currently drawn for this instance.
    pub tile: Option<TileRef>,
    pub state: BehaviorInstanceState,
    /// The interpreter's named scratch memory for this instance.
    pub variables: Vec<(String, NodeValue)>,
    /// The tick at which the instance left `Running`, for the purge policy.
    pub killed_at: Option<u64>,
}

/// The mathematical shape of an instance.
#[verifier::ext_equal]
pub struct InstanceView {
    pub id: usize,
    pub behavior_id: usize,
    pub position: Option<(usize, isize, isize)>,
    pub tile: Option<TileRef>,
    pub state: BehaviorInstanceState,
    pub variables: VarsView,
    pub killed_at: Option<u64>,
}

impl BehaviorInstance {
    /// The view of an instance.
    pub open spec fn view(self) -> InstanceView {
        InstanceView {
            id: self.id,
            behavior_id: self.behavior_id,
            position: self.position,
            tile: self.tile,
            state: self.state,
            variables: vars_view(self.variables@),
            killed_at: self.killed_at,
        }
    }

    /// Well-formedness of one instance: variable names are unique.
    pub open spec fn wf(self) -> bool {
        wf_vars(vars_view(self.variables@))
    }

    /// A freshly created instance: running, no variables yet.
    pub fn new(
        id: usize,
        behavior_id: usize,
        position: Option<(usize, isize, isize)>,
        tile: Option<TileRef>,
    ) -> (r: BehaviorInstance)
        ensures
            r.wf(),
            r.view() == (InstanceView {
                id,
                behavior_id,
                position,
                tile,
                state: BehaviorInstanceState::Running,
                variables: Seq::empty(),
                killed_at: None,
            }),
    {
        let r = BehaviorInstance {
            id,
            behavior_id,
            position,
            tile,
            state: BehaviorInstanceState::Running,
            variables: Vec::new(),
            killed_at: None,
        };
        proof {
            assert(vars_view(r.variables@) =~= Seq::<(Seq<char>, crate::value::ValView)>::empty());
        }
        r
    }
}

/// Whether the instance table holds an instance with this id.
pub open spec fn has_instance(instances: Seq<InstanceView>, id: usize) -> bool {
    exists|i: int| 0 <= i < instances.len() && (#[trigger] instances[i]).id == id
}

/// The index of the instance with this id (meaningful only under
/// `has_instance`; unique under `instances_wf`).
pub open spec fn instance_indexof(instances: Seq<InstanceView>, id: usize) -> int {
    choose|i: int| 0 <= i < instances.len() && (#[trigger] instances[i]).id == id
}

/// Well-formedness of the instance table: ids strictly ascending (which
/// fixes the stable evaluation order and makes ids unique), and every
/// variable store well formed.
pub open spec fn instances_wf(instances: Seq<InstanceView>) -> bool {
    &&& forall|i: int, j: int|
        0 <= i < j < instances.len() ==> (#[trigger] instances[i]).id < (
        #[trigger] instances[j]).id
    &&& forall|i: int| 0 <= i < instances.len() ==> wf_vars((#[trigger] instances[i]).variables)
}

/// Under ascending ids, the instance found at index `i` is the one
/// `instance_indexof` denotes.
pub proof fn lemma_instance_index_is(instances: Seq<InstanceView>, id: usize, i: int)
    requires
        forall|a: int, b: int|
            0 <= a < b < instances.len() ==> (#[trigger] instances[a]).id < (
            #[trigger] instances[b]).id,
        0 <= i < instances.len(),
        instances[i].id == id,
    ensures
        has_instance(instances, id),
        instance_indexof(instances, id) == i,
{
    assert(has_instance(instances, id));
    let ci = instance_indexof(instances, id);
    if ci < i {
        assert(instances[ci].id < instances[i].id);
    } else if i < ci {
        assert(instances[i].id < instances[ci].id);
    }
}

} // verus!
