//! The behavior graph model: typed nodes, typed output-to-input
//! connections, and the structural validation a graph must pass before any
//! instance may bind to it.

use vstd::prelude::*;

use crate::error::SimError;
use crate::instance::BehaviorInstanceState;
use crate::region::TileRef;
use crate::value::NodeValue;

verus! {

/// A connection endpoint on a node. `Right` and `Bottom` (and the result
/// connectors `Success` and `Fail`) are sources: edges leave through them.
/// `Top` and `Left` are sinks: edges arrive through them.
#[derive(Clone, Copy, PartialEq, Eq, Structural, Debug)]
pub enum BehaviorNodeConnector {
    Top,
    Left,
    Right,
    Bottom,
    Success,
    Fail,
}

/// Whether an edge may leave through this connector.
pub open spec fn is_source(c: BehaviorNodeConnector) -> bool {
    match c {
        BehaviorNodeConnector::Right => true,
        BehaviorNodeConnector::Bottom => true,
        BehaviorNodeConnector::Success => true,
        BehaviorNodeConnector::Fail => true,
        _ => false,
    }
}

/// Whether an edge may arrive through this connector.
pub open spec fn is_sink(c: BehaviorNodeConnector) -> bool {
    match c {
        BehaviorNodeConnector::Top => true,
        BehaviorNodeConnector::Left => true,
        _ => false,
    }
}

/// Returns whether the given connector is a source connector.
pub fn connector_is_source(c: BehaviorNodeConnector) -> (r: bool)
    ensures
        r == is_source(c),
{
    matches!(
        c,
        BehaviorNodeConnector::Right
        | BehaviorNodeConnector::Bottom
        | BehaviorNodeConnector::Success
        | BehaviorNodeConnector::Fail
    )
}

/// The closed set of node kinds, each with its own typed fields. The
/// interpreter is one exhaustive match over this enumeration.
#[derive(Clone, PartialEq, Eq, Debug)]
pub enum BehaviorNodeType {
    /// The flagged root of a behavior tree; does nothing and continues
    /// through `Bottom`.
    BehaviorTree,
    /// Continues through `Bottom`.
    Sequence,
    /// Proposes a move of the instance by `(dx, dy)`; leaves through
    /// `Success` when the target cell is known and unblocked, through
    /// `Fail` otherwise.
    MoveDirection { dx: isize, dy: isize },
    /// Writes a named variable; continues through `Bottom`.
    SetVariable { name: String, value: NodeValue },
    /// Compares a named numeric variable against a constant; leaves through
    /// `Success` on equality and `Fail` otherwise.
    VariableIs { name: String, value: i64 },
    /// Queues a game action for the update consumers; continues through
    /// `Bottom`.
    EmitAction { action: String },
    /// Proposes a lifecycle transition; continues through `Bottom`.
    SetState { target: BehaviorInstanceState },
    /// Ends the walk for this tick.
    Wait,
}

/// One placed node.
pub struct BehaviorNode {
    pub id: usize,
    pub name: String,
    pub node_type: BehaviorNodeType,
    pub position: (isize, isize),
}

/// One directed edge: `(source node, source connector, sink node, sink
/// connector)`.
pub type BehaviorConnection = (usize, BehaviorNodeConnector, usize, BehaviorNodeConnector);

/// The persistent data of one behavior graph. The `tiles` mapping carries
/// editor-placed tile metadata only and plays no part in interpretation.
pub struct GameBehaviorData {
    pub tiles: Vec<((isize, isize), TileRef)>,
    pub id: usize,
    pub curr_pos: (isize, isize),
    pub min_pos: (isize, isize),
    pub max_pos: (isize, isize),
    pub nodes: Vec<BehaviorNode>,
    pub connections: Vec<BehaviorConnection>,
    /// Where an instance of this behavior starts: `(region id, x, y)`.
    pub start_position: Option<(usize, isize, isize)>,
    /// The tile an instance of this behavior is drawn with.
    pub start_tile: Option<TileRef>,
}

/// A loaded behavior: its name, its source path, and its data.
pub struct GameBehavior {
    pub name: String,
    pub path: String,
    pub data: GameBehaviorData,
}

/// The ids of the nodes of `nodes` that no connection of `conns` enters,
/// in listed order.
pub open spec fn root_ids_of(nodes: Seq<BehaviorNode>, conns: Seq<BehaviorConnection>) -> Seq<
    usize,
>
    decreases nodes.len(),
{
    if nodes.len() == 0 {
        Seq::empty()
    } else {
        let rest = root_ids_of(nodes.drop_last(), conns);
        if !has_incoming_in(conns, nodes.last().id) {
            rest.push(nodes.last().id)
        } else {
            rest
        }
    }
}

/// The ids of the flagged (`BehaviorTree`) nodes that no connection enters,
/// in listed order.
pub open spec fn tree_root_ids_of(nodes: Seq<BehaviorNode>, conns: Seq<BehaviorConnection>) -> Seq<
    usize,
>
    decreases nodes.len(),
{
    if nodes.len() == 0 {
        Seq::empty()
    } else {
        let rest = tree_root_ids_of(nodes.drop_last(), conns);
        if !has_incoming_in(conns, nodes.last().id) && nodes.last().node_type
            is BehaviorTree {
            rest.push(nodes.last().id)
        } else {
            rest
        }
    }
}

/// Whether some connection of `conns` enters node `id`.
pub open spec fn has_incoming_in(conns: Seq<BehaviorConnection>, id: usize) -> bool {
    exists|k: int| 0 <= k < conns.len() && (#[trigger] conns[k]).2 == id
}

impl GameBehaviorData {
    /// Whether the node table holds a node with this id.
    pub open spec fn has_node(self, id: usize) -> bool {
        exists|i: int| 0 <= i < self.nodes@.len() && (#[trigger] self.nodes@[i]).id == id
    }

    /// The index of the node with this id (meaningful only under
    /// `has_node`; unique under `nodes_unique`).
    pub open spec fn node_index(self, id: usize) -> int {
        choose|i: int| 0 <= i < self.nodes@.len() && (#[trigger] self.nodes@[i]).id == id
    }

    /// The node with this id.
    pub open spec fn node_of(self, id: usize) -> BehaviorNode {
        self.nodes@[self.node_index(id)]
    }

    /// Node ids are unique.
    pub open spec fn nodes_unique(self) -> bool {
        forall|i: int, j: int|
            0 <= i < j < self.nodes@.len() ==> (#[trigger] self.nodes@[i]).id != (
            #[trigger] self.nodes@[j]).id
    }

    /// A single connection is structurally valid: it leaves a source
    /// connector of an existing node and enters a sink connector of an
    /// existing node.
    pub open spec fn conn_valid(self, c: BehaviorConnection) -> bool {
        &&& is_source(c.1)
        &&& is_sink(c.3)
        &&& self.has_node(c.0)
        &&& self.has_node(c.2)
    }

    /// All connections are structurally valid.
    pub open spec fn conns_valid(self) -> bool {
        forall|k: int| 0 <= k < self.connections@.len() ==> self.conn_valid(#[trigger] self.connections@[k])
    }

    /// At most one edge leaves any `(node, source connector)` pair.
    pub open spec fn sources_unique(self) -> bool {
        forall|i: int, j: int|
            0 <= i < j < self.connections@.len() ==> ((#[trigger] self.connections@[i]).0, self.connections@[i].1)
                != ((#[trigger] self.connections@[j]).0, self.connections@[j].1)
    }

    /// At most one edge enters any `(node, sink connector)` pair.
    pub open spec fn sinks_unique(self) -> bool {
        forall|i: int, j: int|
            0 <= i < j < self.connections@.len() ==> ((#[trigger] self.connections@[i]).2, self.connections@[i].3)
                != ((#[trigger] self.connections@[j]).2, self.connections@[j].3)
    }

    /// Structural well-formedness of a graph.
    pub open spec fn structure_ok(self) -> bool {
        &&& self.nodes@.len() > 0
        &&& self.nodes_unique()
        &&& self.conns_valid()
        &&& self.sources_unique()
        &&& self.sinks_unique()
    }

    /// Whether some connection enters node `id`.
    pub open spec fn has_incoming(self, id: usize) -> bool {
        has_incoming_in(self.connections@, id)
    }

    /// Whether an edge leaves `(id, c)`.
    pub open spec fn has_edge(self, id: usize, c: BehaviorNodeConnector) -> bool {
        exists|k: int|
            0 <= k < self.connections@.len() && (#[trigger] self.connections@[k]).0 == id
                && self.connections@[k].1 == c
    }

    /// The index of the edge leaving `(id, c)` (meaningful only under
    /// `has_edge`; unique under `sources_unique`).
    pub open spec fn edge_index(self, id: usize, c: BehaviorNodeConnector) -> int {
        choose|k: int|
            0 <= k < self.connections@.len() && (#[trigger] self.connections@[k]).0 == id
                && self.connections@[k].1 == c
    }

    /// The node the edge leaving `(id, c)` enters.
    pub open spec fn edge_target(self, id: usize, c: BehaviorNodeConnector) -> usize {
        self.connections@[self.edge_index(id, c)].2
    }

    /// The entry node this graph starts its walk at: the unique node
    /// without incoming connections, or the unique flagged root among
    /// several candidates. A structurally broken graph is `MalformedGraph`;
    /// one without a discernible entry is `AmbiguousEntryPoint`.
    pub open spec fn entry_of(self) -> Result<usize, SimError> {
        if !self.structure_ok() {
            Result::Err(SimError::MalformedGraph)
        } else {
            let roots = root_ids_of(self.nodes@, self.connections@);
            let tree_roots = tree_root_ids_of(self.nodes@, self.connections@);
            if roots.len() == 1 {
                Result::Ok(roots[0])
            } else if tree_roots.len() == 1 {
                Result::Ok(tree_roots[0])
            } else {
                Result::Err(SimError::AmbiguousEntryPoint)
            }
        }
    }
}

/// Under unique node ids, the node found at index `i` is the one
/// `node_index` denotes.
pub proof fn lemma_node_index_is(d: GameBehaviorData, id: usize, i: int)
    requires
        d.nodes_unique(),
        0 <= i < d.nodes@.len(),
        d.nodes@[i].id == id,
    ensures
        d.has_node(id),
        d.node_index(id) == i,
{
    assert(d.has_node(id));
    let ci = d.node_index(id);
    if ci < i {
        assert(d.nodes@[ci].id != d.nodes@[i].id);
    } else if i < ci {
        assert(d.nodes@[i].id != d.nodes@[ci].id);
    }
}

/// Under unique sources, the edge found at index `k` is the one
/// `edge_index` denotes.
pub proof fn lemma_edge_index_is(d: GameBehaviorData, id: usize, c: BehaviorNodeConnector, k: int)
    requires
        d.sources_unique(),
        0 <= k < d.connections@.len(),
        d.connections@[k].0 == id,
        d.connections@[k].1 == c,
    ensures
        d.has_edge(id, c),
        d.edge_index(id, c) == k,
{
    assert(d.has_edge(id, c));
    let ci = d.edge_index(id, c);
    if ci < k {
        assert((d.connections@[ci].0, d.connections@[ci].1) != (
            d.connections@[k].0,
            d.connections@[k].1,
        ));
    } else if k < ci {
        assert((d.connections@[k].0, d.connections@[k].1) != (
            d.connections@[ci].0,
            d.connections@[ci].1,
        ));
    }
}

/// Whether some connection of `conns` enters node `id`.
fn has_incoming_exec(conns: &Vec<BehaviorConnection>, id: usize) -> (r: bool)
    ensures
        r == has_incoming_in(conns@, id),
{
    let m = conns.len();
    let mut k: usize = 0;
    while k < m
        invariant
            m == conns@.len(),
            k <= m,
            forall|t: int| 0 <= t < k ==> (#[trigger] conns@[t]).2 != id,
        decreases m - k,
    {
        if conns[k].2 == id {
            return true;
        }
        k += 1;
    }
    false
}

impl GameBehaviorData {
    /// Whether the node table holds a node with this id.
    pub fn has_node_exec(&self, id: usize) -> (r: bool)
        ensures
            r == self.has_node(id),
    {
        let n = self.nodes.len();
        let mut i: usize = 0;
        while i < n
            invariant
                n == self.nodes@.len(),
                i <= n,
                forall|j: int| 0 <= j < i ==> (#[trigger] self.nodes@[j]).id != id,
            decreases n - i,
        {
            if self.nodes[i].id == id {
                return true;
            }
            i += 1;
        }
        false
    }

    /// The node with the given id, if the table holds one.
    pub fn get_node(&self, id: usize) -> (r: Option<&BehaviorNode>)
        requires
            self.nodes_unique(),
        ensures
            match r {
                Some(node) => self.has_node(id) && *node == self.node_of(id),
                None => !self.has_node(id),
            },
    {
        let n = self.nodes.len();
        let mut i: usize = 0;
        while i < n
            invariant
                self.nodes_unique(),
                n == self.nodes@.len(),
                i <= n,
                forall|j: int| 0 <= j < i ==> (#[trigger] self.nodes@[j]).id != id,
            decreases n - i,
        {
            if self.nodes[i].id == id {
                proof {
                    lemma_node_index_is(*self, id, i as int);
                }
                return Some(&self.nodes[i]);
            }
            i += 1;
        }
        proof {
            assert(!self.has_node(id));
        }
        None
    }

    /// The node an edge leaving `(id, c)` enters, if one does.
    pub fn get_edge_target(&self, id: usize, c: BehaviorNodeConnector) -> (r: Option<usize>)
        requires
            self.sources_unique(),
        ensures
            match r {
                Some(t) => self.has_edge(id, c) && t == self.edge_target(id, c),
                None => !self.has_edge(id, c),
            },
    {
        let m = self.connections.len();
        let mut k: usize = 0;
        while k < m
            invariant
                self.sources_unique(),
                m == self.connections@.len(),
                k <= m,
                forall|t: int|
                    0 <= t < k ==> !((#[trigger] self.connections@[t]).0 == id
                        && self.connections@[t].1 == c),
            decreases m - k,
        {
            let conn = self.connections[k];
            if conn.0 == id && connector_eq(conn.1, c) {
                proof {
                    lemma_edge_index_is(*self, id, c, k as int);
                }
                return Some(conn.2);
            }
            k += 1;
        }
        proof {
            assert(!self.has_edge(id, c));
        }
        None
    }

    /// Structural validation, run before any instance may bind to this
    /// graph. Returns the entry node id, `MalformedGraph` for a broken
    /// graph, `AmbiguousEntryPoint` where no entry can be discerned.
    pub fn validate(&self) -> (r: Result<usize, SimError>)
        ensures
            r == self.entry_of(),
    {
        let n = self.nodes.len();
        if n == 0 {
            return Err(SimError::MalformedGraph);
        }
        let mut i: usize = 0;
        while i < n
            invariant
                n == self.nodes@.len(),
                i <= n,
                forall|a: int, b: int|
                    0 <= a < b < n && a < i ==> (#[trigger] self.nodes@[a]).id != (
                    #[trigger] self.nodes@[b]).id,
            decreases n - i,
        {
            let mut j: usize = i + 1;
            while j < n
                invariant
                    n == self.nodes@.len(),
                    i < n,
                    i < j <= n,
                    forall|b: int| i < b < j ==> (#[trigger] self.nodes@[b]).id != self.nodes@[i as int].id,
                decreases n - j,
            {
                if self.nodes[i].id == self.nodes[j].id {
                    return Err(SimError::MalformedGraph);
                }
                j += 1;
            }
            i += 1;
        }
        assert(self.nodes_unique());
        let m = self.connections.len();
        let mut k: usize = 0;
        while k < m
            invariant
                m == self.connections@.len(),
                k <= m,
                forall|t: int| 0 <= t < k ==> self.conn_valid(#[trigger] self.connections@[t]),
            decreases m - k,
        {
            let c = self.connections[k];
            let src_ok = matches!(
                c.1,
                BehaviorNodeConnector::Right
                | BehaviorNodeConnector::Bottom
                | BehaviorNodeConnector::Success
                | BehaviorNodeConnector::Fail
            );
            let snk_ok = matches!(c.3, BehaviorNodeConnector::Top | BehaviorNodeConnector::Left);
            if !src_ok || !snk_ok || !self.has_node_exec(c.0) || !self.has_node_exec(c.2) {
                return Err(SimError::MalformedGraph);
            }
            k += 1;
        }
        assert(self.conns_valid());
        let mut k1: usize = 0;
        while k1 < m
            invariant
                m == self.connections@.len(),
                k1 <= m,
                forall|a: int, b: int|
                    0 <= a < b < m && a < k1 ==> ((#[trigger] self.connections@[a]).0, self.connections@[a].1)
                        != ((#[trigger] self.connections@[b]).0, self.connections@[b].1),
            decreases m - k1,
        {
            let mut k2: usize = k1 + 1;
            while k2 < m
                invariant
                    m == self.connections@.len(),
                    k1 < m,
                    k1 < k2 <= m,
                    forall|b: int|
                        k1 < b < k2 ==> ((#[trigger] self.connections@[b]).0, self.connections@[b].1)
                            != (self.connections@[k1 as int].0, self.connections@[k1 as int].1),
                decreases m - k2,
            {
                let c1 = self.connections[k1];
                let c2 = self.connections[k2];
                if c1.0 == c2.0 && connector_eq(c1.1, c2.1) {
                    return Err(SimError::MalformedGraph);
                }
                k2 += 1;
            }
            k1 += 1;
        }
        assert(self.sources_unique());
        let mut k3: usize = 0;
        while k3 < m
            invariant
                m == self.connections@.len(),
                k3 <= m,
                forall|a: int, b: int|
                    0 <= a < b < m && a < k3 ==> ((#[trigger] self.connections@[a]).2, self.connections@[a].3)
                        != ((#[trigger] self.connections@[b]).2, self.connections@[b].3),
            decreases m - k3,
        {
            let mut k4: usize = k3 + 1;
            while k4 < m
                invariant
                    m == self.connections@.len(),
                    k3 < m,
                    k3 < k4 <= m,
                    forall|b: int|
                        k3 < b < k4 ==> ((#[trigger] self.connections@[b]).2, self.connections@[b].3)
                            != (self.connections@[k3 as int].2, self.connections@[k3 as int].3),
                decreases m - k4,
            {
                let c1 = self.connections[k3];
                let c2 = self.connections[k4];
                if c1.2 == c2.2 && connector_eq(c1.3, c2.3) {
                    return Err(SimError::MalformedGraph);
                }
                k4 += 1;
            }
            k3 += 1;
        }
        assert(self.sinks_unique());
        let mut roots: Vec<usize> = Vec::new();
        let mut tree_roots: Vec<usize> = Vec::new();
        let mut i2: usize = 0;
        while i2 < n
            invariant
                n == self.nodes@.len(),
                i2 <= n,
                roots@ == root_ids_of(self.nodes@.take(i2 as int), self.connections@),
                tree_roots@ == tree_root_ids_of(self.nodes@.take(i2 as int), self.connections@),
            decreases n - i2,
        {
            let node = &self.nodes[i2];
            let inc = has_incoming_exec(&self.connections, node.id);
            proof {
                assert(self.nodes@.take(i2 + 1 as int).drop_last() =~= self.nodes@.take(i2 as int));
                assert(self.nodes@.take(i2 + 1 as int).last() == self.nodes@[i2 as int]);
            }
            if !inc {
                roots.push(node.id);
                if matches!(node.node_type, BehaviorNodeType::BehaviorTree) {
                    tree_roots.push(node.id);
                }
            }
            i2 += 1;
        }
        proof {
            assert(self.nodes@.take(n as int) =~= self.nodes@);
        }
        if roots.len() == 1 {
            Ok(roots[0])
        } else if tree_roots.len() == 1 {
            Ok(tree_roots[0])
        } else {
            Err(SimError::AmbiguousEntryPoint)
        }
    }
}

/// Compares two connectors.
fn connector_eq(a: BehaviorNodeConnector, b: BehaviorNodeConnector) -> (r: bool)
    ensures
        r == (a == b),
{
    a == b
}

/// Whether the behavior table holds a behavior with this id.
pub open spec fn has_behavior(behaviors: Seq<GameBehavior>, id: usize) -> bool {
    exists|i: int| 0 <= i < behaviors.len() && (#[trigger] behaviors[i]).data.id == id
}

/// The index of the behavior with this id (meaningful only under
/// `has_behavior`; unique under `behaviors_wf`).
pub open spec fn behavior_indexof(behaviors: Seq<GameBehavior>, id: usize) -> int {
    choose|i: int| 0 <= i < behaviors.len() && (#[trigger] behaviors[i]).data.id == id
}

/// The behavior with this id.
pub open spec fn behavior_at(behaviors: Seq<GameBehavior>, id: usize) -> GameBehavior {
    behaviors[behavior_indexof(behaviors, id)]
}

/// Well-formedness of the behavior table: ids unique.
pub open spec fn behaviors_wf(behaviors: Seq<GameBehavior>) -> bool {
    forall|i: int, j: int|
        0 <= i < j < behaviors.len() ==> (#[trigger] behaviors[i]).data.id != (
        #[trigger] behaviors[j]).data.id
}

/// Under unique behavior ids, the behavior found at index `i` is the one
/// `behavior_indexof` denotes.
pub proof fn lemma_behavior_index_is(behaviors: Seq<GameBehavior>, id: usize, i: int)
    requires
        behaviors_wf(behaviors),
        0 <= i < behaviors.len(),
        behaviors[i].data.id == id,
    ensures
        has_behavior(behaviors, id),
        behavior_indexof(behaviors, id) == i,
{
    assert(has_behavior(behaviors, id));
    let ci = behavior_indexof(behaviors, id);
    if ci < i {
        assert(behaviors[ci].data.id != behaviors[i].data.id);
    } else if i < ci {
        assert(behaviors[i].data.id != behaviors[ci].data.id);
    }
}

/// The behavior with the given id, if the table holds one.
pub fn find_behavior(behaviors: &Vec<GameBehavior>, id: usize) -> (r: Option<&GameBehavior>)
    requires
        behaviors_wf(behaviors@),
    ensures
        match r {
            Some(b) => has_behavior(behaviors@, id) && *b == behavior_at(behaviors@, id),
            None => !has_behavior(behaviors@, id),
        },
{
    let n = behaviors.len();
    let mut i: usize = 0;
    while i < n
        invariant
            behaviors_wf(behaviors@),
            n == behaviors@.len(),
            i <= n,
            forall|j: int| 0 <= j < i ==> (#[trigger] behaviors@[j]).data.id != id,
        decreases n - i,
    {
        if behaviors[i].data.id == id {
            proof {
                lemma_behavior_index_is(behaviors@, id, i as int);
            }
            return Some(&behaviors[i]);
        }
        i += 1;
    }
    proof {
        assert(!has_behavior(behaviors@, id));
    }
    None
}

} // verus!
