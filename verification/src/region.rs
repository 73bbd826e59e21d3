//! Sparse per-region spatial store: each integer coordinate carries an
//! ordered stack of tile references (bottom to top), plus named areas
//! over coordinate subsets and incrementally maintained bounding extents.

use vstd::prelude::*;

verus! {

/// How a placed tile is treated by the simulation.
#[derive(Clone, Copy, PartialEq, Eq, Structural, Debug)]
pub enum TileUsage {
    Environment,
    EnvBlocking,
    Water,
    Character,
    Item,
}

/// Identifies a tile image: the map it belongs to, the grid cell inside
/// that map, and its usage tag. A `TileRef` is a value, not a runtime
/// object: it never changes once placed.
#[derive(Clone, Copy, PartialEq, Eq, Structural, Debug)]
pub struct TileRef {
    pub map_id: usize,
    pub grid_x: usize,
    pub grid_y: usize,
    pub usage: TileUsage,
}

/// A named sub-area of a region: a set of coordinates grouped under one name.
#[derive(Clone)]
pub struct RegionArea {
    pub name: String,
    pub coords: Vec<(isize, isize)>,
}

/// The persistent data of one region.
pub struct GameRegionData {
    pub id: usize,
    pub tiles: Vec<((isize, isize), Vec<TileRef>)>,
    pub areas: Vec<RegionArea>,
    pub min_pos: (isize, isize),
    pub max_pos: (isize, isize),
}

/// A loaded region: its name plus its data.
pub struct GameRegion {
    pub name: String,
    pub data: GameRegionData,
}

/// True for the tile usages that make up the environment layer of a
/// coordinate; placing a new environment tile replaces exactly these,
/// leaving character or item overlays untouched.
pub open spec fn is_env_layer(t: TileRef) -> bool {
    t.usage is Environment || t.usage is EnvBlocking || t.usage is Water
}

/// The non-environment overlays of a stack, in their original order.
pub open spec fn overlays_of(stack: Seq<TileRef>) -> Seq<TileRef>
    decreases stack.len(),
{
    if stack.len() == 0 {
        Seq::empty()
    } else {
        let rest = overlays_of(stack.drop_last());
        if is_env_layer(stack.last()) {
            rest
        } else {
            rest.push(stack.last())
        }
    }
}

/// The stack a coordinate holds after a tile is placed on it: an
/// environment tile replaces the environment layer, keeping only the
/// non-environment overlays below it; any other tile is appended on top of
/// the stack as it stands.
pub open spec fn layered(stack: Seq<TileRef>, value: TileRef) -> Seq<TileRef> {
    if is_env_layer(value) {
        overlays_of(stack).push(value)
    } else {
        stack.push(value)
    }
}

/// Whether area `a` covers coordinate `p`.
pub open spec fn area_contains(a: RegionArea, p: (isize, isize)) -> bool {
    exists|i: int| 0 <= i < a.coords@.len() && #[trigger] a.coords@[i] == p
}

/// The names of the areas among `areas` that cover `p`, in listed order.
pub open spec fn area_names_at(areas: Seq<RegionArea>, p: (isize, isize)) -> Seq<String>
    decreases areas.len(),
{
    if areas.len() == 0 {
        Seq::empty()
    } else {
        let rest = area_names_at(areas.drop_last(), p);
        if area_contains(areas.last(), p) {
            rest.push(areas.last().name)
        } else {
            rest
        }
    }
}

/// The lower bounding corner once `p` has been placed.
pub open spec fn bounds_min(m: (isize, isize), p: (isize, isize)) -> (isize, isize) {
    ((if p.0 < m.0 { p.0 } else { m.0 }), (if p.1 < m.1 { p.1 } else { m.1 }))
}

/// The upper bounding corner once `p` has been placed.
pub open spec fn bounds_max(m: (isize, isize), p: (isize, isize)) -> (isize, isize) {
    ((if p.0 > m.0 { p.0 } else { m.0 }), (if p.1 > m.1 { p.1 } else { m.1 }))
}

impl GameRegionData {
    /// Whether some entry of the tile list carries coordinate `p`.
    pub open spec fn has_coord(self, p: (isize, isize)) -> bool {
        exists|i: int| 0 <= i < self.tiles@.len() && (#[trigger] self.tiles@[i]).0 == p
    }

    /// The index of the entry carrying coordinate `p` (meaningful only when
    /// `has_coord(p)` holds; unique under `wf`).
    pub open spec fn coord_index(self, p: (isize, isize)) -> int {
        choose|i: int| 0 <= i < self.tiles@.len() && (#[trigger] self.tiles@[i]).0 == p
    }

    /// The tile stack stored at `p`, empty if the coordinate is absent.
    pub open spec fn stack_at(self, p: (isize, isize)) -> Seq<TileRef> {
        if self.has_coord(p) {
            self.tiles@[self.coord_index(p)].1@
        } else {
            Seq::empty()
        }
    }

    /// The mathematical content of the store: a partial map from coordinate
    /// to its non-empty tile stack.
    pub open spec fn to_map(self) -> Map<(isize, isize), Seq<TileRef>> {
        Map::new(|p: (isize, isize)| self.has_coord(p), |p: (isize, isize)| self.stack_at(p))
    }

    /// Whether `p` lies inside the recorded bounding extents.
    pub open spec fn in_bounds(self, p: (isize, isize)) -> bool {
        self.min_pos.0 <= p.0 <= self.max_pos.0 && self.min_pos.1 <= p.1 <= self.max_pos.1
    }

    /// Well-formedness: coordinates are unique, no coordinate persists with
    /// an empty stack, and every stored coordinate lies inside the bounds.
    pub open spec fn wf(self) -> bool {
        &&& forall|i: int, j: int|
            0 <= i < j < self.tiles@.len() ==> (#[trigger] self.tiles@[i]).0 != (
            #[trigger] self.tiles@[j]).0
        &&& forall|i: int| 0 <= i < self.tiles@.len() ==> (#[trigger] self.tiles@[i]).1@.len() > 0
        &&& forall|i: int|
            0 <= i < self.tiles@.len() ==> self.in_bounds((#[trigger] self.tiles@[i]).0)
    }

    /// A fresh, empty region data block.
    pub fn new(id: usize) -> (r: GameRegionData)
        ensures
            r.wf(),
            r.id == id,
            r.to_map() == Map::<(isize, isize), Seq<TileRef>>::empty(),
            r.areas@.len() == 0,
    {
        let r = GameRegionData {
            id,
            tiles: Vec::new(),
            areas: Vec::new(),
            min_pos: (0, 0),
            max_pos: (0, 0),
        };
        proof {
            assert(r.to_map() =~= Map::<(isize, isize), Seq<TileRef>>::empty());
        }
        r
    }
}

/// Under unique coordinates, the entry found at index `i` is the one
/// `coord_index` denotes.
proof fn lemma_coord_index_is(d: GameRegionData, p: (isize, isize), i: int)
    requires
        forall|a: int, b: int|
            0 <= a < b < d.tiles@.len() ==> (#[trigger] d.tiles@[a]).0 != (#[trigger] d.tiles@[b]).0,
        0 <= i < d.tiles@.len(),
        d.tiles@[i].0 == p,
    ensures
        d.has_coord(p),
        d.coord_index(p) == i,
{
    assert(d.has_coord(p));
    let ci = d.coord_index(p);
    assert(0 <= ci < d.tiles@.len() && d.tiles@[ci].0 == p);
    if ci < i {
        assert(d.tiles@[ci].0 != d.tiles@[i].0);
    } else if i < ci {
        assert(d.tiles@[i].0 != d.tiles@[ci].0);
    }
}

/// Replacing the stack of a coordinate already present updates the map at
/// exactly that coordinate.
proof fn lemma_update_map(
    d1: GameRegionData,
    d2: GameRegionData,
    pos: (isize, isize),
    i: int,
    ns: Vec<TileRef>,
)
    requires
        forall|a: int, b: int|
            0 <= a < b < d1.tiles@.len() ==> (#[trigger] d1.tiles@[a]).0 != (
            #[trigger] d1.tiles@[b]).0,
        0 <= i < d1.tiles@.len(),
        d1.tiles@[i].0 == pos,
        d2.tiles@ == d1.tiles@.update(i, (pos, ns)),
    ensures
        d2.to_map() == d1.to_map().insert(pos, ns@),
        d2.stack_at(pos) == ns@,
{
    assert(forall|k: int|
        0 <= k < d2.tiles@.len() ==> (#[trigger] d2.tiles@[k]).0 == d1.tiles@[k].0);
    assert forall|p: (isize, isize)| #[trigger] d1.has_coord(p) implies d2.has_coord(p) by {
        let j = choose|j: int| 0 <= j < d1.tiles@.len() && (#[trigger] d1.tiles@[j]).0 == p;
        assert(d2.tiles@[j].0 == p);
    }
    assert forall|p: (isize, isize)| #[trigger] d2.has_coord(p) implies d1.has_coord(p) by {
        let j = choose|j: int| 0 <= j < d2.tiles@.len() && (#[trigger] d2.tiles@[j]).0 == p;
        assert(d1.tiles@[j].0 == p);
    }
    lemma_coord_index_is(d2, pos, i);
    assert forall|p: (isize, isize)| p != pos && #[trigger] d2.has_coord(p) implies d2.stack_at(p)
        == d1.stack_at(p) by {
        let j = choose|j: int| 0 <= j < d1.tiles@.len() && (#[trigger] d1.tiles@[j]).0 == p;
        lemma_coord_index_is(d1, p, j);
        lemma_coord_index_is(d2, p, j);
        assert(j != i);
    }
    assert(d2.to_map() =~= d1.to_map().insert(pos, ns@));
}

/// Adding a fresh coordinate extends the map by exactly that coordinate.
proof fn lemma_push_map(
    d1: GameRegionData,
    d2: GameRegionData,
    pos: (isize, isize),
    ns: Vec<TileRef>,
)
    requires
        forall|a: int, b: int|
            0 <= a < b < d1.tiles@.len() ==> (#[trigger] d1.tiles@[a]).0 != (
            #[trigger] d1.tiles@[b]).0,
        !d1.has_coord(pos),
        d2.tiles@ == d1.tiles@.push((pos, ns)),
    ensures
        forall|a: int, b: int|
            0 <= a < b < d2.tiles@.len() ==> (#[trigger] d2.tiles@[a]).0 != (
            #[trigger] d2.tiles@[b]).0,
        d2.to_map() == d1.to_map().insert(pos, ns@),
        d2.stack_at(pos) == ns@,
{
    let n = d1.tiles@.len() as int;
    assert(forall|k: int| 0 <= k < n ==> (#[trigger] d2.tiles@[k]).0 == d1.tiles@[k].0);
    assert(d2.tiles@[n].0 == pos);
    assert forall|a: int, b: int|
        0 <= a < b < d2.tiles@.len() implies (#[trigger] d2.tiles@[a]).0 != (
    #[trigger] d2.tiles@[b]).0 by {
        if b == n {
            assert(d2.tiles@[a].0 == d1.tiles@[a].0);
        }
    }
    assert forall|p: (isize, isize)| #[trigger] d1.has_coord(p) implies d2.has_coord(p) by {
        let j = choose|j: int| 0 <= j < d1.tiles@.len() && (#[trigger] d1.tiles@[j]).0 == p;
        assert(d2.tiles@[j].0 == p);
    }
    assert forall|p: (isize, isize)| p != pos && #[trigger] d2.has_coord(p) implies d1.has_coord(
        p,
    ) by {
        let j = choose|j: int| 0 <= j < d2.tiles@.len() && (#[trigger] d2.tiles@[j]).0 == p;
        assert(j != n);
        assert(d1.tiles@[j].0 == p);
    }
    lemma_coord_index_is(d2, pos, n);
    assert forall|p: (isize, isize)| p != pos && #[trigger] d2.has_coord(p) implies d2.stack_at(p)
        == d1.stack_at(p) by {
        let j = choose|j: int| 0 <= j < d1.tiles@.len() && (#[trigger] d1.tiles@[j]).0 == p;
        lemma_coord_index_is(d1, p, j);
        lemma_coord_index_is(d2, p, j);
    }
    assert(d2.to_map() =~= d1.to_map().insert(pos, ns@));
}

/// Removing the entry of a coordinate removes exactly that coordinate from
/// the map.
proof fn lemma_remove_map(d1: GameRegionData, d2: GameRegionData, pos: (isize, isize), i: int)
    requires
        forall|a: int, b: int|
            0 <= a < b < d1.tiles@.len() ==> (#[trigger] d1.tiles@[a]).0 != (
            #[trigger] d1.tiles@[b]).0,
        0 <= i < d1.tiles@.len(),
        d1.tiles@[i].0 == pos,
        d2.tiles@ == d1.tiles@.remove(i),
    ensures
        forall|a: int, b: int|
            0 <= a < b < d2.tiles@.len() ==> (#[trigger] d2.tiles@[a]).0 != (
            #[trigger] d2.tiles@[b]).0,
        d2.to_map() == d1.to_map().remove(pos),
{
    let n = d1.tiles@.len();
    assert(d2.tiles@.len() == n - 1);
    assert(forall|k: int|
        0 <= k < n - 1 ==> #[trigger] d2.tiles@[k] == (if k < i {
            d1.tiles@[k]
        } else {
            d1.tiles@[k + 1]
        }));
    assert forall|a: int, b: int|
        0 <= a < b < d2.tiles@.len() implies (#[trigger] d2.tiles@[a]).0 != (
    #[trigger] d2.tiles@[b]).0 by {
        let a1: int = if a < i { a } else { a + 1 };
        let b1: int = if b < i { b } else { b + 1 };
        assert(d1.tiles@[a1].0 != d1.tiles@[b1].0);
    }
    assert forall|p: (isize, isize)| p != pos && #[trigger] d1.has_coord(p) implies d2.has_coord(p)
        && d2.stack_at(p) == d1.stack_at(p) by {
        let j = choose|j: int| 0 <= j < d1.tiles@.len() && (#[trigger] d1.tiles@[j]).0 == p;
        lemma_coord_index_is(d1, p, j);
        assert(j != i);
        let j2: int = if j < i { j } else { j - 1 };
        assert(d2.tiles@[j2] == d1.tiles@[j]);
        lemma_coord_index_is(d2, p, j2);
    }
    assert forall|p: (isize, isize)| #[trigger] d2.has_coord(p) implies p != pos && d1.has_coord(
        p,
    ) by {
        let j = choose|j: int| 0 <= j < d2.tiles@.len() && (#[trigger] d2.tiles@[j]).0 == p;
        let j1: int = if j < i { j } else { j + 1 };
        assert(d1.tiles@[j1].0 == p);
        if p == pos {
            if j1 < i {
                assert(d1.tiles@[j1].0 != d1.tiles@[i].0);
            } else {
                assert(d1.tiles@[i].0 != d1.tiles@[j1].0);
            }
        }
    }
    assert(d2.to_map() =~= d1.to_map().remove(pos));
}

/// An exact copy of a tile stack.
fn copy_stack(v: &Vec<TileRef>) -> (r: Vec<TileRef>)
    ensures
        r@ == v@,
{
    let mut r: Vec<TileRef> = Vec::new();
    let n = v.len();
    let mut i: usize = 0;
    while i < n
        invariant
            n == v@.len(),
            i <= n,
            r@ == v@.take(i as int),
        decreases n - i,
    {
        r.push(v[i]);
        proof {
            assert(v@.take(i + 1 as int) =~= v@.take(i as int).push(v@[i as int]));
        }
        i += 1;
    }
    proof {
        assert(v@.take(n as int) =~= v@);
    }
    r
}

/// The stack with `value` placed on it, under the layering policy.
fn layered_exec(stack: &Vec<TileRef>, value: TileRef) -> (r: Vec<TileRef>)
    ensures
        r@ == layered(stack@, value),
{
    let env = matches!(value.usage, TileUsage::Environment)
        || matches!(value.usage, TileUsage::EnvBlocking)
        || matches!(value.usage, TileUsage::Water);
    let mut r: Vec<TileRef> = Vec::new();
    let n = stack.len();
    let mut i: usize = 0;
    while i < n
        invariant
            env == is_env_layer(value),
            n == stack@.len(),
            i <= n,
            r@ == if env {
                overlays_of(stack@.take(i as int))
            } else {
                stack@.take(i as int)
            },
        decreases n - i,
    {
        let t = stack[i];
        if !env || !(matches!(t.usage, TileUsage::Environment)
            || matches!(t.usage, TileUsage::EnvBlocking)
            || matches!(t.usage, TileUsage::Water)) {
            r.push(t);
        }
        proof {
            assert(stack@.take(i + 1 as int).drop_last() =~= stack@.take(i as int));
            assert(stack@.take(i + 1 as int).last() == stack@[i as int]);
        }
        i += 1;
    }
    proof {
        assert(stack@.take(n as int) =~= stack@);
    }
    r.push(value);
    r
}

impl GameRegion {
    /// A fresh region with the given name and id and no content.
    pub fn new(name: String, id: usize) -> (r: GameRegion)
        ensures
            r.data.wf(),
            r.data.id == id,
            r.name == name,
            r.data.to_map() == Map::<(isize, isize), Seq<TileRef>>::empty(),
            r.data.areas@.len() == 0,
    {
        GameRegion { name, data: GameRegionData::new(id) }
    }

    /// Point lookup: the ordered tile stack at `pos`, bottom to top; empty
    /// exactly when the coordinate was never given a value (or was cleared).
    pub fn get_value(&self, pos: (isize, isize)) -> (r: Vec<TileRef>)
        requires
            self.data.wf(),
        ensures
            r@ == self.data.stack_at(pos),
            r@ == if self.data.to_map().dom().contains(pos) {
                self.data.to_map()[pos]
            } else {
                Seq::<TileRef>::empty()
            },
    {
        let n = self.data.tiles.len();
        let mut i: usize = 0;
        while i < n
            invariant
                self.data.wf(),
                n == self.data.tiles@.len(),
                i <= n,
                forall|j: int| 0 <= j < i ==> (#[trigger] self.data.tiles@[j]).0 != pos,
            decreases n - i,
        {
            let entry = &self.data.tiles[i];
            if entry.0.0 == pos.0 && entry.0.1 == pos.1 {
                proof {
                    lemma_coord_index_is(self.data, pos, i as int);
                }
                return copy_stack(&entry.1);
            }
            i += 1;
        }
        proof {
            assert(!self.data.has_coord(pos));
        }
        Vec::new()
    }

    /// Places an environment tile at `pos`: the environment layer there is
    /// replaced by `value` while non-environment overlays are kept, and the
    /// bounding extents grow to cover `pos`.
    pub fn set_value(&mut self, pos: (isize, isize), value: TileRef)
        requires
            old(self).data.wf(),
        ensures
            final(self).data.wf(),
            final(self).name == old(self).name,
            final(self).data.id == old(self).data.id,
            final(self).data.areas@ == old(self).data.areas@,
            final(self).data.to_map() == old(self).data.to_map().insert(
                pos,
                layered(old(self).data.stack_at(pos), value),
            ),
            final(self).data.min_pos == bounds_min(old(self).data.min_pos, pos),
            final(self).data.max_pos == bounds_max(old(self).data.max_pos, pos),
    {
        let min0: isize = if pos.0 < self.data.min_pos.0 { pos.0 } else { self.data.min_pos.0 };
        let min1: isize = if pos.1 < self.data.min_pos.1 { pos.1 } else { self.data.min_pos.1 };
        let max0: isize = if pos.0 > self.data.max_pos.0 { pos.0 } else { self.data.max_pos.0 };
        let max1: isize = if pos.1 > self.data.max_pos.1 { pos.1 } else { self.data.max_pos.1 };
        self.data.min_pos = (min0, min1);
        self.data.max_pos = (max0, max1);
        let ghost mid = self.data;
        proof {
            assert(mid.to_map() =~= old(self).data.to_map());
            assert(mid.stack_at(pos) == old(self).data.stack_at(pos));
        }
        let n = self.data.tiles.len();
        let mut i: usize = 0;
        while i < n
            invariant
                self.name == old(self).name,
                self.data == mid,
                mid.wf(),
                mid.id == old(self).data.id,
                mid.areas@ == old(self).data.areas@,
                mid.min_pos == bounds_min(old(self).data.min_pos, pos),
                mid.max_pos == bounds_max(old(self).data.max_pos, pos),
                mid.to_map() == old(self).data.to_map(),
                mid.stack_at(pos) == old(self).data.stack_at(pos),
                n == self.data.tiles@.len(),
                i <= n,
                forall|j: int| 0 <= j < i ==> (#[trigger] self.data.tiles@[j]).0 != pos,
            decreases n - i,
        {
            let entry = &self.data.tiles[i];
            if entry.0.0 == pos.0 && entry.0.1 == pos.1 {
                proof {
                    lemma_coord_index_is(self.data, pos, i as int);
                }
                let new_stack = layered_exec(&self.data.tiles[i].1, value);
                self.data.tiles.set(i, (pos, new_stack));
                proof {
                    lemma_update_map(mid, self.data, pos, i as int, new_stack);
                    assert(forall|k: int|
                        0 <= k < self.data.tiles@.len() ==> (#[trigger] self.data.tiles@[k]).0
                            == mid.tiles@[k].0);
                }
                return ;
            }
            i += 1;
        }
        proof {
            assert(!self.data.has_coord(pos));
        }
        let mut new_stack = layered_exec(&Vec::new(), value);
        proof {
            assert(overlays_of(Seq::<TileRef>::empty()) =~= Seq::<TileRef>::empty());
        }
        let ghost before = self.data;
        self.data.tiles.push((pos, new_stack));
        proof {
            lemma_push_map(before, self.data, pos, new_stack);
        }
    }

    /// Clears the coordinate `pos` entirely: afterwards it holds no entry
    /// and `get_value` returns the empty stack for it.
    pub fn remove_value(&mut self, pos: (isize, isize))
        requires
            old(self).data.wf(),
        ensures
            final(self).data.wf(),
            final(self).name == old(self).name,
            final(self).data.id == old(self).data.id,
            final(self).data.areas@ == old(self).data.areas@,
            final(self).data.min_pos == old(self).data.min_pos,
            final(self).data.max_pos == old(self).data.max_pos,
            final(self).data.to_map() == old(self).data.to_map().remove(pos),
    {
        let n = self.data.tiles.len();
        let mut i: usize = 0;
        while i < n
            invariant
                self.name == old(self).name,
                self.data == old(self).data,
                old(self).data.wf(),
                n == self.data.tiles@.len(),
                i <= n,
                forall|j: int| 0 <= j < i ==> (#[trigger] self.data.tiles@[j]).0 != pos,
            decreases n - i,
        {
            let entry = &self.data.tiles[i];
            if entry.0.0 == pos.0 && entry.0.1 == pos.1 {
                self.data.tiles.remove(i);
                proof {
                    lemma_remove_map(old(self).data, self.data, pos, i as int);
                }
                return ;
            }
            i += 1;
        }
        proof {
            assert(!self.data.has_coord(pos));
            assert(self.data.to_map() =~= old(self).data.to_map().remove(pos));
        }
    }

    /// The names of this region's areas, in their stored order.
    pub fn get_area_names(&self) -> (r: Vec<String>)
        ensures
            r@.len() == self.data.areas@.len(),
            forall|i: int| 0 <= i < r@.len() ==> r@[i] == (#[trigger] self.data.areas@[i]).name,
    {
        let mut r: Vec<String> = Vec::new();
        let n = self.data.areas.len();
        let mut i: usize = 0;
        while i < n
            invariant
                n == self.data.areas@.len(),
                i <= n,
                r@.len() == i,
                forall|j: int| 0 <= j < i ==> r@[j] == (#[trigger] self.data.areas@[j]).name,
            decreases n - i,
        {
            r.push(self.data.areas[i].name.clone());
            i += 1;
        }
        r
    }

    /// The names of the areas that cover `pos`, in their stored order.
    pub fn areas_at(&self, pos: (isize, isize)) -> (r: Vec<String>)
        ensures
            r@ == area_names_at(self.data.areas@, pos),
    {
        let mut r: Vec<String> = Vec::new();
        let n = self.data.areas.len();
        let mut i: usize = 0;
        while i < n
            invariant
                n == self.data.areas@.len(),
                i <= n,
                r@ == area_names_at(self.data.areas@.take(i as int), pos),
            decreases n - i,
        {
            let area = &self.data.areas[i];
            let mut hit = false;
            let m = area.coords.len();
            let mut k: usize = 0;
            while k < m
                invariant
                    m == area.coords@.len(),
                    k <= m,
                    hit == exists|j: int| 0 <= j < k && #[trigger] area.coords@[j] == pos,
                decreases m - k,
            {
                let c = area.coords[k];
                if c.0 == pos.0 && c.1 == pos.1 {
                    hit = true;
                }
                k += 1;
            }
            proof {
                assert(hit == area_contains(*area, pos));
                assert(self.data.areas@.take(i + 1 as int).drop_last() =~= self.data.areas@.take(
                    i as int,
                ));
                assert(self.data.areas@.take(i + 1 as int).last() == self.data.areas@[i as int]);
            }
            if hit {
                r.push(area.name.clone());
            }
            i += 1;
        }
        proof {
            assert(self.data.areas@.take(n as int) =~= self.data.areas@);
        }
        r
    }
}

/// Whether the region table holds a region with this id.
pub open spec fn has_region(regions: Seq<GameRegion>, id: usize) -> bool {
    exists|i: int| 0 <= i < regions.len() && (#[trigger] regions[i]).data.id == id
}

/// The index of the region with this id (meaningful only under
/// `has_region`; unique under `regions_wf`).
pub open spec fn region_indexof(regions: Seq<GameRegion>, id: usize) -> int {
    choose|i: int| 0 <= i < regions.len() && (#[trigger] regions[i]).data.id == id
}

/// The region with this id.
pub open spec fn region_at(regions: Seq<GameRegion>, id: usize) -> GameRegion {
    regions[region_indexof(regions, id)]
}

/// Well-formedness of the region table: ids unique, every region well
/// formed.
pub open spec fn regions_wf(regions: Seq<GameRegion>) -> bool {
    &&& forall|i: int, j: int|
        0 <= i < j < regions.len() ==> (#[trigger] regions[i]).data.id != (
        #[trigger] regions[j]).data.id
    &&& forall|i: int| 0 <= i < regions.len() ==> (#[trigger] regions[i]).data.wf()
}

/// Under unique region ids, the region found at index `i` is the one
/// `region_indexof` denotes.
pub proof fn lemma_region_index_is(regions: Seq<GameRegion>, id: usize, i: int)
    requires
        forall|a: int, b: int|
            0 <= a < b < regions.len() ==> (#[trigger] regions[a]).data.id != (
            #[trigger] regions[b]).data.id,
        0 <= i < regions.len(),
        regions[i].data.id == id,
    ensures
        has_region(regions, id),
        region_indexof(regions, id) == i,
{
    assert(has_region(regions, id));
    let ci = region_indexof(regions, id);
    if ci < i {
        assert(regions[ci].data.id != regions[i].data.id);
    } else if i < ci {
        assert(regions[i].data.id != regions[ci].data.id);
    }
}

/// The region with the given id, if the table holds one.
pub fn find_region(regions: &Vec<GameRegion>, id: usize) -> (r: Option<&GameRegion>)
    requires
        regions_wf(regions@),
    ensures
        match r {
            Some(region) => has_region(regions@, id) && *region == region_at(regions@, id),
            None => !has_region(regions@, id),
        },
{
    let n = regions.len();
    let mut i: usize = 0;
    while i < n
        invariant
            regions_wf(regions@),
            n == regions@.len(),
            i <= n,
            forall|j: int| 0 <= j < i ==> (#[trigger] regions@[j]).data.id != id,
        decreases n - i,
    {
        if regions[i].data.id == id {
            proof {
                lemma_region_index_is(regions@, id, i as int);
            }
            return Some(&regions[i]);
        }
        i += 1;
    }
    proof {
        assert(!has_region(regions@, id));
    }
    None
}

/// Whether the top tile at `p` blocks movement.
pub open spec fn blocked_at(d: GameRegionData, p: (isize, isize)) -> bool {
    d.stack_at(p).len() > 0 && d.stack_at(p).last().usage is EnvBlocking
}

/// Whether the top tile at `p` blocks movement.
pub fn blocked_at_exec(region: &GameRegion, p: (isize, isize)) -> (r: bool)
    requires
        region.data.wf(),
    ensures
        r == blocked_at(region.data, p),
{
    let stack = region.get_value(p);
    if stack.len() == 0 {
        false
    } else {
        matches!(stack[stack.len() - 1].usage, TileUsage::EnvBlocking)
    }
}

} // verus!
