//! The tile image catalog: immutable-after-load maps of tile images with
//! per-cell metadata (usage tag and animation frames), looked up by map id
//! and grid cell.

use vstd::prelude::*;

use crate::region::TileUsage;

verus! {

/// Per-cell metadata of one grid cell of a tile map.
pub struct Tile {
    pub usage: TileUsage,
    /// The cells this tile cycles through when animated; empty for a
    /// still tile.
    pub anim_tiles: Vec<(usize, usize)>,
}

/// One tile image atlas: an RGBA pixel buffer of `width x height`, carved
/// into square cells of `grid_size` pixels, plus per-cell metadata.
pub struct TileMap {
    pub id: usize,
    pub pixels: Vec<u8>,
    pub width: usize,
    pub height: usize,
    pub grid_size: usize,
    pub tiles: Vec<((usize, usize), Tile)>,
}

/// Whether grid cell `c` lies wholly inside the map's pixel buffer.
pub open spec fn cell_in_grid(map: TileMap, c: (usize, usize)) -> bool {
    &&& c.0 * map.grid_size + map.grid_size <= map.width
    &&& c.1 * map.grid_size + map.grid_size <= map.height
}

impl TileMap {
    /// Whether the metadata table holds cell `p`.
    pub open spec fn has_tile(self, p: (usize, usize)) -> bool {
        exists|i: int| 0 <= i < self.tiles@.len() && (#[trigger] self.tiles@[i]).0 == p
    }

    /// The index of the entry for cell `p` (meaningful only under
    /// `has_tile`; unique under `wf`).
    pub open spec fn tile_index(self, p: (usize, usize)) -> int {
        choose|i: int| 0 <= i < self.tiles@.len() && (#[trigger] self.tiles@[i]).0 == p
    }

    /// The metadata of cell `p`.
    pub open spec fn tile_at(self, p: (usize, usize)) -> Tile {
        self.tiles@[self.tile_index(p)].1
    }

    /// Well-formedness: a positive cell size, a pixel buffer of exactly
    /// `width x height` RGBA pixels, unique metadata cells, and every
    /// animation frame inside the grid.
    pub open spec fn wf(self) -> bool {
        &&& 0 < self.grid_size
        &&& self.pixels@.len() == self.height * self.width * 4
        &&& forall|i: int, j: int|
            0 <= i < j < self.tiles@.len() ==> (#[trigger] self.tiles@[i]).0 != (
            #[trigger] self.tiles@[j]).0
        &&& forall|i: int, k: int|
            0 <= i < self.tiles@.len() && 0 <= k < (#[trigger] self.tiles@[i]).1.anim_tiles@.len()
                ==> cell_in_grid(self, #[trigger] self.tiles@[i].1.anim_tiles@[k])
    }

    /// The metadata of cell `p`: the stored entry, or a still environment
    /// tile for a cell without one.
    pub fn get_tile(&self, p: &(usize, usize)) -> (r: Tile)
        requires
            self.wf(),
        ensures
            self.has_tile(*p) ==> r.usage == self.tile_at(*p).usage && r.anim_tiles@
                == self.tile_at(*p).anim_tiles@,
            !self.has_tile(*p) ==> r.usage == TileUsage::Environment && r.anim_tiles@.len() == 0,
    {
        let n = self.tiles.len();
        let mut i: usize = 0;
        while i < n
            invariant
                self.wf(),
                n == self.tiles@.len(),
                i <= n,
                forall|j: int| 0 <= j < i ==> (#[trigger] self.tiles@[j]).0 != *p,
            decreases n - i,
        {
            let entry = &self.tiles[i];
            if entry.0.0 == p.0 && entry.0.1 == p.1 {
                proof {
                    let ci = self.tile_index(*p);
                    assert(self.has_tile(*p));
                    if ci < i {
                        assert(self.tiles@[ci].0 != self.tiles@[i as int].0);
                    } else if i < ci {
                        assert(self.tiles@[i as int].0 != self.tiles@[ci].0);
                    }
                }
                let mut anim: Vec<(usize, usize)> = Vec::new();
                let m = entry.1.anim_tiles.len();
                let mut k: usize = 0;
                while k < m
                    invariant
                        m == entry.1.anim_tiles@.len(),
                        k <= m,
                        anim@ == entry.1.anim_tiles@.take(k as int),
                    decreases m - k,
                {
                    anim.push(entry.1.anim_tiles[k]);
                    proof {
                        assert(entry.1.anim_tiles@.take(k + 1 as int) =~= entry.1.anim_tiles@.take(
                            k as int,
                        ).push(entry.1.anim_tiles@[k as int]));
                    }
                    k += 1;
                }
                proof {
                    assert(entry.1.anim_tiles@.take(m as int) =~= entry.1.anim_tiles@);
                }
                return Tile { usage: entry.1.usage, anim_tiles: anim };
            }
            i += 1;
        }
        proof {
            assert(!self.has_tile(*p));
        }
        Tile { usage: TileUsage::Environment, anim_tiles: Vec::new() }
    }
}

/// The grid cell an animated tile shows at the given animation counter:
/// the counter cycles through the cell's animation frames, a still cell
/// shows itself.
pub open spec fn anim_cell(map: TileMap, grid_pos: (usize, usize), anim_counter: usize) -> (
    usize,
    usize,
) {
    if map.has_tile(grid_pos) && map.tile_at(grid_pos).anim_tiles@.len() > 0 {
        map.tile_at(grid_pos).anim_tiles@[anim_counter as int % map.tile_at(
            grid_pos,
        ).anim_tiles@.len() as int]
    } else {
        grid_pos
    }
}

} // verus!
