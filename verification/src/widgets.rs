//! The editor-facing widget state the core keeps verified: the region
//! editing widget's geometry and grid arithmetic, and the node-graph view
//! mode.

use vstd::prelude::*;

verus! {

/// How a node graph is shown: the whole-project overview or one graph's
/// detail.
#[derive(Clone, Copy, PartialEq, Eq, Structural, Debug)]
pub enum GraphMode {
    Overview,
    Detail,
}

/// The region editing widget: a screen rectangle showing a region on a
/// square grid, scrolled by an offset, remembering the last clicked cell.
pub struct RegionWidget {
    pub rect: (usize, usize, usize, usize),
    pub region_id: usize,
    pub grid_size: usize,
    pub offset: (isize, isize),
    pub screen_offset: (usize, usize),
    pub clicked: Option<(isize, isize)>,
}

impl RegionWidget {
    /// A fresh widget over the given screen rectangle.
    pub fn new(rect: (usize, usize, usize, usize)) -> (r: RegionWidget)
        ensures
            r.rect == rect,
            r.region_id == 0,
            r.grid_size == 32,
            r.offset == (0isize, 0isize),
            r.screen_offset == (0usize, 0usize),
            r.clicked is None,
    {
        RegionWidget {
            rect,
            region_id: 0,
            grid_size: 32,
            offset: (0, 0),
            screen_offset: (0, 0),
            clicked: None,
        }
    }

    /// Adopts a new widget size, keeping the position.
    pub fn resize(&mut self, width: usize, height: usize)
        ensures
            final(self).rect == (old(self).rect.0, old(self).rect.1, width, height),
            final(self).region_id == old(self).region_id,
            final(self).grid_size == old(self).grid_size,
            final(self).offset == old(self).offset,
            final(self).screen_offset == old(self).screen_offset,
            final(self).clicked == old(self).clicked,
    {
        self.rect = (self.rect.0, self.rect.1, width, height);
    }

    /// Points the widget at another region.
    pub fn set_region_id(&mut self, id: usize)
        ensures
            final(self).region_id == id,
            final(self).rect == old(self).rect,
            final(self).grid_size == old(self).grid_size,
            final(self).offset == old(self).offset,
            final(self).screen_offset == old(self).screen_offset,
            final(self).clicked == old(self).clicked,
    {
        self.region_id = id;
    }

    /// The region cell under a screen position: the position relative to
    /// the widget and its centering offset, divided into grid cells, then
    /// shifted by the scroll offset.
    pub fn screen_to_region(&self, pos: (usize, usize)) -> (r: (isize, isize))
        requires
            0 < self.grid_size,
            pos.0 >= self.rect.0 + self.screen_offset.0,
            pos.1 >= self.rect.1 + self.screen_offset.1,
            (pos.0 - self.rect.0 - self.screen_offset.0) as int / self.grid_size as int <= isize::MAX,
            (pos.1 - self.rect.1 - self.screen_offset.1) as int / self.grid_size as int <= isize::MAX,
        ensures
            ({
                let f0 = (pos.0 - self.rect.0 - self.screen_offset.0) as int
                    / self.grid_size as int - self.offset.0;
                r.0 == if isize::MIN <= f0 <= isize::MAX {
                    f0
                } else {
                    0
                }
            }),
            ({
                let f1 = (pos.1 - self.rect.1 - self.screen_offset.1) as int
                    / self.grid_size as int - self.offset.1;
                r.1 == if isize::MIN <= f1 <= isize::MAX {
                    f1
                } else {
                    0
                }
            }),
    {
        let cx = (pos.0 - self.rect.0 - self.screen_offset.0) / self.grid_size;
        let cy = (pos.1 - self.rect.1 - self.screen_offset.1) / self.grid_size;
        let x = (cx as isize).checked_sub(self.offset.0);
        let y = (cy as isize).checked_sub(self.offset.1);
        (
            match x {
                Some(v) => v,
                None => 0,
            },
            match y {
                Some(v) => v,
                None => 0,
            },
        )
    }
}

} // verus!
