//! The records the pipeline exchanges: transit stop areas and persisted
//! walk-only path candidates.

use vstd::prelude::*;

verus! {

/// A transit boarding location, with planar coordinates in meters.
#[derive(Clone, Debug, Default, PartialEq)]
pub struct StopArea {
    pub id: i32,
    pub name: String,
    pub x: i32,
    pub y: i32,
}

/// A walk-only candidate between two stop areas via the trail network.
/// `dist` is the total walking distance; `srcdist` and `destdist` are the
/// connector legs from each stop area to the trail; `etapp` concatenates
/// the stage labels traversed.
#[derive(Clone, Debug, Default, PartialEq)]
pub struct Path {
    pub dist: i32,
    pub srcdist: i32,
    pub destdist: i32,
    pub src: i32,
    pub dest: i32,
    pub etapp: String,
}

/// `p` with its ends swapped.
pub open spec fn rev_of(p: Path) -> Path {
    Path {
        dist: p.dist,
        srcdist: p.destdist,
        destdist: p.srcdist,
        src: p.dest,
        dest: p.src,
        etapp: p.etapp,
    }
}

impl Path {
    /// The record invariant: connector legs are part of the total, so the
    /// total is at least their sum.
    pub open spec fn wf(self) -> bool {
        0 <= self.srcdist && 0 <= self.destdist && self.srcdist + self.destdist <= self.dist
    }

    /// The same candidate walked the other way round.
    pub fn reversed(&self) -> (r: Path)
        ensures
            r == rev_of(*self),
            self.wf() ==> r.wf(),
    {
        Path {
            dist: self.dist,
            srcdist: self.destdist,
            destdist: self.srcdist,
            src: self.dest,
            dest: self.src,
            etapp: self.etapp.clone(),
        }
    }
}

} // verus!
