//! Terrain parameters, column queries and the level-of-detail rule.
use vstd::prelude::*;

use crate::lod_tree::Voxel;
use crate::updates::Coord;
use crate::world::Chunk;

verus! {

/// The noise function a terrain is generated from.
#[derive(Debug, Clone, Copy, PartialEq, Eq)]
pub enum NoiseType {
    Perlin,
    OpenSimplex,
    SuperSimplex,
}

/// Whether heights come from a 2D height field or a 3D density field.
#[derive(Debug, Clone, Copy, PartialEq, Eq)]
pub enum NoiseDimensions {
    Two,
    Three,
}

/// How the height field is sampled: every column, or every `n`-th column with
/// bilinear filling in between.
#[derive(Debug, Clone, Copy, PartialEq, Eq)]
pub enum Filter {
    NearestNeighbour,
    Bilinear(i32),
}

impl Filter {
    pub open spec fn step(&self) -> int {
        match self {
            Filter::NearestNeighbour => 1,
            Filter::Bilinear(w) => *w as int,
        }
    }

    /// Extra samples needed past the chunk edge: one for bilinear filtering.
    pub fn aux_width(&self) -> (r: i32)
        ensures
            r == (if self is Bilinear {
                1int
            } else {
                0int
            }),
    {
        match self {
            Filter::NearestNeighbour => 0,
            Filter::Bilinear(_) => 1,
        }
    }

    /// Distance between two height samples.
    pub fn as_i32(&self) -> (r: i32)
        ensures
            r == self.step(),
    {
        match self {
            Filter::NearestNeighbour => 1,
            Filter::Bilinear(width) => *width,
        }
    }

    /// Distance between two height samples, for a non-negative step.
    pub fn as_usize(&self) -> (r: usize)
        requires
            self.step() >= 0,
        ensures
            r == self.step(),
    {
        self.as_i32() as usize
    }
}

/// Bilinear filling every second column.
impl Default for Filter {
    fn default() -> (r: Filter)
        ensures
            r == Filter::Bilinear(2),
    {
        Filter::Bilinear(2)
    }
}

pub open spec fn abs_diff(a: i32, b: i32) -> int {
    if a >= b {
        a - b
    } else {
        b - a
    }
}

/// The level of detail of a chunk at `chunk` seen from `viewer`: the
/// Chebyshev distance in steps of 128 units.
pub open spec fn lod_spec(viewer: Coord, chunk: Coord) -> int {
    let dx = abs_diff(viewer.0, chunk.0) / 128;
    let dy = abs_diff(viewer.1, chunk.1) / 128;
    let dz = abs_diff(viewer.2, chunk.2) / 128;
    if dx >= dy && dx >= dz {
        dx
    } else if dy >= dz {
        dy
    } else {
        dz
    }
}

fn axis_steps(a: i32, b: i32) -> (r: usize)
    ensures
        r == abs_diff(a, b) / 128,
{
    let d: i64 = if a >= b {
        a as i64 - b as i64
    } else {
        b as i64 - a as i64
    };
    (d / 128) as usize
}

/// See `lod_spec`.
pub fn lod_for(viewer: Coord, chunk: Coord) -> (r: usize)
    ensures
        r == lod_spec(viewer, chunk),
{
    let dx = axis_steps(viewer.0, chunk.0);
    let dy = axis_steps(viewer.1, chunk.1);
    let dz = axis_steps(viewer.2, chunk.2);
    if dx >= dy && dx >= dz {
        dx
    } else if dy >= dz {
        dy
    } else {
        dz
    }
}

/// Queries on one column of a chunk.
#[derive(Debug, Clone, Copy, PartialEq, Eq)]
pub enum ColumnQuery {
    /// The cell just above the highest voxel of the column, when the top cell
    /// of the column is free.
    YTop,
}

impl ColumnQuery {
    /// For `YTop`: `None` when the column's top cell is occupied, else the cell
    /// above its highest voxel below the top, or `None` for an empty column.
    pub fn execute<T: Voxel>(&self, x: i32, z: i32, chunk: &Chunk<T>) -> (r: Option<Coord>)
        requires
            chunk.wf(),
        ensures
            ({
                let h = chunk.voxels().width_spec() as int;
                &&& chunk.voxels().get_spec((x, (h - 1) as i32, z)) is Some ==> r is None
                &&& r matches Some(c) ==> {
                    &&& c.0 == x && c.2 == z
                    &&& 1 <= c.1 < h
                    &&& chunk.voxels().get_spec((x, (c.1 - 1) as i32, z)) is Some
                    &&& forall|y: int| c.1 <= y < h ==> #[trigger] chunk.voxels().get_spec((x, y as i32, z)) is None
                }
                &&& r is None && chunk.voxels().get_spec((x, (h - 1) as i32, z)) is None
                    ==> forall|y: int| 0 <= y < h ==> #[trigger] chunk.voxels().get_spec((x, y as i32, z)) is None
            }),
    {
        let h = chunk.width() as i32;
        proof {
            chunk.lemma_wf();
            crate::lod_tree::lemma_width_bound(chunk.voxels());
        }
        if chunk.contains_key((x, h - 1, z)) {
            return None;
        }
        let mut y: i32 = h - 1;
        while y > 0
            invariant
                0 <= y <= h - 1,
                h == chunk.voxels().width_spec(),
                chunk.wf(),
                forall|y2: int| y <= y2 < h ==> #[trigger] chunk.voxels().get_spec((x, y2 as i32, z)) is None,
            decreases y,
        {
            if chunk.contains_key((x, y - 1, z)) {
                return Some((x, y, z));
            }
            y = y - 1;
        }
        None
    }
}

} // verus!
