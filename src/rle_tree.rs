//! Run-length encoding of a grid's cells in Morton order, the form chunks are
//! saved in.
use vstd::prelude::*;

use crate::lod_tree::{LodTree, Voxel, Run, expand, runs_canonical};

verus! {

/// The runs of a grid: each a value (or emptiness) and a length, neighbours differing.
#[derive(Debug, Clone)]
pub struct RleTree<T> {
    array: Vec<Run<T>>,
}

impl<T: Voxel> RleTree<T> {
    pub closed spec fn runs_spec(&self) -> Seq<Run<T>> {
        self.array@
    }

    /// The runs of `tree`'s cells.
    pub fn with_tree(tree: &LodTree<T>) -> (r: Self)
        requires
            tree.wf(),
        ensures
            expand(r.runs_spec()) == tree@,
            runs_canonical(r.runs_spec()),
    {
        RleTree { array: tree.runs() }
    }

    /// Runs given as they were stored.
    pub fn from_runs(array: Vec<Run<T>>) -> (r: Self)
        ensures
            r.runs_spec() == array@,
    {
        RleTree { array }
    }

    pub fn runs(&self) -> (r: &Vec<Run<T>>)
        ensures
            r@ == self.runs_spec(),
    {
        &self.array
    }

    /// The grid these runs stand for, compacted; `None` when they do not
    /// cover a cube of side `2^d` with `d` up to 10.
    pub fn to_tree(&self) -> (r: Option<LodTree<T>>)
        ensures
            r is Some <==> exists|d: nat| d <= 10 && expand(self.runs_spec()).len() == crate::morton::pow8(d),
            r matches Some(t) ==> t.wf() && t@ == expand(self.runs_spec()) && t.lod_spec() == 0,
    {
        LodTree::from_runs(&self.array)
    }
}

/// The runs of a grid always load: `to_tree` on them returns a grid with the
/// same cells.
pub proof fn lemma_saved_grid_loads<T: Voxel>(tree: LodTree<T>, saved: RleTree<T>)
    requires
        tree.wf(),
        expand(saved.runs_spec()) == tree@,
    ensures
        exists|d: nat| d <= 10 && expand(saved.runs_spec()).len() == crate::morton::pow8(d),
{
    crate::lod_tree::lemma_view_len(tree);
    let d = tree.depth_spec();
    assert(d <= 10 && expand(saved.runs_spec()).len() == crate::morton::pow8(d));
}

} // verus!
