//! Chunks and the world index that finds them by position.
use vstd::prelude::*;
use vstd::multiset::Multiset;

use crate::lod_tree::{LodTree, Voxel, Element, lemma_pow2_is_pow2, expand, runs_canonical};
use crate::rle_tree::RleTree;
use crate::morton::{pow2, lemma_pow_facts};
use crate::updates::Coord;

verus! {

/// A cubic piece of the world: voxel content, a light map of the same size,
/// and whether that light map has been computed.
#[derive(Debug)]
pub struct Chunk<T> {
    position: Coord,
    data: LodTree<T>,
    light: LodTree<u8>,
    has_light: bool,
}

impl<T: Voxel> Chunk<T> {
    pub closed spec fn wf(&self) -> bool {
        &&& self.data.wf()
        &&& self.light.wf()
        &&& self.light.depth_spec() == self.data.depth_spec()
        &&& self.light.lod_spec() == 0
    }

    pub proof fn lemma_wf(&self)
        requires
            self.wf(),
        ensures
            self.voxels().wf(),
            self.light_map().wf(),
            self.light_map().depth_spec() == self.voxels().depth_spec(),
            self.light_map().lod_spec() == 0,
    {
    }

    pub closed spec fn position_spec(&self) -> Coord {
        self.position
    }

    pub closed spec fn has_light_spec(&self) -> bool {
        self.has_light
    }

    /// The voxel grid.
    pub closed spec fn voxels(&self) -> LodTree<T> {
        self.data
    }

    /// The light-map grid.
    pub closed spec fn light_map(&self) -> LodTree<u8> {
        self.light
    }

    /// An empty chunk of side `2^size` at `position`, without light.
    pub fn new(size: u32, position: Coord) -> (r: Self)
        requires
            size <= 10,
        ensures
            r.wf(),
            r.position_spec() == position,
            !r.has_light_spec(),
            r.voxels().width_spec() == pow2(size as nat),
            r.voxels().lod_spec() == 0,
            forall|c: Coord| r.voxels().get_spec(c) is None,
            forall|c: Coord| r.light_map().get_spec(c) is None,
    {
        let mut w: usize = 1;
        let mut i: u32 = 0;
        while i < size
            invariant
                i <= size <= 10,
                w == pow2(i as nat),
            decreases size - i,
        {
            proof {
                lemma_pow_facts((i + 1) as nat);
            }
            w = w * 2;
            i = i + 1;
        }
        proof {
            lemma_pow2_is_pow2(size as nat);
            lemma_pow_facts(size as nat);
        }
        let data = LodTree::new(w);
        let light = LodTree::new(w);
        proof {
            assert(data.depth_spec() == light.depth_spec()) by {
                crate::lod_tree::lemma_width_depth(data, light);
            }
        }
        Chunk { position, data, light, has_light: false }
    }

    pub fn has_light(&self) -> (r: bool)
        ensures
            r == self.has_light_spec(),
    {
        self.has_light
    }

    pub fn set_light(&mut self, light: bool)
        requires
            old(self).wf(),
        ensures
            final(self).wf(),
            final(self).has_light_spec() == light,
            final(self).position_spec() == old(self).position_spec(),
            final(self).voxels() == old(self).voxels(),
            final(self).light_map() == old(self).light_map(),
    {
        self.has_light = light;
    }

    /// Sets the level of detail at which the voxels are read.
    pub fn set_lod(&mut self, lod: usize)
        requires
            old(self).wf(),
        ensures
            final(self).wf(),
            final(self).voxels().lod_spec() == lod,
            final(self).voxels()@ == old(self).voxels()@,
            final(self).voxels().depth_spec() == old(self).voxels().depth_spec(),
            final(self).position_spec() == old(self).position_spec(),
            final(self).has_light_spec() == old(self).has_light_spec(),
            final(self).light_map() == old(self).light_map(),
    {
        self.data.set_lod(lod);
    }

    pub fn lod(&self) -> (r: usize)
        ensures
            r == self.voxels().lod_spec(),
    {
        self.data.lod()
    }

    /// Compacts the voxel grid (see `LodTree::merge`).
    pub fn merge(&mut self)
        requires
            old(self).wf(),
        ensures
            final(self).wf(),
            final(self).voxels()@ == old(self).voxels()@,
            final(self).voxels().depth_spec() == old(self).voxels().depth_spec(),
            final(self).voxels().lod_spec() == old(self).voxels().lod_spec(),
            final(self).position_spec() == old(self).position_spec(),
            final(self).has_light_spec() == old(self).has_light_spec(),
            final(self).light_map() == old(self).light_map(),
    {
        self.data.merge();
    }

    pub fn position(&self) -> (r: Coord)
        ensures
            r == self.position_spec(),
    {
        self.position
    }

    pub fn width(&self) -> (r: usize)
        requires
            self.wf(),
        ensures
            r == self.voxels().width_spec(),
            r <= 1024,
    {
        self.data.width()
    }

    /// The voxel regions at the chunk's level of detail.
    pub fn iter(&self) -> (r: Vec<Element<T>>)
        requires
            self.wf(),
        ensures
            r@ == self.voxels().elements_spec(self.voxels().window_count()),
    {
        self.data.elements()
    }

    /// The light-map regions.
    pub fn lights(&self) -> (r: Vec<Element<u8>>)
        requires
            self.wf(),
        ensures
            r@ == self.light_map().elements_spec(self.light_map().window_count()),
    {
        self.light.elements()
    }

    /// Stores a voxel (see `LodTree::insert`).
    pub fn insert(&mut self, coords: Coord, voxel: T)
        requires
            old(self).wf(),
        ensures
            final(self).wf(),
            final(self).voxels().depth_spec() == old(self).voxels().depth_spec(),
            final(self).voxels().lod_spec() == old(self).voxels().lod_spec(),
            old(self).voxels().in_bounds(coords) ==> final(self).voxels()@ == old(
                self,
            ).voxels()@.update(old(self).voxels().index_of(coords), Some(voxel)),
            !old(self).voxels().in_bounds(coords) ==> final(self).voxels()@ == old(self).voxels()@,
            final(self).position_spec() == old(self).position_spec(),
            final(self).has_light_spec() == old(self).has_light_spec(),
            final(self).light_map() == old(self).light_map(),
    {
        self.data.insert(coords, voxel);
    }

    /// Stores a light level (see `LodTree::insert`).
    pub fn insert_light(&mut self, coords: Coord, light: u8)
        requires
            old(self).wf(),
        ensures
            final(self).wf(),
            final(self).light_map().depth_spec() == old(self).light_map().depth_spec(),
            old(self).light_map().in_bounds(coords) ==> final(self).light_map()@ == old(
                self,
            ).light_map()@.update(old(self).light_map().index_of(coords), Some(light)),
            !old(self).light_map().in_bounds(coords) ==> final(self).light_map()@ == old(
                self,
            ).light_map()@,
            final(self).position_spec() == old(self).position_spec(),
            final(self).has_light_spec() == old(self).has_light_spec(),
            final(self).voxels() == old(self).voxels(),
    {
        self.light.insert(coords, light);
    }

    /// The voxel at `coords` as read at the chunk's level of detail.
    pub fn get(&self, coords: Coord) -> (r: Option<T>)
        requires
            self.wf(),
        ensures
            r == self.voxels().read(coords),
    {
        self.data.get(coords)
    }

    /// The light level at `coords`.
    pub fn light(&self, coords: Coord) -> (r: Option<u8>)
        requires
            self.wf(),
        ensures
            r == self.light_map().get_spec(coords),
    {
        self.light.get(coords)
    }

    /// Whether a voxel is stored at `coords`.
    pub fn contains_key(&self, coords: Coord) -> (r: bool)
        requires
            self.wf(),
        ensures
            r == self.voxels().get_spec(coords) is Some,
    {
        self.data.contains_key(coords)
    }
}

/// What is saved of a chunk: its position and the runs of its voxels.
#[derive(Debug)]
pub struct SaveData<T> {
    pub position: Coord,
    pub data: RleTree<T>,
}

impl<T: Voxel> Chunk<T> {
    /// The chunk's saved form.
    pub fn serializable(&self) -> (r: SaveData<T>)
        requires
            self.wf(),
        ensures
            r.position == self.position_spec(),
            expand(r.data.runs_spec()) == self.voxels()@,
            runs_canonical(r.data.runs_spec()),
    {
        SaveData { position: self.position, data: RleTree::with_tree(&self.data) }
    }

    /// The chunk a save describes, without light; `None` when the runs do not
    /// cover a cube of side `2^d`, `d` up to 10.
    pub fn load(save: SaveData<T>) -> (r: Option<Self>)
        ensures
            r is Some <==> exists|d: nat| d <= 10 && expand(save.data.runs_spec()).len() == crate::morton::pow8(d),
            r matches Some(c) ==> {
                &&& c.wf()
                &&& c.position_spec() == save.position
                &&& c.voxels()@ == expand(save.data.runs_spec())
                &&& !c.has_light_spec()
                &&& forall|q: Coord| c.light_map().get_spec(q) is None
            },
    {
        match save.data.to_tree() {
            Some(data) => {
                let w = data.width();
                proof {
                    crate::lod_tree::lemma_width_bound(data);
                    lemma_pow2_is_pow2(data.depth_spec());
                }
                let light = LodTree::new(w);
                proof {
                    crate::lod_tree::lemma_width_depth(data, light);
                }
                Some(Chunk { position: save.position, data, light, has_light: false })
            },
            None => None,
        }
    }
}

/// Positions the index holds: each coordinate within 2^18 of the origin, so
/// that the R-tree's area and distance arithmetic on `i64` points stays in range.
pub open spec fn index_point_ok(p: Coord) -> bool {
    &&& -0x4_0000 <= p.0 <= 0x4_0000
    &&& -0x4_0000 <= p.1 <= 0x4_0000
    &&& -0x4_0000 <= p.2 <= 0x4_0000
}

/// The spatial index of a world: chunk positions, each with the slot of its
/// chunk, held in an R-tree of `i64` points.
#[verifier::external_body]
pub struct ChunkIndex {
    tree: rstar::RTree<rstar::primitives::GeomWithData<[i64; 3], usize>>,
}

/// The (position, slot) pairs that an index holds.
pub uninterp spec fn index_entries(t: ChunkIndex) -> Multiset<(Coord, usize)>;

/// Relies on `rstar::RTree::new`: a new tree holds no element.
#[verifier::external_body]
fn index_new() -> (r: ChunkIndex)
    ensures
        index_entries(r) == Multiset::<(Coord, usize)>::empty(),
{
    ChunkIndex { tree: rstar::RTree::new() }
}

/// Relies on `rstar::RTree::locate_at_point`: some element whose point equals
/// `p` (a point contains exactly itself), or `None` when there is none.
#[verifier::external_body]
fn index_locate(t: &ChunkIndex, p: Coord) -> (r: Option<usize>)
    ensures
        r matches Some(i) ==> index_entries(*t).contains((p, i)),
        r is None ==> forall|i: usize| !index_entries(*t).contains((p, i)),
{
    t.tree.locate_at_point([p.0 as i64, p.1 as i64, p.2 as i64]).map(|e| e.data)
}

/// Relies on `rstar::RTree::insert`: the element is added. Insertion computes
/// areas and distances of the stored points, so every point is kept small.
#[verifier::external_body]
fn index_insert(t: &mut ChunkIndex, p: Coord, i: usize)
    requires
        index_point_ok(p),
        forall|q: Coord, j: usize| index_entries(*old(t)).contains((q, j)) ==> index_point_ok(q),
    ensures
        index_entries(*final(t)) == index_entries(*old(t)).insert((p, i)),
{
    t.tree.insert(rstar::primitives::GeomWithData::new([p.0 as i64, p.1 as i64, p.2 as i64], i))
}

/// Relies on `rstar::RTree::remove_at_point`: one element whose point equals
/// `p` is taken out and returned; with none, the tree stays as it is.
#[verifier::external_body]
fn index_remove(t: &mut ChunkIndex, p: Coord) -> (r: Option<usize>)
    ensures
        r matches Some(i) ==> index_entries(*old(t)).contains((p, i)) && index_entries(*final(t))
            == index_entries(*old(t)).remove((p, i)),
        r is None ==> (forall|i: usize| !index_entries(*old(t)).contains((p, i))) && index_entries(
            *final(t),
        ) == index_entries(*old(t)),
{
    t.tree.remove_at_point([p.0 as i64, p.1 as i64, p.2 as i64]).map(|e| e.data)
}

/// The chunks of a world, found by their position.
pub struct ChunkMap<T> {
    index: ChunkIndex,
    chunks: Vec<Chunk<T>>,
}

impl<T: Voxel> ChunkMap<T> {
    /// The index holds exactly one entry per chunk, `(position, slot)`, and
    /// positions are unique.
    pub closed spec fn wf(&self) -> bool {
        &&& forall|p: Coord, i: usize|
            #[trigger] index_entries(self.index).count((p, i)) == if i < self.chunks@.len()
                && self.chunks@[i as int].position_spec() == p {
                1nat
            } else {
                0nat
            }
        &&& forall|i: int, j: int|
            0 <= i < self.chunks@.len() && 0 <= j < self.chunks@.len() && i != j
                ==> #[trigger] self.chunks@[i].position_spec() != #[trigger] self.chunks@[j].position_spec()
        &&& forall|i: int| 0 <= i < self.chunks@.len() ==> #[trigger] self.chunks@[i].wf()
        &&& forall|i: int| 0 <= i < self.chunks@.len() ==> index_point_ok(#[trigger] self.chunks@[i].position_spec())
    }

    /// Whether a chunk stands at `p`.
    pub closed spec fn has(&self, p: Coord) -> bool {
        exists|i: int| 0 <= i < self.chunks@.len() && #[trigger] self.chunks@[i].position_spec() == p
    }

    /// The chunk at `p`, when `has(p)`.
    pub closed spec fn chunk_at(&self, p: Coord) -> Chunk<T> {
        self.chunks@[choose|i: int| 0 <= i < self.chunks@.len() && #[trigger] self.chunks@[i].position_spec() == p]
    }

    /// The chunks, in storage order.
    pub closed spec fn chunks_spec(&self) -> Seq<Chunk<T>> {
        self.chunks@
    }

    proof fn lemma_slot(&self, i: int)
        requires
            self.wf(),
            0 <= i < self.chunks@.len(),
        ensures
            self.has(self.chunks@[i].position_spec()),
            self.chunk_at(self.chunks@[i].position_spec()) == self.chunks@[i],
    {
        let p = self.chunks@[i].position_spec();
        assert(self.chunks@[i].position_spec() == p);
        let j = choose|j: int| 0 <= j < self.chunks@.len() && #[trigger] self.chunks@[j].position_spec() == p;
        assert(self.chunks@[j].position_spec() == p);
    }

    pub fn new() -> (r: Self)
        ensures
            r.wf(),
            r.chunks_spec().len() == 0,
            forall|p: Coord| !r.has(p),
    {
        let r = ChunkMap { index: index_new(), chunks: Vec::new() };
        r
    }

    /// A world holding one chunk for each position among `initial`; where two
    /// share a position, the later one replaces the earlier.
    pub fn with_chunks(initial: Vec<Chunk<T>>) -> (r: Self)
        requires
            forall|i: int| 0 <= i < initial@.len() ==> #[trigger] initial@[i].wf(),
            forall|i: int| 0 <= i < initial@.len() ==> index_point_ok(#[trigger] initial@[i].position_spec()),
        ensures
            r.wf(),
            forall|i: int| 0 <= i < initial@.len() ==> r.has(#[trigger] initial@[i].position_spec()),
            forall|p: Coord|
                r.has(p) ==> exists|i: int| 0 <= i < initial@.len() && #[trigger] initial@[i].position_spec() == p,
            forall|i: int|
                0 <= i < initial@.len() && (forall|j: int|
                    i < j < initial@.len() ==> #[trigger] initial@[j].position_spec()
                        != initial@[i].position_spec()) ==> r.chunk_at(#[trigger] initial@[i].position_spec())
                    == initial@[i],
    {
        let mut map = ChunkMap::new();
        let ghost all = initial@;
        let n = initial.len();
        let mut rest = initial;
        let mut k: usize = 0;
        while k < n
            invariant
                map.wf(),
                n == all.len(),
                k <= n,
                rest@ == all.subrange(k as int, n as int),
                map.chunks_spec().len() <= k,
                forall|i: int| 0 <= i < all.len() ==> #[trigger] all[i].wf(),
                forall|i: int| 0 <= i < all.len() ==> index_point_ok(#[trigger] all[i].position_spec()),
                forall|i: int| 0 <= i < k ==> map.has(#[trigger] all[i].position_spec()),
                forall|p: Coord| map.has(p) ==> exists|i: int| 0 <= i < k && #[trigger] all[i].position_spec() == p,
                forall|i: int|
                    0 <= i < k && (forall|j: int|
                        i < j < k ==> #[trigger] all[j].position_spec() != all[i].position_spec())
                        ==> map.chunk_at(#[trigger] all[i].position_spec()) == all[i],
            decreases n - k,
        {
            let c = rest.remove(0);
            proof {
                assert(c == all[k as int]);
            }
            let ghost before = map;
            map.insert(c);
            proof {
                assert(rest@ =~= all.subrange(k + 1, n as int));
                assert forall|i: int| 0 <= i < k + 1 implies map.has(#[trigger] all[i].position_spec()) by {
                    if i < k && all[i].position_spec() != c.position_spec() {
                        assert(before.has(all[i].position_spec()));
                    }
                }
                assert forall|p: Coord| map.has(p) implies exists|i: int|
                    0 <= i < k + 1 && #[trigger] all[i].position_spec() == p by {
                    if p != c.position_spec() {
                        assert(before.has(p));
                        let i = choose|i: int| 0 <= i < k && #[trigger] all[i].position_spec() == p;
                        assert(0 <= i < k + 1 && all[i].position_spec() == p);
                    } else {
                        assert(all[k as int].position_spec() == p);
                    }
                }
                assert forall|i: int|
                    0 <= i < k + 1 && (forall|j: int|
                        i < j < k + 1 ==> #[trigger] all[j].position_spec() != all[i].position_spec())
                        implies map.chunk_at(#[trigger] all[i].position_spec()) == all[i] by {
                    if i < k {
                        assert(all[k as int].position_spec() != all[i].position_spec());
                        assert(before.has(all[i].position_spec()));
                    }
                }
            }
            k = k + 1;
        }
        map
    }

    /// Where the chunk at `p` is stored.
    fn slot(&self, p: Coord) -> (r: Option<usize>)
        requires
            self.wf(),
        ensures
            r matches Some(i) ==> i < self.chunks@.len() && self.chunks@[i as int].position_spec() == p,
            r is None ==> !self.has(p),
    {
        let r = index_locate(&self.index, p);
        let n = self.chunks.len();
        proof {
            if let Some(i) = r {
                assert(index_entries(self.index).count((p, i)) > 0);
            } else {
                if self.has(p) {
                    let i = choose|i: int| 0 <= i < self.chunks@.len() && #[trigger] self.chunks@[i].position_spec() == p;
                    assert(index_entries(self.index).count((p, i as usize)) == 1);
                    assert(index_entries(self.index).contains((p, i as usize)));
                }
            }
        }
        r
    }

    /// The chunk at `p`.
    pub fn get(&self, p: Coord) -> (r: Option<&Chunk<T>>)
        requires
            self.wf(),
        ensures
            r matches Some(c) ==> self.has(p) && *c == self.chunk_at(p) && c.wf(),
            r is None ==> !self.has(p),
    {
        match self.slot(p) {
            Some(i) => {
                proof {
                    self.lemma_slot(i as int);
                }
                Some(&self.chunks[i])
            },
            None => None,
        }
    }

    /// Puts `chunk` at its position, replacing the chunk that stood there.
    pub fn insert(&mut self, chunk: Chunk<T>)
        requires
            old(self).wf(),
            chunk.wf(),
            index_point_ok(chunk.position_spec()),
            old(self).chunks_spec().len() < usize::MAX,
        ensures
            final(self).wf(),
            final(self).chunks_spec().len() <= old(self).chunks_spec().len() + 1,
            final(self).has(chunk.position_spec()),
            final(self).chunk_at(chunk.position_spec()) == chunk,
            forall|p: Coord| p != chunk.position_spec() ==> (final(self).has(p) == old(self).has(p)),
            forall|p: Coord|
                p != chunk.position_spec() && old(self).has(p) ==> final(self).chunk_at(p) == old(
                    self,
                ).chunk_at(p),
    {
        let p = chunk.position;
        let ghost old_self = *self;
        match self.slot(p) {
            Some(i) => {
                self.chunks.set(i, chunk);
                proof {
                    assert forall|q: Coord, k: usize| #[trigger] index_entries(self.index).count((q, k))
                        == if k < self.chunks@.len() && self.chunks@[k as int].position_spec() == q {
                        1nat
                    } else {
                        0nat
                    } by {
                        assert(index_entries(old_self.index).count((q, k)) == if k < old_self.chunks@.len()
                            && old_self.chunks@[k as int].position_spec() == q {
                            1nat
                        } else {
                            0nat
                        });
                    }
                    assert forall|a: int| 0 <= a < self.chunks@.len() implies #[trigger] self.chunks@[a].wf() by {
                        if a != i {
                            assert(old_self.chunks@[a].wf());
                        }
                    }
                    self.lemma_unchanged_elsewhere(old_self, i as int);
                }
            },
            None => {
                let n = self.chunks.len();
                proof {
                    assert forall|q: Coord, j: usize| index_entries(self.index).contains((q, j))
                        implies index_point_ok(q) by {
                        assert(index_entries(self.index).count((q, j)) > 0);
                        assert(self.chunks@[j as int].position_spec() == q);
                    }
                }
                index_insert(&mut self.index, p, n);
                self.chunks.push(chunk);
                proof {
                    assert forall|q: Coord, k: usize| #[trigger] index_entries(self.index).count((q, k))
                        == if k < self.chunks@.len() && self.chunks@[k as int].position_spec() == q {
                        1nat
                    } else {
                        0nat
                    } by {
                        assert(index_entries(old_self.index).count((q, k)) == if k < old_self.chunks@.len()
                            && old_self.chunks@[k as int].position_spec() == q {
                            1nat
                        } else {
                            0nat
                        });
                    }
                    assert forall|a: int, b: int|
                        0 <= a < self.chunks@.len() && 0 <= b < self.chunks@.len() && a != b
                            implies #[trigger] self.chunks@[a].position_spec()
                        != #[trigger] self.chunks@[b].position_spec() by {
                        if a == n as int {
                            assert(old_self.chunks@[b].position_spec() == self.chunks@[b].position_spec());
                        } else if b == n as int {
                            assert(old_self.chunks@[a].position_spec() == self.chunks@[a].position_spec());
                        }
                    }
                    assert forall|a: int| 0 <= a < self.chunks@.len() implies #[trigger] self.chunks@[a].wf() by {
                        if a != n as int {
                            assert(old_self.chunks@[a].wf());
                        }
                    }
                    self.lemma_unchanged_elsewhere(old_self, n as int);
                }
            },
        }
    }

    proof fn lemma_unchanged_elsewhere(&self, old_self: Self, i: int)
        requires
            self.wf(),
            old_self.wf(),
            0 <= i < self.chunks@.len(),
            self.chunks@.len() == old_self.chunks@.len() || (self.chunks@.len() == old_self.chunks@.len() + 1
                && i == old_self.chunks@.len()),
            forall|k: int| 0 <= k < old_self.chunks@.len() && k != i ==> self.chunks@[k] == old_self.chunks@[k],
            i < old_self.chunks@.len() ==> self.chunks@[i].position_spec() == old_self.chunks@[i].position_spec(),
        ensures
            self.has(self.chunks@[i].position_spec()),
            self.chunk_at(self.chunks@[i].position_spec()) == self.chunks@[i],
            forall|p: Coord| p != self.chunks@[i].position_spec() ==> (self.has(p) == old_self.has(p)),
            forall|p: Coord|
                p != self.chunks@[i].position_spec() && old_self.has(p) ==> self.chunk_at(p) == old_self.chunk_at(p),
    {
        self.lemma_slot(i);
        let pi = self.chunks@[i].position_spec();
        assert forall|p: Coord| p != pi implies (self.has(p) == old_self.has(p)) by {
            if self.has(p) {
                let k = choose|k: int| 0 <= k < self.chunks@.len() && #[trigger] self.chunks@[k].position_spec() == p;
                assert(old_self.chunks@[k].position_spec() == p);
            }
            if old_self.has(p) {
                let k = choose|k: int| 0 <= k < old_self.chunks@.len() && #[trigger] old_self.chunks@[k].position_spec() == p;
                if k == i {
                    assert(false);
                }
                assert(self.chunks@[k].position_spec() == p);
            }
        }
        assert forall|p: Coord| p != pi && old_self.has(p) implies self.chunk_at(p) == old_self.chunk_at(p) by {
            let k = choose|k: int| 0 <= k < old_self.chunks@.len() && #[trigger] old_self.chunks@[k].position_spec() == p;
            old_self.lemma_slot(k);
            assert(k != i);
            assert(self.chunks@[k] == old_self.chunks@[k]);
            self.lemma_slot(k);
        }
    }

    /// Takes the chunk at `p` out of the world.
    pub fn remove(&mut self, p: Coord) -> (r: Option<Chunk<T>>)
        requires
            old(self).wf(),
        ensures
            final(self).wf(),
            r matches Some(c) ==> old(self).has(p) && c == old(self).chunk_at(p),
            r is None ==> !old(self).has(p),
            !final(self).has(p),
            forall|q: Coord| q != p ==> (final(self).has(q) == old(self).has(q)),
            forall|q: Coord| q != p && old(self).has(q) ==> final(self).chunk_at(q) == old(self).chunk_at(q),
    {
        let ghost old_self = *self;
        let n = self.chunks.len();
        match index_remove(&mut self.index, p) {
            None => {
                proof {
                    if old_self.has(p) {
                        let i = choose|i: int| 0 <= i < n && #[trigger] old_self.chunks@[i].position_spec() == p;
                        assert(index_entries(old_self.index).count((p, i as usize)) == 1);
                        assert(index_entries(old_self.index).contains((p, i as usize)));
                    }
                    assert(self.chunks@ == old_self.chunks@);
                    assert forall|q: Coord| #[trigger] self.has(q) == old_self.has(q) by {}
                    assert forall|q: Coord| q != p && old_self.has(q) implies #[trigger] self.chunk_at(q)
                        == old_self.chunk_at(q) by {}
                }
                None
            },
            Some(i) => {
                proof {
                    assert(index_entries(old_self.index).count((p, i)) > 0);
                    assert(i < n && old_self.chunks@[i as int].position_spec() == p);
                }
                let last = n - 1;
                if i != last {
                    let lp = self.chunks[last].position;
                    let ghost mid = self.index;
                    let j = index_remove(&mut self.index, lp);
                    proof {
                        assert(index_entries(old_self.index).count((lp, last)) == 1);
                        assert(index_entries(mid).count((lp, last)) == 1);
                        assert(index_entries(mid).contains((lp, last)));
                        if let Some(j) = j {
                            assert(index_entries(mid).count((lp, j)) > 0);
                            assert(index_entries(old_self.index).count((lp, j)) > 0);
                            assert(j == last);
                        }
                    }
                    proof {
                    assert(old_self.chunks@[last as int].position_spec() == lp);
                    assert forall|q: Coord, j: usize| index_entries(self.index).contains((q, j))
                        implies index_point_ok(q) by {
                        assert(index_entries(old_self.index).count((q, j)) > 0);
                        assert(old_self.chunks@[j as int].position_spec() == q);
                    }
                }
                index_insert(&mut self.index, lp, i);
                }
                let c = self.chunks.swap_remove(i);
                proof {
                    self.lemma_after_remove(old_self, p, i as int);
                }
                Some(c)
            },
        }
    }

    proof fn lemma_after_remove(&self, old_self: Self, p: Coord, i: int)
        requires
            old_self.wf(),
            0 <= i < old_self.chunks@.len(),
            old_self.chunks@[i].position_spec() == p,
            self.chunks@ == old_self.chunks@.update(i, old_self.chunks@.last()).drop_last(),
            forall|q: Coord, k: usize|
                #[trigger] index_entries(self.index).count((q, k)) == if k < self.chunks@.len()
                    && self.chunks@[k as int].position_spec() == q {
                    1nat
                } else {
                    0nat
                },
        ensures
            self.wf(),
            old_self.has(p),
            old_self.chunk_at(p) == old_self.chunks@[i],
            !self.has(p),
            forall|q: Coord| q != p ==> (self.has(q) == old_self.has(q)),
            forall|q: Coord| q != p && old_self.has(q) ==> self.chunk_at(q) == old_self.chunk_at(q),
    {
        old_self.lemma_slot(i);
        let n = old_self.chunks@.len();
        assert forall|a: int| 0 <= a < self.chunks@.len() implies #[trigger] self.chunks@[a].wf() by {
            if a == i {
                assert(old_self.chunks@[n - 1].wf());
            } else {
                assert(old_self.chunks@[a].wf());
            }
        }
        assert forall|a: int, b: int|
            0 <= a < self.chunks@.len() && 0 <= b < self.chunks@.len() && a != b
                implies #[trigger] self.chunks@[a].position_spec() != #[trigger] self.chunks@[b].position_spec() by {
            let oa = if a == i { n - 1 } else { a };
            let ob = if b == i { n - 1 } else { b };
            assert(self.chunks@[a] == old_self.chunks@[oa]);
            assert(self.chunks@[b] == old_self.chunks@[ob]);
        }
        assert(!self.has(p)) by {
            if self.has(p) {
                let k = choose|k: int| 0 <= k < self.chunks@.len() && #[trigger] self.chunks@[k].position_spec() == p;
                let ok = if k == i { n - 1 } else { k };
                assert(old_self.chunks@[ok].position_spec() == p);
            }
        }
        assert forall|q: Coord| q != p implies (self.has(q) == old_self.has(q)) by {
            if self.has(q) {
                let k = choose|k: int| 0 <= k < self.chunks@.len() && #[trigger] self.chunks@[k].position_spec() == q;
                let ok = if k == i { n - 1 } else { k };
                assert(old_self.chunks@[ok].position_spec() == q);
            }
            if old_self.has(q) {
                let k = choose|k: int| 0 <= k < n && #[trigger] old_self.chunks@[k].position_spec() == q;
                assert(k != i);
                let nk = if k == n - 1 { i } else { k };
                assert(self.chunks@[nk].position_spec() == q);
            }
        }
        assert forall|q: Coord| q != p && old_self.has(q) implies self.chunk_at(q) == old_self.chunk_at(q) by {
            let k = choose|k: int| 0 <= k < n && #[trigger] old_self.chunks@[k].position_spec() == q;
            old_self.lemma_slot(k);
            let nk = if k == n - 1 { i } else { k };
            assert(self.chunks@[nk] == old_self.chunks@[k]);
            self.lemma_slot(nk);
        }
    }

    /// The chunks, in storage order.
    pub fn iter(&self) -> (r: &[Chunk<T>])
        requires
            self.wf(),
        ensures
            r@ == self.chunks_spec(),
    {
        self.chunks.as_slice()
    }
}

} // verus!
