//! A simple block voxel and the mesh builder: which faces of which regions of
//! a chunk are drawn, looking into neighbouring chunks across the boundary.
use vstd::prelude::*;

use crate::lod_tree::{Voxel, Element, LodTree};
use crate::morton::{in_cube, pow2};
use crate::updates::{Coord, around_fits};
use crate::world::{Chunk, ChunkMap};

verus! {

/// Light level of each face, 0 (dark) to 255 (fully lit).
#[derive(Debug, Clone, Copy, PartialEq, Eq, Structural)]
pub struct Shade {
    pub top: u8,
    pub bottom: u8,
    pub front: u8,
    pub back: u8,
    pub left: u8,
    pub right: u8,
}

impl Shade {
    /// Every face dark.
    pub fn zero() -> (r: Shade)
        ensures
            r == (Shade { top: 0, bottom: 0, front: 0, back: 0, left: 0, right: 0 }),
    {
        Shade { top: 0, bottom: 0, front: 0, back: 0, left: 0, right: 0 }
    }

    /// Every face fully lit.
    pub fn full() -> (r: Shade)
        ensures
            r == (Shade { top: 255, bottom: 255, front: 255, back: 255, left: 255, right: 255 }),
    {
        Shade { top: 255, bottom: 255, front: 255, back: 255, left: 255, right: 255 }
    }
}

/// A colour with 8-bit channels; alpha 255 is opaque.
#[derive(Debug, Clone, Copy, PartialEq, Eq, Structural)]
pub struct Color {
    pub r: u8,
    pub g: u8,
    pub b: u8,
    pub a: u8,
}

/// How a block is drawn.
#[derive(Debug, Clone, Copy, PartialEq, Eq, Structural)]
pub enum MeshType {
    /// A cube whose hidden faces are culled.
    Cube,
    /// Two crossed quads, always drawn.
    Cross,
}

/// The six faces of a cube: top +y, bottom -y, front +z, back -z, left +x, right -x.
#[derive(Debug, Clone, Copy, PartialEq, Eq, Structural)]
pub enum Face {
    Top,
    Bottom,
    Front,
    Back,
    Left,
    Right,
}

#[derive(Debug, Clone, Copy, PartialEq, Eq, Structural)]
pub struct Block {
    pub shade: Shade,
    pub color: Color,
    pub mesh_type: MeshType,
}

impl Block {
    pub open spec fn solid_spec(&self) -> bool {
        self.mesh_type == MeshType::Cube && self.color.a == 255
    }

    pub open spec fn transparent_spec(&self) -> bool {
        self.color.a < 255
    }

    /// Whether a neighbour hides the face of this block that touches it: both
    /// solid, or both transparent.
    pub open spec fn hidden_by(&self, other: Block) -> bool {
        self.solid_spec() && other.solid_spec() || self.transparent_spec() && other.transparent_spec()
    }

    /// An opaque cube.
    pub fn solid(&self) -> (r: bool)
        ensures
            r == self.solid_spec(),
    {
        match self.mesh_type {
            MeshType::Cube => self.color.a == 255,
            MeshType::Cross => false,
        }
    }

    pub fn transparent(&self) -> (r: bool)
        ensures
            r == self.transparent_spec(),
    {
        self.color.a < 255
    }

    pub fn set_shade(&mut self, face: Face, light: u8)
        ensures
            final(self).color == old(self).color,
            final(self).mesh_type == old(self).mesh_type,
            final(self).shade_of(face) == light,
            forall|f: Face| f != face ==> final(self).shade_of(f) == old(self).shade_of(f),
    {
        match face {
            Face::Top => self.shade.top = light,
            Face::Bottom => self.shade.bottom = light,
            Face::Front => self.shade.front = light,
            Face::Back => self.shade.back = light,
            Face::Left => self.shade.left = light,
            Face::Right => self.shade.right = light,
        }
    }

    pub open spec fn shade_of(&self, face: Face) -> u8 {
        match face {
            Face::Top => self.shade.top,
            Face::Bottom => self.shade.bottom,
            Face::Front => self.shade.front,
            Face::Back => self.shade.back,
            Face::Left => self.shade.left,
            Face::Right => self.shade.right,
        }
    }

    pub fn shade(&self, face: Face) -> (r: u8)
        ensures
            r == self.shade_of(face),
    {
        match face {
            Face::Top => self.shade.top,
            Face::Bottom => self.shade.bottom,
            Face::Front => self.shade.front,
            Face::Back => self.shade.back,
            Face::Left => self.shade.left,
            Face::Right => self.shade.right,
        }
    }
}

/// Channel `c` (0 red, 1 green, 2 blue, 3 alpha) of a block's colour.
pub open spec fn channel(b: Block, c: int) -> int {
    if c == 0 {
        b.color.r as int
    } else if c == 1 {
        b.color.g as int
    } else if c == 2 {
        b.color.b as int
    } else {
        b.color.a as int
    }
}

pub open spec fn channel_sum(s: Seq<Block>, c: int) -> int
    decreases s.len(),
{
    if s.len() == 0 {
        0
    } else {
        channel_sum(s.drop_last(), c) + channel(s.last(), c)
    }
}

pub open spec fn face_max(s: Seq<Block>, f: Face) -> u8
    decreases s.len(),
{
    if s.len() == 0 {
        0
    } else {
        let m = face_max(s.drop_last(), f);
        let v = s.last().shade_of(f);
        if v > m {
            v
        } else {
            m
        }
    }
}

proof fn lemma_channel_sum_bounds(s: Seq<Block>, c: int)
    ensures
        0 <= channel_sum(s, c) <= 255 * s.len(),
    decreases s.len(),
{
    if s.len() > 0 {
        lemma_channel_sum_bounds(s.drop_last(), c);
    }
}

/// The floor of the mean of channel `c`.
pub open spec fn channel_mean(s: Seq<Block>, c: int) -> u8 {
    (channel_sum(s, c) / s.len() as int) as u8
}

fn mean_channel(data: &Vec<Block>, c: u8) -> (r: u8)
    requires
        1 <= data.len() <= 0x4000_0000,
        c < 4,
    ensures
        r == channel_mean(data@, c as int),
{
    let mut sum: u64 = 0;
    let mut i: usize = 0;
    while i < data.len()
        invariant
            i <= data.len() <= 0x4000_0000,
            c < 4,
            sum == channel_sum(data@.subrange(0, i as int), c as int),
        decreases data.len() - i,
    {
        proof {
            let s = data@.subrange(0, i as int + 1);
            assert(s.drop_last() == data@.subrange(0, i as int));
            lemma_channel_sum_bounds(data@.subrange(0, i as int), c as int);
        }
        let b = data[i];
        let v: u8 = if c == 0 {
            b.color.r
        } else if c == 1 {
            b.color.g
        } else if c == 2 {
            b.color.b
        } else {
            b.color.a
        };
        sum = sum + v as u64;
        i = i + 1;
    }
    proof {
        assert(data@.subrange(0, i as int) == data@);
        lemma_channel_sum_bounds(data@, c as int);
        let m = data.len() as int;
        assert(sum as int / m <= 255) by {
            vstd::arithmetic::div_mod::lemma_div_is_ordered(sum as int, 255 * m, m);
            vstd::arithmetic::div_mod::lemma_div_by_multiple(255, m);
        }
    }
    (sum / data.len() as u64) as u8
}

fn max_face(data: &Vec<Block>, f: Face) -> (r: u8)
    ensures
        r == face_max(data@, f),
{
    let mut m: u8 = 0;
    let mut i: usize = 0;
    while i < data.len()
        invariant
            i <= data.len(),
            m == face_max(data@.subrange(0, i as int), f),
        decreases data.len() - i,
    {
        proof {
            let s = data@.subrange(0, i as int + 1);
            assert(s.drop_last() == data@.subrange(0, i as int));
        }
        let v = data[i].shade(f);
        if v > m {
            m = v;
        }
        i = i + 1;
    }
    proof {
        assert(data@.subrange(0, i as int) == data@);
    }
    m
}

impl Voxel for Block {
    /// One block stands for itself; several become a cube with the mean
    /// colour and, per face, the brightest shade.
    open spec fn average_of(data: Seq<Block>) -> Option<Block> {
        if data.len() == 0 {
            None
        } else if data.len() == 1 {
            Some(data[0])
        } else {
            Some(
                Block {
                    color: Color {
                        r: channel_mean(data, 0),
                        g: channel_mean(data, 1),
                        b: channel_mean(data, 2),
                        a: channel_mean(data, 3),
                    },
                    shade: Shade {
                        top: face_max(data, Face::Top),
                        bottom: face_max(data, Face::Bottom),
                        front: face_max(data, Face::Front),
                        back: face_max(data, Face::Back),
                        left: face_max(data, Face::Left),
                        right: face_max(data, Face::Right),
                    },
                    mesh_type: MeshType::Cube,
                },
            )
        }
    }

    /// Only cubes merge.
    open spec fn mergeable(&self) -> bool {
        self.mesh_type == MeshType::Cube
    }

    fn average(data: &Vec<Block>) -> (r: Option<Block>) {
        if data.len() == 0 {
            return None;
        }
        if data.len() == 1 {
            return Some(data[0]);
        }
        let color = Color {
            r: mean_channel(data, 0),
            g: mean_channel(data, 1),
            b: mean_channel(data, 2),
            a: mean_channel(data, 3),
        };
        let shade = Shade {
            top: max_face(data, Face::Top),
            bottom: max_face(data, Face::Bottom),
            front: max_face(data, Face::Front),
            back: max_face(data, Face::Back),
            left: max_face(data, Face::Left),
            right: max_face(data, Face::Right),
        };
        Some(Block { color, shade, mesh_type: MeshType::Cube })
    }

    fn can_merge(&self) -> (r: bool) {
        match self.mesh_type {
            MeshType::Cube => true,
            MeshType::Cross => false,
        }
    }

    fn equals(&self, other: &Block) -> (r: bool) {
        *self == *other
    }

    proof fn lemma_average_of_empty() {
    }
}

/// What a quad draws: one face of a region, or the crossed pair of a block.
#[derive(Debug, Clone, Copy, PartialEq, Eq, Structural)]
pub enum Geometry {
    Face(Face),
    Cross,
}

/// One piece of output geometry: a region (lowest corner, side) of a chunk,
/// what is drawn of it, and the block that gives its colour and shade.
#[derive(Debug, Clone, Copy, PartialEq, Eq, Structural)]
pub struct Quad {
    pub x: i32,
    pub y: i32,
    pub z: i32,
    pub size: i32,
    pub geometry: Geometry,
    pub block: Block,
}

pub open spec fn face_at(k: int) -> Face {
    if k == 0 {
        Face::Top
    } else if k == 1 {
        Face::Bottom
    } else if k == 2 {
        Face::Front
    } else if k == 3 {
        Face::Back
    } else if k == 4 {
        Face::Left
    } else {
        Face::Right
    }
}

/// Face `f` of the region at `p` of side `w` lies on the boundary of a chunk of side `cw`.
pub open spec fn on_boundary(f: Face, p: (int, int, int), w: int, cw: int) -> bool {
    match f {
        Face::Top => p.1 + w >= cw,
        Face::Bottom => p.1 - 1 < 0,
        Face::Front => p.2 + w >= cw,
        Face::Back => p.2 - 1 < 0,
        Face::Left => p.0 + w >= cw,
        Face::Right => p.0 - 1 < 0,
    }
}

/// Position of the chunk across face `f` of the chunk at `pos` of side `cw`.
pub open spec fn across(f: Face, pos: Coord, cw: int) -> Coord {
    match f {
        Face::Top => (pos.0, (pos.1 + cw) as i32, pos.2),
        Face::Bottom => (pos.0, (pos.1 - cw) as i32, pos.2),
        Face::Front => (pos.0, pos.1, (pos.2 + cw) as i32),
        Face::Back => (pos.0, pos.1, (pos.2 - cw) as i32),
        Face::Left => ((pos.0 + cw) as i32, pos.1, pos.2),
        Face::Right => ((pos.0 - cw) as i32, pos.1, pos.2),
    }
}

/// The cell that face `f` of the region at `p` of side `w` touches at offset
/// `(u, v)` along the face, in local coordinates of the chunk that holds it
/// (the neighbour chunk when the face lies on the boundary).
pub open spec fn touched(f: Face, p: (int, int, int), w: int, cw: int, u: int, v: int) -> Coord {
    let b = on_boundary(f, p, w, cw);
    match f {
        Face::Top => ((p.0 + u) as i32, (if b { 0 } else { p.1 + w }) as i32, (p.2 + v) as i32),
        Face::Bottom => ((p.0 + u) as i32, (if b { cw - 1 } else { p.1 - 1 }) as i32, (p.2 + v) as i32),
        Face::Front => ((p.0 + u) as i32, (p.1 + v) as i32, (if b { 0 } else { p.2 + w }) as i32),
        Face::Back => ((p.0 + u) as i32, (p.1 + v) as i32, (if b { cw - 1 } else { p.2 - 1 }) as i32),
        Face::Left => ((if b { 0 } else { p.0 + w }) as i32, (p.1 + u) as i32, (p.2 + v) as i32),
        Face::Right => ((if b { cw - 1 } else { p.0 - 1 }) as i32, (p.1 + u) as i32, (p.2 + v) as i32),
    }
}

/// A face of `block` shows against the cell `c` of `grid` unless a block there hides it.
pub open spec fn shows_at(block: Block, grid: LodTree<Block>, c: Coord) -> bool {
    match grid.read(c) {
        Some(o) => !block.hidden_by(o),
        None => true,
    }
}

/// Face `f` of the region of `block` at `p` of side `w` in `chunk` is drawn:
/// some cell it touches does not hide it. A face on the chunk boundary looks
/// into the neighbour chunk, and is not drawn while that chunk is missing.
pub open spec fn face_visible(
    map: ChunkMap<Block>,
    chunk: Chunk<Block>,
    block: Block,
    p: (int, int, int),
    w: int,
    f: Face,
) -> bool {
    let cw = chunk.voxels().width_spec() as int;
    if on_boundary(f, p, w, cw) {
        let n = across(f, chunk.position_spec(), cw);
        map.has(n) && exists|u: int, v: int|
            0 <= u < w && 0 <= v < w && #[trigger] shows_at(
                block,
                map.chunk_at(n).voxels(),
                touched(f, p, w, cw, u, v),
            )
    } else {
        exists|u: int, v: int|
            0 <= u < w && 0 <= v < w && #[trigger] shows_at(
                block,
                chunk.voxels(),
                touched(f, p, w, cw, u, v),
            )
    }
}

pub open spec fn element_pos(e: Element<Block>) -> (int, int, int) {
    (e.x as int, e.y as int, e.z as int)
}

/// The visible faces among the first `k` faces of a cube element, in face order.
pub open spec fn face_quads(map: ChunkMap<Block>, chunk: Chunk<Block>, e: Element<Block>, k: int) -> Seq<Quad>
    decreases k,
{
    if k <= 0 {
        Seq::empty()
    } else {
        let prev = face_quads(map, chunk, e, k - 1);
        let f = face_at(k - 1);
        if face_visible(map, chunk, e.value, element_pos(e), e.width as int, f) {
            prev.push(
                Quad { x: e.x, y: e.y, z: e.z, size: e.width as i32, geometry: Geometry::Face(f), block: e.value },
            )
        } else {
            prev
        }
    }
}

/// The geometry of one element: its visible faces, or its cross.
pub open spec fn element_quads(map: ChunkMap<Block>, chunk: Chunk<Block>, e: Element<Block>) -> Seq<Quad> {
    match e.value.mesh_type {
        MeshType::Cross => seq![
            Quad { x: e.x, y: e.y, z: e.z, size: e.width as i32, geometry: Geometry::Cross, block: e.value },
        ],
        MeshType::Cube => face_quads(map, chunk, e, 6),
    }
}

/// The geometry of the elements of `es` whose block is (or is not) transparent, in order.
pub open spec fn mesh_spec(map: ChunkMap<Block>, chunk: Chunk<Block>, es: Seq<Element<Block>>, transparent: bool) -> Seq<
    Quad,
>
    decreases es.len(),
{
    if es.len() == 0 {
        Seq::empty()
    } else {
        let prev = mesh_spec(map, chunk, es.drop_last(), transparent);
        if es.last().value.transparent_spec() == transparent {
            prev + element_quads(map, chunk, es.last())
        } else {
            prev
        }
    }
}

/// Bounds that keep the face arithmetic inside `i32`.
pub open spec fn region_fits(p: (int, int, int), w: int) -> bool {
    &&& 0 <= p.0 <= 1024 && 0 <= p.1 <= 1024 && 0 <= p.2 <= 1024
    &&& 1 <= w <= 1024
}

/// Whether face `f` of the region of `block` at `(x, y, z)` of side `w` is drawn.
pub fn face_visible_exec(
    map: &ChunkMap<Block>,
    chunk: &Chunk<Block>,
    block: &Block,
    x: i32,
    y: i32,
    z: i32,
    w: i32,
    f: Face,
) -> (r: bool)
    requires
        map.wf(),
        chunk.wf(),
        around_fits(chunk.position_spec(), 1024),
        region_fits((x as int, y as int, z as int), w as int),
    ensures
        r == face_visible(*map, *chunk, *block, (x as int, y as int, z as int), w as int, f),
{
    let cw = chunk.width() as i32;
    let boundary = match f {
        Face::Top => y + w >= cw,
        Face::Bottom => y - 1 < 0,
        Face::Front => z + w >= cw,
        Face::Back => z - 1 < 0,
        Face::Left => x + w >= cw,
        Face::Right => x - 1 < 0,
    };
    let pos = chunk.position();
    let grid: &Chunk<Block> = if boundary {
        let n: Coord = match f {
            Face::Top => (pos.0, pos.1 + cw, pos.2),
            Face::Bottom => (pos.0, pos.1 - cw, pos.2),
            Face::Front => (pos.0, pos.1, pos.2 + cw),
            Face::Back => (pos.0, pos.1, pos.2 - cw),
            Face::Left => (pos.0 + cw, pos.1, pos.2),
            Face::Right => (pos.0 - cw, pos.1, pos.2),
        };
        match map.get(n) {
            Some(c) => c,
            None => {
                return false;
            },
        }
    } else {
        chunk
    };
    let ghost p = (x as int, y as int, z as int);
    proof {
        if boundary {
            assert(pos == chunk.position_spec());
        }
    }
    let mut u: i32 = 0;
    while u < w
        invariant
            0 <= u <= w,
            grid.wf(),
            region_fits(p, w as int),
            p == (x as int, y as int, z as int),
            cw == chunk.voxels().width_spec(),
            cw <= 1024,
            boundary == on_boundary(f, p, w as int, cw as int),
            boundary ==> map.has(across(f, chunk.position_spec(), cw as int)) && *grid == map.chunk_at(
                across(f, chunk.position_spec(), cw as int),
            ),
            !boundary ==> *grid == *chunk,
            forall|u2: int, v2: int|
                0 <= u2 < u && 0 <= v2 < w ==> !#[trigger] shows_at(
                    *block,
                    grid.voxels(),
                    touched(f, p, w as int, cw as int, u2, v2),
                ),
        decreases w - u,
    {
        let mut v: i32 = 0;
        while v < w
            invariant
                0 <= u < w,
                0 <= v <= w,
                grid.wf(),
                region_fits(p, w as int),
                p == (x as int, y as int, z as int),
                cw == chunk.voxels().width_spec(),
                cw <= 1024,
                boundary == on_boundary(f, p, w as int, cw as int),
                boundary ==> map.has(across(f, chunk.position_spec(), cw as int)) && *grid == map.chunk_at(
                    across(f, chunk.position_spec(), cw as int),
                ),
                !boundary ==> *grid == *chunk,
                forall|u2: int, v2: int|
                    0 <= u2 < u && 0 <= v2 < w ==> !#[trigger] shows_at(
                        *block,
                        grid.voxels(),
                        touched(f, p, w as int, cw as int, u2, v2),
                    ),
                forall|v2: int|
                    0 <= v2 < v ==> !#[trigger] shows_at(
                        *block,
                        grid.voxels(),
                        touched(f, p, w as int, cw as int, u as int, v2),
                    ),
            decreases w - v,
        {
            let c: Coord = match f {
                Face::Top => (x + u, if boundary { 0 } else { y + w }, z + v),
                Face::Bottom => (x + u, if boundary { cw - 1 } else { y - 1 }, z + v),
                Face::Front => (x + u, y + v, if boundary { 0 } else { z + w }),
                Face::Back => (x + u, y + v, if boundary { cw - 1 } else { z - 1 }),
                Face::Left => (if boundary { 0 } else { x + w }, y + u, z + v),
                Face::Right => (if boundary { cw - 1 } else { x - 1 }, y + u, z + v),
            };
            proof {
                assert(c == touched(f, p, w as int, cw as int, u as int, v as int));
            }
            let shows = match grid.get(c) {
                Some(o) => !(block.solid() && o.solid() || block.transparent() && o.transparent()),
                None => true,
            };
            if shows {
                proof {
                    assert(shows_at(*block, grid.voxels(), touched(f, p, w as int, cw as int, u as int, v as int)));
                }
                return true;
            }
            v = v + 1;
        }
        u = u + 1;
    }
    false
}

/// The geometry of one element: its visible faces in face order, or its cross.
fn element_geometry(map: &ChunkMap<Block>, chunk: &Chunk<Block>, e: Element<Block>) -> (r: Vec<Quad>)
    requires
        map.wf(),
        chunk.wf(),
        around_fits(chunk.position_spec(), 1024),
        region_fits(element_pos(e), e.width as int),
    ensures
        r@ == element_quads(*map, *chunk, e),
{
    let mut out: Vec<Quad> = Vec::new();
    let size = e.width as i32;
    match e.value.mesh_type {
        MeshType::Cross => {
            out.push(Quad { x: e.x, y: e.y, z: e.z, size, geometry: Geometry::Cross, block: e.value });
            proof {
                assert(out@ =~= element_quads(*map, *chunk, e));
            }
        },
        MeshType::Cube => {
            let mut k: usize = 0;
            while k < 6
                invariant
                    k <= 6,
                    map.wf(),
                    chunk.wf(),
                    around_fits(chunk.position_spec(), 1024),
                    region_fits(element_pos(e), e.width as int),
                    size == e.width as i32,
                    e.value.mesh_type == MeshType::Cube,
                    out@ == face_quads(*map, *chunk, e, k as int),
                decreases 6 - k,
            {
                let f = if k == 0 {
                    Face::Top
                } else if k == 1 {
                    Face::Bottom
                } else if k == 2 {
                    Face::Front
                } else if k == 3 {
                    Face::Back
                } else if k == 4 {
                    Face::Left
                } else {
                    Face::Right
                };
                proof {
                    assert(f == face_at(k as int));
                }
                if face_visible_exec(map, chunk, &e.value, e.x, e.y, e.z, size, f) {
                    out.push(Quad { x: e.x, y: e.y, z: e.z, size, geometry: Geometry::Face(f), block: e.value });
                }
                k = k + 1;
            }
        },
    }
    out
}

/// The surface geometry of `chunk`, split into opaque and transparent parts;
/// a part with no quad is `None`. Regions are taken at the chunk's level of
/// detail, and boundary faces look into the neighbouring chunks of `map`.
pub fn generate_chunk_mesh(map: &ChunkMap<Block>, chunk: &Chunk<Block>) -> (r: (
    Option<Vec<Quad>>,
    Option<Vec<Quad>>,
))
    requires
        map.wf(),
        chunk.wf(),
        around_fits(chunk.position_spec(), 1024),
    ensures
        ({
            let es = chunk.voxels().elements_spec(chunk.voxels().window_count());
            let opaque = mesh_spec(*map, *chunk, es, false);
            let clear = mesh_spec(*map, *chunk, es, true);
            &&& r.0 is None <==> opaque.len() == 0
            &&& r.0 matches Some(v) ==> v@ == opaque
            &&& r.1 is None <==> clear.len() == 0
            &&& r.1 matches Some(v) ==> v@ == clear
        }),
{
    let es = chunk.iter();
    proof {
        chunk.lemma_wf();
        chunk.voxels().lemma_elements_bounded(chunk.voxels().window_count());
        crate::lod_tree::lemma_width_bound(chunk.voxels());
    }
    let mut opaque: Vec<Quad> = Vec::new();
    let mut clear: Vec<Quad> = Vec::new();
    let mut i: usize = 0;
    while i < es.len()
        invariant
            map.wf(),
            chunk.wf(),
            around_fits(chunk.position_spec(), 1024),
            es@ == chunk.voxels().elements_spec(chunk.voxels().window_count()),
            chunk.voxels().width_spec() <= 1024,
            forall|j: int|
                0 <= j < es@.len() ==> {
                    let e = #[trigger] es@[j];
                    &&& in_cube(e.x as int, e.y as int, e.z as int, chunk.voxels().depth_spec())
                    &&& 1 <= e.width <= chunk.voxels().width_spec()
                },
            i <= es@.len(),
            opaque@ == mesh_spec(*map, *chunk, es@.subrange(0, i as int), false),
            clear@ == mesh_spec(*map, *chunk, es@.subrange(0, i as int), true),
        decreases es@.len() - i,
    {
        let e = es[i];
        proof {
            assert(es@[i as int] == e);
            chunk.lemma_wf();
            crate::lod_tree::lemma_width_bound(chunk.voxels());
            let s = es@.subrange(0, i as int + 1);
            assert(s.drop_last() == es@.subrange(0, i as int));
            assert(s.last() == e);
        }
        let mut quads = element_geometry(map, chunk, e);
        if e.value.transparent() {
            clear.append(&mut quads);
        } else {
            opaque.append(&mut quads);
        }
        i = i + 1;
    }
    proof {
        assert(es@.subrange(0, i as int) == es@);
    }
    let o = if opaque.len() == 0 {
        None
    } else {
        Some(opaque)
    };
    let t = if clear.len() == 0 {
        None
    } else {
        Some(clear)
    };
    (o, t)
}

/// A face on the chunk boundary is not drawn while the chunk across it is
/// missing from the world.
pub proof fn lemma_missing_neighbour_hides(
    map: ChunkMap<Block>,
    chunk: Chunk<Block>,
    block: Block,
    p: (int, int, int),
    w: int,
    f: Face,
)
    requires
        on_boundary(f, p, w, chunk.voxels().width_spec() as int),
        !map.has(across(f, chunk.position_spec(), chunk.voxels().width_spec() as int)),
    ensures
        !face_visible(map, chunk, block, p, w, f),
{
}

/// The face between a single cell and a neighbouring cell that hides it (both
/// solid, or both transparent) is not drawn; across the chunk boundary the
/// neighbouring cell is read in the chunk there.
pub proof fn lemma_hidden_face(
    map: ChunkMap<Block>,
    chunk: Chunk<Block>,
    block: Block,
    p: (int, int, int),
    f: Face,
    other: Block,
)
    requires
        ({
            let cw = chunk.voxels().width_spec() as int;
            let grid = if on_boundary(f, p, 1, cw) {
                map.chunk_at(across(f, chunk.position_spec(), cw)).voxels()
            } else {
                chunk.voxels()
            };
            grid.read(touched(f, p, 1, cw, 0, 0)) == Some(other)
        }),
        block.hidden_by(other),
    ensures
        !face_visible(map, chunk, block, p, 1, f),
{
    let cw = chunk.voxels().width_spec() as int;
    if on_boundary(f, p, 1, cw) {
        let n = across(f, chunk.position_spec(), cw);
        assert forall|u: int, v: int| 0 <= u < 1 && 0 <= v < 1 implies !#[trigger] shows_at(
            block,
            map.chunk_at(n).voxels(),
            touched(f, p, 1, cw, u, v),
        ) by {
            assert(u == 0 && v == 0);
        }
    } else {
        assert forall|u: int, v: int| 0 <= u < 1 && 0 <= v < 1 implies !#[trigger] shows_at(
            block,
            chunk.voxels(),
            touched(f, p, 1, cw, u, v),
        ) by {
            assert(u == 0 && v == 0);
        }
    }
}

/// The face of a single cell against an empty cell is drawn, provided the
/// cell lies in the chunk or in a neighbour chunk that exists.
pub proof fn lemma_open_face(
    map: ChunkMap<Block>,
    chunk: Chunk<Block>,
    block: Block,
    p: (int, int, int),
    f: Face,
)
    requires
        ({
            let cw = chunk.voxels().width_spec() as int;
            let n = across(f, chunk.position_spec(), cw);
            if on_boundary(f, p, 1, cw) {
                map.has(n) && map.chunk_at(n).voxels().read(touched(f, p, 1, cw, 0, 0)) is None
            } else {
                chunk.voxels().read(touched(f, p, 1, cw, 0, 0)) is None
            }
        }),
    ensures
        face_visible(map, chunk, block, p, 1, f),
{
    let cw = chunk.voxels().width_spec() as int;
    if on_boundary(f, p, 1, cw) {
        assert(shows_at(block, map.chunk_at(across(f, chunk.position_spec(), cw)).voxels(), touched(f, p, 1, cw, 0, 0)));
    } else {
        assert(shows_at(block, chunk.voxels(), touched(f, p, 1, cw, 0, 0)));
    }
}

/// Vertices a quad takes in the vertex buffer: 4 for a face, 16 for a cross
/// (four quads).
pub open spec fn quad_vertices(q: Quad) -> nat {
    match q.geometry {
        Geometry::Face(_) => 4,
        Geometry::Cross => 16,
    }
}

/// The first vertex of quad `j` when the quads of `qs` are laid out in order.
pub open spec fn vertex_base(qs: Seq<Quad>, j: int) -> nat
    decreases j,
{
    if j <= 0 {
        0
    } else {
        vertex_base(qs, j - 1) + quad_vertices(qs[j - 1])
    }
}

/// Offset of index `i` within the triangles of a quad: two triangles
/// (0, 1, 2) and (2, 3, 0) per four vertices.
pub open spec fn index_offset(i: int) -> int {
    let t = i % 6;
    4 * (i / 6) + if t == 0 || t == 5 {
        0int
    } else if t == 1 {
        1int
    } else if t == 2 || t == 3 {
        2int
    } else {
        3int
    }
}

/// The triangle indices of the first `j` quads.
pub open spec fn indices_spec(qs: Seq<Quad>, j: int) -> Seq<u32>
    decreases j,
{
    if j <= 0 {
        Seq::empty()
    } else {
        let b = vertex_base(qs, j - 1);
        let n = quad_vertices(qs[j - 1]) / 4 * 6;
        indices_spec(qs, j - 1) + Seq::new(n, |i: int| (b + index_offset(i)) as u32)
    }
}

/// The triangle-list indices of `quads` laid out in order: each quad's
/// vertices follow those of the quads before it.
pub fn quad_indices(quads: &Vec<Quad>) -> (r: Vec<u32>)
    requires
        quads@.len() <= 0x100_0000,
    ensures
        r@ == indices_spec(quads@, quads@.len() as int),
        forall|k: int| 0 <= k < r@.len() ==> (#[trigger] r@[k] as int) < vertex_base(quads@, quads@.len() as int),
{
    let mut out: Vec<u32> = Vec::new();
    let mut base: u32 = 0;
    let mut j: usize = 0;
    while j < quads.len()
        invariant
            j <= quads@.len() <= 0x100_0000,
            base as int == vertex_base(quads@, j as int),
            base <= 16 * j,
            out@ == indices_spec(quads@, j as int),
            forall|k: int| 0 <= k < out@.len() ==> (#[trigger] out@[k] as int) < base,
        decreases quads@.len() - j,
    {
        let n: u32 = match quads[j].geometry {
            Geometry::Face(_) => 4,
            Geometry::Cross => 16,
        };
        let count: u32 = n / 4 * 6;
        let ghost before = out@;
        let mut i: u32 = 0;
        while i < count
            invariant
                j < quads@.len() <= 0x100_0000,
                base as int == vertex_base(quads@, j as int),
                base <= 16 * j,
                n == quad_vertices(quads@[j as int]),
                count == n / 4 * 6,
                i <= count,
                out@ == before + Seq::new(i as nat, |t: int| (base + index_offset(t)) as u32),
                forall|k: int| 0 <= k < out@.len() ==> (#[trigger] out@[k] as int) < base + n,
                forall|k: int| 0 <= k < before.len() ==> (#[trigger] before[k] as int) < base,
            decreases count - i,
        {
            let t = i % 6;
            let off: u32 = 4 * (i / 6) + if t == 0 || t == 5 {
                0
            } else if t == 1 {
                1
            } else if t == 2 || t == 3 {
                2
            } else {
                3
            };
            proof {
                assert(off as int == index_offset(i as int));
                assert(off < n);
            }
            out.push(base + off);
            proof {
                assert(out@ =~= before + Seq::new((i + 1) as nat, |t: int| (base + index_offset(t)) as u32));
            }
            i = i + 1;
        }
        base = base + n;
        j = j + 1;
        proof {
            assert(out@ =~= indices_spec(quads@, j as int));
        }
    }
    out
}

} // verus!
