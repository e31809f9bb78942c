//! The first lighting pass: which cells of a chunk a directional light reaches.
use vstd::prelude::*;

use crate::lod_tree::{LodTree, Voxel};
use crate::updates::Coord;
use crate::world::Chunk;

verus! {

/// The voxels that 3D Bresenham rasterisation visits from `start` to `end`.
pub uninterp spec fn bresenham_line(start: Coord, end: Coord) -> Seq<Coord>;

pub open spec fn abs(a: int) -> int {
    if a < 0 {
        -a
    } else {
        a
    }
}

/// Points small enough that the line arithmetic stays inside `i32`.
pub open spec fn small(p: Coord) -> bool {
    -0x10_0000 <= p.0 <= 0x10_0000 && -0x10_0000 <= p.1 <= 0x10_0000 && -0x10_0000 <= p.2 <= 0x10_0000
}

/// Relies on `line_drawing::Bresenham3d`: the rasterised line, which starts at
/// `start`, ends at `end` and holds one voxel more than the longest axis distance.
#[verifier::external_body]
fn trace_line(start: Coord, end: Coord) -> (r: Vec<Coord>)
    requires
        small(start),
        small(end),
    ensures
        r@ == bresenham_line(start, end),
        r@.len() == 1 + {
            let (dx, dy, dz) = (abs(end.0 - start.0), abs(end.1 - start.1), abs(end.2 - start.2));
            if dx >= dy && dx >= dz {
                dx
            } else if dy >= dz {
                dy
            } else {
                dz
            }
        },
        r@[0] == start,
        r@.last() == end,
{
    line_drawing::Bresenham3d::new(start, end).collect()
}

/// The cell at `c` holds a light level of 0 or 1.
pub open spec fn level_set(m: LodTree<u8>, c: Coord) -> bool {
    match m.get_spec(c) {
        Some(v) => v <= 1,
        None => false,
    }
}

/// Position of cell `(x, y, z)` in a flat array of `w^3` cells.
fn cell_index(x: i32, y: i32, z: i32, w: usize) -> (r: usize)
    requires
        1 <= w <= 1024,
        0 <= x < w,
        0 <= y < w,
        0 <= z < w,
    ensures
        r < w * w * w,
        r == cidx((x as int, y as int, z as int), w as int),
{
    let xu = x as usize;
    let yu = y as usize;
    let zu = z as usize;
    proof {
        assert(xu * w + yu < w * w) by (nonlinear_arith)
            requires
                0 <= xu < w,
                0 <= yu < w,
        ;
        assert((xu * w + yu) * w + zu < w * w * w) by (nonlinear_arith)
            requires
                0 <= xu * w + yu < w * w,
                0 <= zu < w,
        ;
        assert(w * w * w <= 1024 * 1024 * 1024) by (nonlinear_arith)
            requires
                1 <= w <= 1024,
        ;
        assert(w * w <= 1024 * 1024) by (nonlinear_arith)
            requires
                1 <= w <= 1024,
        ;
        assert(xu * w <= w * w) by (nonlinear_arith)
            requires
                0 <= xu < w,
        ;
        assert((xu * w + yu) * w <= w * w * w) by (nonlinear_arith)
            requires
                0 <= xu * w + yu < w * w,
        ;
    }
    (xu * w + yu) * w + zu
}

/// Light along a ray: 1 up to the first occupied point, 0 from there on.
pub open spec fn ray_light_spec(occupied: Seq<bool>, i: int) -> u8 {
    if exists|j: int| 0 <= j <= i && occupied[j] {
        0
    } else {
        1
    }
}

/// The light at each point of `ray` through `chunk`: 1 while no point so far
/// holds a voxel, 0 from the first one that does.
pub fn ray_light<T: Voxel>(chunk: &Chunk<T>, ray: &Vec<Coord>) -> (r: Vec<u8>)
    requires
        chunk.wf(),
    ensures
        r@.len() == ray@.len(),
        forall|i: int|
            0 <= i < ray@.len() ==> #[trigger] r@[i] == ray_light_spec(
                Seq::new(ray@.len(), |j: int| chunk.voxels().read(ray@[j]) is Some),
                i,
            ),
{
    let ghost occ = Seq::new(ray@.len(), |j: int| chunk.voxels().read(ray@[j]) is Some);
    let mut out: Vec<u8> = Vec::new();
    let mut light: u8 = 1;
    let mut i: usize = 0;
    while i < ray.len()
        invariant
            chunk.wf(),
            i <= ray@.len(),
            out@.len() == i,
            occ == Seq::new(ray@.len(), |j: int| chunk.voxels().read(ray@[j]) is Some),
            light == (if exists|j: int| 0 <= j < i && occ[j] {
                0u8
            } else {
                1u8
            }),
            forall|k: int| 0 <= k < i ==> #[trigger] out@[k] == ray_light_spec(occ, k),
        decreases ray@.len() - i,
    {
        if chunk.get(ray[i]).is_some() {
            light = 0;
            proof {
                assert(occ[i as int]);
            }
        }
        proof {
            if exists|j: int| 0 <= j <= i && occ[j] {
                if !(exists|j: int| 0 <= j < i && occ[j]) {
                    let j = choose|j: int| 0 <= j <= i && occ[j];
                    assert(j == i);
                }
            } else {
                assert(!occ[i as int]);
            }
        }
        out.push(light);
        i = i + 1;
    }
    out
}

/// Position of a cell in a flat array of `w^3` cells.
pub open spec fn cidx(c: (int, int, int), w: int) -> int {
    (c.0 * w + c.1) * w + c.2
}

pub open spec fn in_grid(c: Coord, w: int) -> bool {
    0 <= c.0 < w && 0 <= c.1 < w && 0 <= c.2 < w
}

proof fn lemma_cidx_injective(a: Coord, b: Coord, w: int)
    requires
        w >= 1,
        in_grid(a, w),
        in_grid(b, w),
        cidx((a.0 as int, a.1 as int, a.2 as int), w) == cidx((b.0 as int, b.1 as int, b.2 as int), w),
    ensures
        a == b,
{
    let k = cidx((a.0 as int, a.1 as int, a.2 as int), w);
    vstd::arithmetic::div_mod::lemma_fundamental_div_mod_converse(k, w, a.0 * w + a.1, a.2 as int);
    vstd::arithmetic::div_mod::lemma_fundamental_div_mod_converse(k, w, b.0 * w + b.1, b.2 as int);
    let h = a.0 * w + a.1;
    vstd::arithmetic::div_mod::lemma_fundamental_div_mod_converse(h, w, a.0 as int, a.1 as int);
    vstd::arithmetic::div_mod::lemma_fundamental_div_mod_converse(h, w, b.0 as int, b.1 as int);
}

proof fn lemma_cidx_bound(c: Coord, w: int)
    requires
        w >= 1,
        in_grid(c, w),
    ensures
        0 <= cidx((c.0 as int, c.1 as int, c.2 as int), w) < w * w * w,
{
    let (a, b, d) = (c.0 as int, c.1 as int, c.2 as int);
    assert(0 <= a * w + b < w * w) by (nonlinear_arith)
        requires
            0 <= a < w,
            0 <= b < w,
    ;
    assert(0 <= (a * w + b) * w + d < w * w * w) by (nonlinear_arith)
        requires
            0 <= a * w + b < w * w,
            0 <= d < w,
    ;
}

/// Whether the voxel grid of `chunk` holds something at `c`.
pub open spec fn occupied<T: Voxel>(chunk: Chunk<T>, c: Coord) -> bool {
    chunk.voxels().read(c) is Some
}

/// What a light level `v` at `c` must be: 0 or 1, 0 where a voxel stands, and
/// 1 everywhere in a chunk without voxels.
pub open spec fn level_ok<T: Voxel>(chunk: Chunk<T>, c: Coord, v: u8) -> bool {
    &&& v <= 1
    &&& occupied(chunk, c) ==> v == 0
    &&& (forall|d: Coord| !#[trigger] occupied(chunk, d)) ==> v == 1
}

/// The light map holds at `c` a level that fits the voxels of `chunk`.
pub open spec fn lit_ok<T: Voxel>(m: LodTree<u8>, chunk: Chunk<T>, c: Coord) -> bool {
    match m.get_spec(c) {
        Some(v) => level_ok(chunk, c, v),
        None => false,
    }
}

/// Cell `q` comes before `(x, y, z)` when cells are visited y, then x, then z.
pub open spec fn visited_before(q: Coord, x: int, y: int, z: int) -> bool {
    q.1 < y || (q.1 == y && (q.0 < x || (q.0 == x && q.2 < z)))
}

/// Cell `t` in visit order (y, then x, then z) of a grid of side `w`.
pub open spec fn visit_cell(w: int, t: int) -> Coord {
    (((t / w) % w) as i32, (t / (w * w)) as i32, (t % w) as i32)
}

/// The line traced for cell `c`: from the light source at `offset` from it to the cell.
pub open spec fn ray_of(offset: Coord, c: Coord) -> Seq<Coord> {
    bresenham_line(((c.0 + offset.0) as i32, (c.1 + offset.1) as i32, (c.2 + offset.2) as i32), c)
}

/// The light at each point of `ray` through `chunk`.
pub open spec fn light_seq<T: Voxel>(chunk: Chunk<T>, ray: Seq<Coord>) -> Seq<u8> {
    Seq::new(
        ray.len(),
        |i: int| ray_light_spec(Seq::new(ray.len(), |j: int| chunk.voxels().read(ray[j]) is Some), i),
    )
}

/// Memo `m` (2 for a cell not yet lit) after the first `i` points of `ray`:
/// each cell of the grid met for the first time takes the light there.
pub open spec fn apply_ray(m: Seq<u8>, ray: Seq<Coord>, lights: Seq<u8>, w: int, i: int) -> Seq<u8>
    decreases i,
{
    if i <= 0 {
        m
    } else {
        let m1 = apply_ray(m, ray, lights, w, i - 1);
        let p = ray[i - 1];
        let k = cidx((p.0 as int, p.1 as int, p.2 as int), w);
        if in_grid(p, w) && m1[k] == 2 {
            m1.update(k, lights[i - 1])
        } else {
            m1
        }
    }
}

/// The memo after the first `t` cells in visit order: a cell still unlit on
/// its turn has its own ray traced.
pub open spec fn memo_after<T: Voxel>(chunk: Chunk<T>, offset: Coord, w: int, t: int) -> Seq<u8>
    decreases t,
{
    if t <= 0 {
        Seq::new((w * w * w) as nat, |k: int| 2u8)
    } else {
        let m = memo_after(chunk, offset, w, t - 1);
        let c = visit_cell(w, t - 1);
        if m[cidx((c.0 as int, c.1 as int, c.2 as int), w)] != 2 {
            m
        } else {
            let ray = ray_of(offset, c);
            apply_ray(m, ray, light_seq(chunk, ray), w, ray.len() as int)
        }
    }
}

/// The light level the pass gives cell `c`: what the first ray through it
/// found, 0 where none passed.
pub open spec fn light_level_spec<T: Voxel>(chunk: Chunk<T>, offset: Coord, c: Coord) -> u8 {
    let w = chunk.voxels().width_spec() as int;
    if memo_after(chunk, offset, w, w * w * w)[cidx((c.0 as int, c.1 as int, c.2 as int), w)] == 1 {
        1
    } else {
        0
    }
}

pub open spec fn exact_ok<T: Voxel>(m: LodTree<u8>, chunk: Chunk<T>, offset: Coord, c: Coord) -> bool {
    m.get_spec(c) == Some(light_level_spec(chunk, offset, c))
}

proof fn lemma_visit(x: int, y: int, z: int, w: int)
    requires
        w >= 1,
        0 <= x < w,
        0 <= y < w,
        0 <= z < w,
    ensures
        visit_cell(w, (y * w + x) * w + z) == (x as i32, y as i32, z as i32),
{
    let h = y * w + x;
    let k = h * w + z;
    vstd::arithmetic::div_mod::lemma_fundamental_div_mod_converse(k, w, h, z);
    vstd::arithmetic::div_mod::lemma_fundamental_div_mod_converse(h, w, y, x);
    assert(k == y * (w * w) + (x * w + z)) by (nonlinear_arith)
        requires
            k == (y * w + x) * w + z,
    ;
    assert(0 <= x * w + z < w * w) by (nonlinear_arith)
        requires
            0 <= x < w,
            0 <= z < w,
    ;
    vstd::arithmetic::div_mod::lemma_fundamental_div_mod_converse(k, w * w, y, x * w + z);
}

/// The light map of `chunk` for a light whose source sits at `offset` from
/// every cell: a ray is traced from the source to each cell, and each cell the
/// ray passes first records 1 when no voxel was met yet on that ray, else 0.
/// Cells that no ray reaches keep 0. The chunk then has light.
pub fn light_map_update<T: Voxel>(chunk: &mut Chunk<T>, offset: Coord)
    requires
        old(chunk).wf(),
        -0x8_0000 <= offset.0 <= 0x8_0000,
        -0x8_0000 <= offset.1 <= 0x8_0000,
        -0x8_0000 <= offset.2 <= 0x8_0000,
    ensures
        final(chunk).wf(),
        final(chunk).has_light_spec(),
        final(chunk).voxels() == old(chunk).voxels(),
        final(chunk).position_spec() == old(chunk).position_spec(),
        forall|c: Coord|
            old(chunk).voxels().in_bounds(c) ==> #[trigger] level_set(final(chunk).light_map(), c),
        forall|c: Coord|
            old(chunk).voxels().in_bounds(c) ==> #[trigger] lit_ok(final(chunk).light_map(), *old(chunk), c),
        forall|c: Coord|
            old(chunk).voxels().in_bounds(c) ==> #[trigger] exact_ok(final(chunk).light_map(), *old(chunk), offset, c),
        forall|c: Coord|
            old(chunk).voxels().in_bounds(c) && old(chunk).voxels().read(c) is Some
                ==> #[trigger] final(chunk).light_map().get_spec(c) == Some(0u8),
        (forall|d: Coord| #[trigger] old(chunk).voxels().read(d) is None) ==> forall|c: Coord|
            old(chunk).voxels().in_bounds(c) ==> #[trigger] final(chunk).light_map().get_spec(c) == Some(1u8),
{
    let w = chunk.width();
    proof {
        chunk.lemma_wf();
        crate::lod_tree::lemma_width_bound(chunk.voxels());
        assert(w * w <= 1024 * 1024) by (nonlinear_arith)
            requires
                w <= 1024,
        ;
        assert(w * w * w <= 1024 * 1024 * 1024) by (nonlinear_arith)
            requires
                w <= 1024,
                w * w <= 1024 * 1024,
        ;
    }
    let n = w * w * w;
    let mut memo: Vec<u8> = Vec::new();
    while memo.len() < n
        invariant
            memo@.len() <= n,
            forall|k: int| 0 <= k < memo@.len() ==> #[trigger] memo@[k] == 2u8,
        decreases n - memo@.len(),
    {
        memo.push(2);
    }
    let wi = w as i32;
    let ghost c0 = *chunk;
    proof {
        assert(memo@ =~= memo_after(c0, offset, w as int, 0));
        assert forall|q: Coord| in_grid(q, w as int) implies #[trigger] memo@[cidx(
            (q.0 as int, q.1 as int, q.2 as int),
            w as int,
        )] == 2 by {
            lemma_cidx_bound(q, w as int);
        }
    }
    let mut y: i32 = 0;
    while y < wi
        invariant
            chunk.wf(),
            *chunk == c0,
            wi == w,
            1 <= w <= 1024,
            n == w * w * w,
            memo@.len() == n,
            forall|k: int| 0 <= k < n ==> #[trigger] memo@[k] <= 2,
            forall|q: Coord|
                #![trigger memo@[cidx((q.0 as int, q.1 as int, q.2 as int), w as int)]]
                in_grid(q, w as int) && memo@[cidx((q.0 as int, q.1 as int, q.2 as int), w as int)] != 2
                    ==> level_ok(c0, q, memo@[cidx((q.0 as int, q.1 as int, q.2 as int), w as int)]),
            -0x8_0000 <= offset.0 <= 0x8_0000 && -0x8_0000 <= offset.1 <= 0x8_0000 && -0x8_0000 <= offset.2 <= 0x8_0000,
            forall|q: Coord|
                #![trigger memo@[cidx((q.0 as int, q.1 as int, q.2 as int), w as int)]]
                in_grid(q, w as int) && q.1 < y ==> memo@[cidx((q.0 as int, q.1 as int, q.2 as int), w as int)] != 2,
            0 <= y <= wi,
            memo@ == memo_after(c0, offset, w as int, (y as int) * (w as int) * (w as int)),
        decreases wi - y,
    {
        let mut x: i32 = 0;
        while x < wi
            invariant
                chunk.wf(),
                *chunk == c0,
                wi == w,
                1 <= w <= 1024,
                n == w * w * w,
                memo@.len() == n,
                forall|k: int| 0 <= k < n ==> #[trigger] memo@[k] <= 2,
                forall|q: Coord|
                    #![trigger memo@[cidx((q.0 as int, q.1 as int, q.2 as int), w as int)]]
                    in_grid(q, w as int) && memo@[cidx((q.0 as int, q.1 as int, q.2 as int), w as int)] != 2
                        ==> level_ok(c0, q, memo@[cidx((q.0 as int, q.1 as int, q.2 as int), w as int)]),
                -0x8_0000 <= offset.0 <= 0x8_0000 && -0x8_0000 <= offset.1 <= 0x8_0000 && -0x8_0000 <= offset.2 <= 0x8_0000,
                forall|q: Coord|
                    #![trigger memo@[cidx((q.0 as int, q.1 as int, q.2 as int), w as int)]]
                    in_grid(q, w as int) && visited_before(q, x as int, y as int, 0) ==> memo@[cidx((q.0 as int, q.1 as int, q.2 as int), w as int)] != 2,
                0 <= y < wi,
                0 <= x <= wi,
                memo@ == memo_after(c0, offset, w as int, ((y as int) * (w as int) + x) * (w as int)),
            decreases wi - x,
        {
            let mut z: i32 = 0;
            while z < wi
                invariant
                    chunk.wf(),
                    *chunk == c0,
                    wi == w,
                    1 <= w <= 1024,
                    n == w * w * w,
                    memo@.len() == n,
                    forall|k: int| 0 <= k < n ==> #[trigger] memo@[k] <= 2,
                    forall|q: Coord|
                        #![trigger memo@[cidx((q.0 as int, q.1 as int, q.2 as int), w as int)]]
                        in_grid(q, w as int) && memo@[cidx((q.0 as int, q.1 as int, q.2 as int), w as int)] != 2
                            ==> level_ok(c0, q, memo@[cidx((q.0 as int, q.1 as int, q.2 as int), w as int)]),
                    -0x8_0000 <= offset.0 <= 0x8_0000 && -0x8_0000 <= offset.1 <= 0x8_0000 && -0x8_0000 <= offset.2 <= 0x8_0000,
                    forall|q: Coord|
                        #![trigger memo@[cidx((q.0 as int, q.1 as int, q.2 as int), w as int)]]
                        in_grid(q, w as int) && visited_before(q, x as int, y as int, z as int) ==> memo@[cidx((q.0 as int, q.1 as int, q.2 as int), w as int)] != 2,
                    0 <= y < wi,
                    0 <= x < wi,
                    0 <= z <= wi,
                    memo@ == memo_after(c0, offset, w as int, ((y as int) * (w as int) + x) * (w as int) + z),
                decreases wi - z,
            {
                let ghost t = ((y as int) * (w as int) + x) * (w as int) + z;
                proof {
                    lemma_visit(x as int, y as int, z as int, w as int);
                }
                let idx = cell_index(x, y, z, w);
                if memo[idx] == 2 {
                    let source: Coord = (x + offset.0, y + offset.1, z + offset.2);
                    let ray = trace_line(source, (x, y, z));
                    let lights = ray_light(chunk, &ray);
                    let ghost m0 = memo@;
                    proof {
                        assert(lights@ =~= light_seq(c0, ray@));
                        assert(ray@ == ray_of(offset, (x, y, z)));
                    }
                    let ghost occ = Seq::new(ray@.len(), |j: int| c0.voxels().read(ray@[j]) is Some);
                    let mut i: usize = 0;
                    while i < ray.len()
                        invariant
                            chunk.wf(),
                            *chunk == c0,
                            wi == w,
                            1 <= w <= 1024,
                            n == w * w * w,
                            memo@.len() == n,
                            forall|k: int| 0 <= k < n ==> #[trigger] memo@[k] <= 2,
                            forall|q: Coord|
                                #![trigger memo@[cidx((q.0 as int, q.1 as int, q.2 as int), w as int)]]
                                in_grid(q, w as int) && memo@[cidx((q.0 as int, q.1 as int, q.2 as int), w as int)] != 2
                                    ==> level_ok(c0, q, memo@[cidx((q.0 as int, q.1 as int, q.2 as int), w as int)]),
                            -0x8_0000 <= offset.0 <= 0x8_0000 && -0x8_0000 <= offset.1 <= 0x8_0000 && -0x8_0000 <= offset.2 <= 0x8_0000,
                            lights@.len() == ray@.len(),
                            occ == Seq::new(ray@.len(), |j: int| c0.voxels().read(ray@[j]) is Some),
                            forall|j: int| 0 <= j < ray@.len() ==> #[trigger] lights@[j] == ray_light_spec(occ, j),
                            m0.len() == n,
                            i <= ray@.len(),
                            memo@ == apply_ray(m0, ray@, lights@, w as int, i as int),
                            lights@ == light_seq(c0, ray@),
                            ray@ == ray_of(offset, (x, y, z)),
                            m0 == memo_after(c0, offset, w as int, t),
                            m0[idx as int] == 2,
                            idx as int == cidx((x as int, y as int, z as int), w as int),
                            t == ((y as int) * (w as int) + x) * (w as int) + z,
                            visit_cell(w as int, t) == (x, y, z),
                            forall|k: int| 0 <= k < n && m0[k] != 2 ==> #[trigger] memo@[k] == m0[k],
                            forall|j: int|
                                0 <= j < i && in_grid(ray@[j], w as int) ==> memo@[cidx(
                                    (ray@[j].0 as int, ray@[j].1 as int, ray@[j].2 as int),
                                    w as int,
                                )] != 2,
                        decreases ray@.len() - i,
                    {
                        let p = ray[i];
                        if p.0 >= 0 && p.1 >= 0 && p.2 >= 0 && p.0 < wi && p.1 < wi && p.2 < wi {
                            let k = cell_index(p.0, p.1, p.2, w);
                            if memo[k] == 2 {
                                proof {
                                    assert(occ[i as int] == occupied(c0, p));
                                    if (forall|d: Coord| !#[trigger] occupied(c0, d)) {
                                        assert forall|j: int| 0 <= j <= i implies !occ[j] by {
                                            assert(!occupied(c0, ray@[j]));
                                        }
                                    }
                                    assert(level_ok(c0, p, lights@[i as int]));
                                }
                                let ghost mo = memo@;
                                memo.set(k, lights[i]);
                                proof {
                                    assert forall|j: int|
                                        0 <= j < i + 1 && in_grid(ray@[j], w as int) implies memo@[cidx(
                                            (ray@[j].0 as int, ray@[j].1 as int, ray@[j].2 as int),
                                            w as int,
                                        )] != 2 by {
                                        lemma_cidx_bound(ray@[j], w as int);
                                        if j < i {
                                            assert(mo[cidx((ray@[j].0 as int, ray@[j].1 as int, ray@[j].2 as int), w as int)] != 2);
                                        }
                                    }
                                    assert forall|kk: int| 0 <= kk < n && m0[kk] != 2 implies #[trigger] memo@[kk] == m0[kk] by {
                                        assert(mo[kk] == m0[kk]);
                                    }
                                    assert forall|q: Coord|
                                        #![trigger memo@[cidx((q.0 as int, q.1 as int, q.2 as int), w as int)]]
                                        in_grid(q, w as int) && memo@[cidx((q.0 as int, q.1 as int, q.2 as int), w as int)] != 2
                                        implies level_ok(c0, q, memo@[cidx((q.0 as int, q.1 as int, q.2 as int), w as int)]) by {
                                        lemma_cidx_bound(q, w as int);
                                        if cidx((q.0 as int, q.1 as int, q.2 as int), w as int) == k {
                                            lemma_cidx_injective(q, p, w as int);
                                        } else {
                                            assert(mo[cidx((q.0 as int, q.1 as int, q.2 as int), w as int)] != 2);
                                        }
                                    }
                                }
                            }
                        }
                        i = i + 1;
                    }
                    proof {
                        let last = (ray@.len() - 1) as int;
                        assert(ray@[last] == (x, y, z));
                        assert(in_grid(ray@[last], w as int));
                        assert(memo@[idx as int] != 2);
                        assert forall|q: Coord|
                            #![trigger memo@[cidx((q.0 as int, q.1 as int, q.2 as int), w as int)]]
                            in_grid(q, w as int) && visited_before(q, x as int, y as int, z as int)
                            implies memo@[cidx((q.0 as int, q.1 as int, q.2 as int), w as int)] != 2 by {
                            lemma_cidx_bound(q, w as int);
                            assert(m0[cidx((q.0 as int, q.1 as int, q.2 as int), w as int)] != 2);
                        }
                    }
                }
                proof {
                    assert(memo@ == memo_after(c0, offset, w as int, t + 1));
                    assert forall|q: Coord|
                        #![trigger memo@[cidx((q.0 as int, q.1 as int, q.2 as int), w as int)]]
                        in_grid(q, w as int) && visited_before(q, x as int, y as int, z + 1)
                        implies memo@[cidx((q.0 as int, q.1 as int, q.2 as int), w as int)] != 2 by {
                        if q == (x, y, z) {
                        }
                    }
                }
                z = z + 1;
            }
            proof {
                assert(((y as int) * (w as int) + x) * (w as int) + w == ((y as int) * (w as int) + (x + 1)) * (w as int))
                    by (nonlinear_arith);
            }
            x = x + 1;
        }
        proof {
            assert(((y as int) * (w as int) + w) * (w as int) == (y as int + 1) * (w as int) * (w as int))
                by (nonlinear_arith);
        }
        y = y + 1;
    }
    proof {
        assert forall|q: Coord|
            #![trigger memo@[cidx((q.0 as int, q.1 as int, q.2 as int), w as int)]]
            in_grid(q, w as int) implies memo@[cidx((q.0 as int, q.1 as int, q.2 as int), w as int)] != 2
                && level_ok(c0, q, memo@[cidx((q.0 as int, q.1 as int, q.2 as int), w as int)]) by {
            assert(q.1 < y);
        }
    }
    let mut x: i32 = 0;
    while x < wi
        invariant
            chunk.wf(),
            chunk.voxels() == c0.voxels(),
            chunk.position_spec() == c0.position_spec(),
            chunk.light_map().depth_spec() == c0.light_map().depth_spec(),
            c0.wf(),
            wi == w,
            w == c0.voxels().width_spec(),
            1 <= w <= 1024,
            n == w * w * w,
            memo@.len() == n,
            memo@ == memo_after(c0, offset, w as int, (w * w * w) as int),
            n == c0.voxels().width_spec() * c0.voxels().width_spec() * c0.voxels().width_spec(),
            forall|k: int| 0 <= k < n ==> #[trigger] memo@[k] <= 2,
            forall|q: Coord|
                #![trigger memo@[cidx((q.0 as int, q.1 as int, q.2 as int), w as int)]]
                in_grid(q, w as int) ==> memo@[cidx((q.0 as int, q.1 as int, q.2 as int), w as int)] != 2
                    && level_ok(c0, q, memo@[cidx((q.0 as int, q.1 as int, q.2 as int), w as int)]),
            0 <= x <= wi,
            forall|c: Coord|
                0 <= c.0 < x && 0 <= c.1 < wi && 0 <= c.2 < wi ==> #[trigger] lit_ok(chunk.light_map(), c0, c),
            forall|c: Coord|
                0 <= c.0 < x && 0 <= c.1 < wi && 0 <= c.2 < wi ==> #[trigger] exact_ok(chunk.light_map(), c0, offset, c),
        decreases wi - x,
    {
        let mut y: i32 = 0;
        while y < wi
            invariant
                chunk.wf(),
                chunk.voxels() == c0.voxels(),
                chunk.position_spec() == c0.position_spec(),
                chunk.light_map().depth_spec() == c0.light_map().depth_spec(),
                c0.wf(),
                wi == w,
                w == c0.voxels().width_spec(),
                1 <= w <= 1024,
                n == w * w * w,
                memo@.len() == n,
            memo@ == memo_after(c0, offset, w as int, (w * w * w) as int),
            n == c0.voxels().width_spec() * c0.voxels().width_spec() * c0.voxels().width_spec(),
                forall|k: int| 0 <= k < n ==> #[trigger] memo@[k] <= 2,
                forall|q: Coord|
                    #![trigger memo@[cidx((q.0 as int, q.1 as int, q.2 as int), w as int)]]
                    in_grid(q, w as int) ==> memo@[cidx((q.0 as int, q.1 as int, q.2 as int), w as int)] != 2
                        && level_ok(c0, q, memo@[cidx((q.0 as int, q.1 as int, q.2 as int), w as int)]),
                0 <= x < wi,
                0 <= y <= wi,
                forall|c: Coord|
                    0 <= c.0 < wi && 0 <= c.1 < wi && 0 <= c.2 < wi && (c.0 < x || (c.0 == x && c.1 < y))
                        ==> #[trigger] lit_ok(chunk.light_map(), c0, c),
                forall|c: Coord|
                    0 <= c.0 < wi && 0 <= c.1 < wi && 0 <= c.2 < wi && (c.0 < x || (c.0 == x && c.1 < y))
                        ==> #[trigger] exact_ok(chunk.light_map(), c0, offset, c),
            decreases wi - y,
        {
            let mut z: i32 = 0;
            while z < wi
                invariant
                    chunk.wf(),
                    chunk.voxels() == c0.voxels(),
                    chunk.position_spec() == c0.position_spec(),
                    chunk.light_map().depth_spec() == c0.light_map().depth_spec(),
                    c0.wf(),
                    wi == w,
                    w == c0.voxels().width_spec(),
                    1 <= w <= 1024,
                    n == w * w * w,
                    memo@.len() == n,
            memo@ == memo_after(c0, offset, w as int, (w * w * w) as int),
            n == c0.voxels().width_spec() * c0.voxels().width_spec() * c0.voxels().width_spec(),
                    forall|k: int| 0 <= k < n ==> #[trigger] memo@[k] <= 2,
                    forall|q: Coord|
                        #![trigger memo@[cidx((q.0 as int, q.1 as int, q.2 as int), w as int)]]
                        in_grid(q, w as int) ==> memo@[cidx((q.0 as int, q.1 as int, q.2 as int), w as int)] != 2
                            && level_ok(c0, q, memo@[cidx((q.0 as int, q.1 as int, q.2 as int), w as int)]),
                    0 <= x < wi,
                    0 <= y < wi,
                    0 <= z <= wi,
                    forall|c: Coord|
                        0 <= c.0 < wi && 0 <= c.1 < wi && 0 <= c.2 < wi && (c.0 < x || (c.0 == x && c.1 < y)
                            || (c.0 == x && c.1 == y && c.2 < z)) ==> #[trigger] lit_ok(chunk.light_map(), c0, c),
                    forall|c: Coord|
                        0 <= c.0 < wi && 0 <= c.1 < wi && 0 <= c.2 < wi && (c.0 < x || (c.0 == x && c.1 < y)
                            || (c.0 == x && c.1 == y && c.2 < z)) ==> #[trigger] exact_ok(chunk.light_map(), c0, offset, c),
                decreases wi - z,
            {
                let idx = cell_index(x, y, z, w);
                let v: u8 = if memo[idx] == 1 {
                    1
                } else {
                    0
                };
                proof {
                    assert(in_grid((x, y, z), w as int));
                    assert(level_ok(c0, (x, y, z), memo@[idx as int]));
                    assert(v == memo@[idx as int]);
                }
                let ghost before = *chunk;
                chunk.insert_light((x, y, z), v);
                proof {
                    chunk.lemma_wf();
                    before.lemma_wf();
                    c0.lemma_wf();
                    crate::lod_tree::lemma_same_depth_bounds(c0.voxels(), before.light_map(), (x, y, z));
                    crate::lod_tree::lemma_width_bound(before.light_map());
                    crate::lod_tree::lemma_width_bound(c0.voxels());
                    crate::lod_tree::lemma_in_bounds(before.light_map(), (x, y, z));
                    crate::lod_tree::lemma_insert_then_get(before.light_map(), (x, y, z), v, chunk.light_map());
                    assert forall|c: Coord|
                        0 <= c.0 < wi && 0 <= c.1 < wi && 0 <= c.2 < wi && (c.0 < x || (c.0 == x && c.1 < y)
                            || (c.0 == x && c.1 == y && c.2 <= z)) implies #[trigger] lit_ok(chunk.light_map(), c0, c) by {
                        if c != (x, y, z) {
                            assert(lit_ok(before.light_map(), c0, c));
                        }
                    }
                    assert(light_level_spec(c0, offset, (x, y, z)) == v);
                    assert forall|c: Coord|
                        0 <= c.0 < wi && 0 <= c.1 < wi && 0 <= c.2 < wi && (c.0 < x || (c.0 == x && c.1 < y)
                            || (c.0 == x && c.1 == y && c.2 <= z)) implies #[trigger] exact_ok(chunk.light_map(), c0, offset, c) by {
                        if c != (x, y, z) {
                            assert(exact_ok(before.light_map(), c0, offset, c));
                        }
                    }
                }
                z = z + 1;
            }
            y = y + 1;
        }
        x = x + 1;
    }
    proof {
        assert forall|c: Coord| c0.voxels().in_bounds(c) implies #[trigger] lit_ok(chunk.light_map(), c0, c) by {
            crate::lod_tree::lemma_in_bounds(c0.voxels(), c);
        }
        assert forall|c: Coord| c0.voxels().in_bounds(c) implies #[trigger] exact_ok(chunk.light_map(), c0, offset, c) by {
            crate::lod_tree::lemma_in_bounds(c0.voxels(), c);
        }
    }
    let ghost lit = *chunk;
    chunk.set_light(true);
    proof {
        assert forall|c: Coord| c0.voxels().in_bounds(c) implies #[trigger] lit_ok(chunk.light_map(), c0, c) by {
            assert(lit_ok(lit.light_map(), c0, c));
        }
        assert forall|c: Coord| c0.voxels().in_bounds(c) implies #[trigger] exact_ok(chunk.light_map(), c0, offset, c) by {
            assert(exact_ok(lit.light_map(), c0, offset, c));
        }
        assert forall|c: Coord| c0.voxels().in_bounds(c) implies #[trigger] level_set(chunk.light_map(), c) by {
            assert(lit_ok(chunk.light_map(), c0, c));
        }
        assert forall|c: Coord| c0.voxels().in_bounds(c) && c0.voxels().read(c) is Some
            implies #[trigger] chunk.light_map().get_spec(c) == Some(0u8) by {
            assert(lit_ok(chunk.light_map(), c0, c));
            assert(occupied(c0, c));
        }
        if forall|d: Coord| #[trigger] c0.voxels().read(d) is None {
            assert forall|c: Coord| c0.voxels().in_bounds(c)
                implies #[trigger] chunk.light_map().get_spec(c) == Some(1u8) by {
                assert(lit_ok(chunk.light_map(), c0, c));
                assert forall|d: Coord| !#[trigger] occupied(c0, d) by {
                    assert(c0.voxels().read(d) is None);
                }
            }
        }
    }
}

} // verus!
