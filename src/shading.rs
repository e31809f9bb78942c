//! The second lighting pass, up to its floating-point step: whether a chunk's
//! neighbours are ready, and the 3x3x3 light sums that shading averages.
use vstd::prelude::*;

use crate::lod_tree::Voxel;
use crate::updates::{Coord, around, around_fits};
use crate::world::ChunkMap;

verus! {

/// Every chunk that exists among the 27 around `pos` (itself included), for
/// chunks of side `w`, has its light map.
pub open spec fn neighbours_lit_spec<T: Voxel>(map: ChunkMap<T>, pos: Coord, w: int) -> bool {
    forall|i: int|
        0 <= i < 27 && map.has(around(pos, w, i)) ==> #[trigger] map.chunk_at(around(pos, w, i)).has_light_spec()
}

/// Whether every existing neighbour of the chunk at `pos` has its light map;
/// shading waits until it does.
pub fn neighbours_lit<T: Voxel>(map: &ChunkMap<T>, pos: Coord, w: i32) -> (r: bool)
    requires
        map.wf(),
        around_fits(pos, w),
    ensures
        r == neighbours_lit_spec(*map, pos, w as int),
{
    let mut i: i32 = 0;
    while i < 27
        invariant
            0 <= i <= 27,
            map.wf(),
            around_fits(pos, w),
            forall|j: int|
                0 <= j < i && map.has(around(pos, w as int, j)) ==> #[trigger] map.chunk_at(
                    around(pos, w as int, j),
                ).has_light_spec(),
        decreases 27 - i,
    {
        let dx: i32 = i / 9 - 1;
        let dy: i32 = (i / 3) % 3 - 1;
        let dz: i32 = i % 3 - 1;
        proof {
            assert(-w <= dx * w <= w && -w <= dy * w <= w && -w <= dz * w <= w) by (nonlinear_arith)
                requires
                    -1 <= dx <= 1,
                    -1 <= dy <= 1,
                    -1 <= dz <= 1,
                    w >= 0,
            ;
        }
        let p: Coord = (pos.0 + dx * w, pos.1 + dy * w, pos.2 + dz * w);
        proof {
            assert(p == around(pos, w as int, i as int));
        }
        if let Some(c) = map.get(p) {
            if !c.has_light() {
                return false;
            }
        }
        i = i + 1;
    }
    true
}

/// Offset `i` of the 27 in a 3x3x3 box, each axis -1, 0 or 1.
pub open spec fn box_offset(i: int) -> (int, int, int) {
    (i / 9 - 1, (i / 3) % 3 - 1, i % 3 - 1)
}

/// The chunk that holds point `s`, given in local coordinates of the chunk at
/// `pos` of side `w`.
pub open spec fn owner_of(pos: Coord, w: int, s: (int, int, int)) -> Coord {
    ((pos.0 + (s.0 / w) * w) as i32, (pos.1 + (s.1 / w) * w) as i32, (pos.2 + (s.2 / w) * w) as i32)
}

/// Point `s` in local coordinates of the chunk that holds it.
pub open spec fn local_of(w: int, s: (int, int, int)) -> Coord {
    ((s.0 % w) as i32, (s.1 % w) as i32, (s.2 % w) as i32)
}

/// The light level at point `s`, read in whichever chunk holds it.
pub open spec fn sample_at<T: Voxel>(map: ChunkMap<T>, pos: Coord, w: int, s: (int, int, int)) -> Option<u8> {
    let o = owner_of(pos, w, s);
    if map.has(o) {
        map.chunk_at(o).light_map().get_spec(local_of(w, s))
    } else {
        None
    }
}

/// Sum and count of the light levels found at the first `i` offsets of the
/// 3x3x3 box around `c`.
pub open spec fn box_acc<T: Voxel>(map: ChunkMap<T>, pos: Coord, w: int, c: (int, int, int), i: int) -> (
    nat,
    nat,
)
    decreases i,
{
    if i <= 0 {
        (0, 0)
    } else {
        let prev = box_acc(map, pos, w, c, i - 1);
        let d = box_offset(i - 1);
        match sample_at(map, pos, w, (c.0 + d.0, c.1 + d.1, c.2 + d.2)) {
            Some(v) => ((prev.0 + v) as nat, prev.1 + 1),
            None => prev,
        }
    }
}

/// Sum and count of the light levels in the 3x3x3 box around `c`.
pub open spec fn box_sum_count<T: Voxel>(map: ChunkMap<T>, pos: Coord, w: int, c: (int, int, int)) -> (nat, nat) {
    box_acc(map, pos, w, c, 27)
}

/// The cell of the padded grid of side `w + 2` stored at index `k`, in local
/// coordinates (the padding is at -1 and `w`).
pub open spec fn padded_cell(w: int, k: int) -> (int, int, int) {
    let lw = w + 2;
    (k / (lw * lw) - 1, (k / lw) % lw - 1, k % lw - 1)
}

proof fn lemma_box_acc_bound<T: Voxel>(map: ChunkMap<T>, pos: Coord, w: int, c: (int, int, int), i: int)
    requires
        0 <= i <= 27,
    ensures
        box_acc(map, pos, w, c, i).0 <= 255 * i,
        box_acc(map, pos, w, c, i).1 <= i,
    decreases i,
{
    if i > 0 {
        lemma_box_acc_bound(map, pos, w, c, i - 1);
    }
}

/// `s` split into how many chunk widths it lies from the origin chunk, and the rest.
fn split_axis(s: i32, w: i32) -> (r: (i32, i32))
    requires
        1 <= w <= 1024,
        -2 * w <= s < 3 * w,
    ensures
        r.0 as int == s as int / w as int,
        r.1 as int == s as int % w as int,
        -2 <= r.0 <= 2,
{
    let r = if s < -w {
        (-2, s + 2 * w)
    } else if s < 0 {
        (-1, s + w)
    } else if s < w {
        (0, s)
    } else if s < 2 * w {
        (1, s - w)
    } else {
        (2, s - 2 * w)
    };
    proof {
        vstd::arithmetic::div_mod::lemma_fundamental_div_mod_converse(s as int, w as int, r.0 as int, r.1 as int);
    }
    r
}

/// The light level at local point `s` of the chunk at `pos`.
fn sample<T: Voxel>(map: &ChunkMap<T>, pos: Coord, w: i32, s: (i32, i32, i32)) -> (r: Option<u8>)
    requires
        map.wf(),
        1 <= w <= 1024,
        around_fits(pos, 4096),
        -2 * w <= s.0 < 3 * w,
        -2 * w <= s.1 < 3 * w,
        -2 * w <= s.2 < 3 * w,
    ensures
        r == sample_at(*map, pos, w as int, (s.0 as int, s.1 as int, s.2 as int)),
{
    let (qx, rx) = split_axis(s.0, w);
    let (qy, ry) = split_axis(s.1, w);
    let (qz, rz) = split_axis(s.2, w);
    proof {
        assert(-2 * w <= qx * w <= 2 * w && -2 * w <= qy * w <= 2 * w && -2 * w <= qz * w <= 2 * w)
            by (nonlinear_arith)
            requires
                -2 <= qx <= 2,
                -2 <= qy <= 2,
                -2 <= qz <= 2,
                w >= 1,
        ;
    }
    let o: Coord = (pos.0 + qx * w, pos.1 + qy * w, pos.2 + qz * w);
    match map.get(o) {
        Some(c) => c.light((rx, ry, rz)),
        None => None,
    }
}

/// The sum and count of the light levels in the 3x3x3 box around the cell at
/// local `c` of the chunk at `pos`.
fn box_light<T: Voxel>(map: &ChunkMap<T>, pos: Coord, w: i32, c: (i32, i32, i32)) -> (r: (u32, u32))
    requires
        map.wf(),
        1 <= w <= 1024,
        around_fits(pos, 4096),
        -1 <= c.0 <= w && -1 <= c.1 <= w && -1 <= c.2 <= w,
    ensures
        r.0 as int == box_sum_count(*map, pos, w as int, (c.0 as int, c.1 as int, c.2 as int)).0,
        r.1 as int == box_sum_count(*map, pos, w as int, (c.0 as int, c.1 as int, c.2 as int)).1,
{
    let ghost ci = (c.0 as int, c.1 as int, c.2 as int);
    let mut sum: u32 = 0;
    let mut count: u32 = 0;
    let mut i: i32 = 0;
    while i < 27
        invariant
            0 <= i <= 27,
            map.wf(),
            1 <= w <= 1024,
            around_fits(pos, 4096),
            -1 <= c.0 <= w && -1 <= c.1 <= w && -1 <= c.2 <= w,
            ci == (c.0 as int, c.1 as int, c.2 as int),
            sum as int == box_acc(*map, pos, w as int, ci, i as int).0,
            count as int == box_acc(*map, pos, w as int, ci, i as int).1,
        decreases 27 - i,
    {
        proof {
            lemma_box_acc_bound(*map, pos, w as int, ci, i as int);
        }
        let s = (c.0 + (i / 9 - 1), c.1 + ((i / 3) % 3 - 1), c.2 + (i % 3 - 1));
        if let Some(v) = sample(map, pos, w, s) {
            sum = sum + v as u32;
            count = count + 1;
        }
        i = i + 1;
    }
    (sum, count)
}

proof fn lemma_padded_cell(a: int, b: int, d: int, lw: int)
    requires
        lw >= 1,
        0 <= a < lw,
        0 <= b < lw,
        0 <= d < lw,
    ensures
        padded_cell(lw - 2, (a * lw + b) * lw + d) == (a - 1, b - 1, d - 1),
        0 <= (a * lw + b) * lw + d < lw * lw * lw,
{
    let k = (a * lw + b) * lw + d;
    let h = a * lw + b;
    assert(0 <= h < lw * lw) by (nonlinear_arith)
        requires
            0 <= a < lw,
            0 <= b < lw,
            h == a * lw + b,
    ;
    assert(0 <= k < lw * lw * lw) by (nonlinear_arith)
        requires
            0 <= h < lw * lw,
            0 <= d < lw,
            k == h * lw + d,
    ;
    vstd::arithmetic::div_mod::lemma_fundamental_div_mod_converse(k, lw, h, d);
    vstd::arithmetic::div_mod::lemma_fundamental_div_mod_converse(h, lw, a, b);
    assert(k == a * (lw * lw) + (b * lw + d)) by (nonlinear_arith)
        requires
            k == (a * lw + b) * lw + d,
    ;
    assert(0 <= b * lw + d < lw * lw) by (nonlinear_arith)
        requires
            0 <= b < lw,
            0 <= d < lw,
    ;
    vstd::arithmetic::div_mod::lemma_fundamental_div_mod_converse(k, lw * lw, a, b * lw + d);
}

/// The light sums of the chunk at `pos`: for each cell of the padded grid of
/// side `w + 2` (local coordinates -1 to `w`), the sum and count of the light
/// levels in the 3x3x3 box around it, read across chunk boundaries. `None`
/// while some neighbour lacks its light map.
pub fn smooth_light<T: Voxel>(map: &ChunkMap<T>, pos: Coord) -> (r: Option<Vec<(u32, u32)>>)
    requires
        map.wf(),
        map.has(pos),
        around_fits(pos, 4096),
    ensures
        ({
            let w = map.chunk_at(pos).voxels().width_spec() as int;
            &&& r is None <==> !neighbours_lit_spec(*map, pos, w)
            &&& r matches Some(v) ==> {
                &&& v@.len() == (w + 2) * (w + 2) * (w + 2)
                &&& forall|k: int|
                    0 <= k < v@.len() ==> (#[trigger] v@[k]).0 == box_sum_count(*map, pos, w, padded_cell(w, k)).0
                        && v@[k].1 == box_sum_count(*map, pos, w, padded_cell(w, k)).1
            }
        }),
{
    let chunk = map.get(pos).unwrap();
    let w = chunk.width() as i32;
    proof {
        chunk.lemma_wf();
        crate::lod_tree::lemma_width_bound(chunk.voxels());
    }
    if !neighbours_lit(map, pos, w) {
        return None;
    }
    let lw = w + 2;
    let ghost wi = w as int;
    let mut out: Vec<(u32, u32)> = Vec::new();
    let mut a: i32 = 0;
    while a < lw
        invariant
            map.wf(),
            1 <= w <= 1024,
            lw == w + 2,
            wi == w as int,
            around_fits(pos, 4096),
            0 <= a <= lw,
            out@.len() == a * lw * lw,
            forall|k: int|
                0 <= k < out@.len() ==> (#[trigger] out@[k]).0 == box_sum_count(*map, pos, wi, padded_cell(wi, k)).0
                    && out@[k].1 == box_sum_count(*map, pos, wi, padded_cell(wi, k)).1,
        decreases lw - a,
    {
        let mut b: i32 = 0;
        while b < lw
            invariant
                map.wf(),
                1 <= w <= 1024,
                lw == w + 2,
                wi == w as int,
                around_fits(pos, 4096),
                0 <= a < lw,
                0 <= b <= lw,
                out@.len() == (a * lw + b) * lw,
                forall|k: int|
                    0 <= k < out@.len() ==> (#[trigger] out@[k]).0 == box_sum_count(*map, pos, wi, padded_cell(wi, k)).0
                        && out@[k].1 == box_sum_count(*map, pos, wi, padded_cell(wi, k)).1,
            decreases lw - b,
        {
            let mut d: i32 = 0;
            while d < lw
                invariant
                    map.wf(),
                    1 <= w <= 1024,
                    lw == w + 2,
                    wi == w as int,
                    around_fits(pos, 4096),
                    0 <= a < lw,
                    0 <= b < lw,
                    0 <= d <= lw,
                    out@.len() == (a * lw + b) * lw + d,
                    forall|k: int|
                        0 <= k < out@.len() ==> (#[trigger] out@[k]).0 == box_sum_count(*map, pos, wi, padded_cell(wi, k)).0
                            && out@[k].1 == box_sum_count(*map, pos, wi, padded_cell(wi, k)).1,
                decreases lw - d,
            {
                let sc = box_light(map, pos, w, (a - 1, b - 1, d - 1));
                proof {
                    lemma_padded_cell(a as int, b as int, d as int, lw as int);
                    assert(lw - 2 == wi);
                }
                let ghost before = out@;
                out.push(sc);
                proof {
                    assert forall|k: int|
                        0 <= k < out@.len() implies (#[trigger] out@[k]).0 == box_sum_count(*map, pos, wi, padded_cell(wi, k)).0
                            && out@[k].1 == box_sum_count(*map, pos, wi, padded_cell(wi, k)).1 by {
                        if k < before.len() {
                            assert(out@[k] == before[k]);
                        }
                    }
                }
                d = d + 1;
            }
            proof {
                assert((a * lw + b) * lw + lw == (a * lw + (b + 1)) * lw) by (nonlinear_arith);
            }
            b = b + 1;
        }
        proof {
            assert((a * lw + lw) * lw == (a + 1) * lw * lw) by (nonlinear_arith);
        }
        a = a + 1;
    }
    proof {
        assert(lw * lw * lw == (wi + 2) * (wi + 2) * (wi + 2));
    }
    Some(out)
}

/// For each face in the order top, bottom, front, back, left, right: the
/// index in the padded grid of side `w + 2` of the cell the face looks onto.
pub open spec fn face_sample_index(w: int, c: (int, int, int), k: int) -> int {
    let lw = w + 2;
    let d = if k == 0 {
        (0, 1, 0)
    } else if k == 1 {
        (0, -1, 0)
    } else if k == 2 {
        (0, 0, 1)
    } else if k == 3 {
        (0, 0, -1)
    } else if k == 4 {
        (1, 0, 0)
    } else {
        (-1, 0, 0)
    };
    ((c.0 + d.0 + 1) * lw + (c.1 + d.1 + 1)) * lw + (c.2 + d.2 + 1)
}

/// The light sums that the six faces of the cell at local `c` are shaded
/// from, in face order top, bottom, front, back, left, right.
pub fn face_samples(sums: &Vec<(u32, u32)>, w: i32, c: (i32, i32, i32)) -> (r: Vec<(u32, u32)>)
    requires
        1 <= w <= 1024,
        sums@.len() == (w + 2) * (w + 2) * (w + 2),
        0 <= c.0 < w && 0 <= c.1 < w && 0 <= c.2 < w,
    ensures
        r@.len() == 6,
        forall|k: int| 0 <= k < 6 ==> #[trigger] r@[k] == sums@[face_sample_index(w as int, (c.0 as int, c.1 as int, c.2 as int), k)],
{
    let lw = w + 2;
    let mut out: Vec<(u32, u32)> = Vec::new();
    let mut k: i32 = 0;
    while k < 6
        invariant
            0 <= k <= 6,
            1 <= w <= 1024,
            lw == w + 2,
            sums@.len() == lw * lw * lw,
            0 <= c.0 < w && 0 <= c.1 < w && 0 <= c.2 < w,
            out@.len() == k,
            forall|j: int| 0 <= j < k ==> #[trigger] out@[j] == sums@[face_sample_index(w as int, (c.0 as int, c.1 as int, c.2 as int), j)],
        decreases 6 - k,
    {
        let (dx, dy, dz): (i32, i32, i32) = if k == 0 {
            (0, 1, 0)
        } else if k == 1 {
            (0, -1, 0)
        } else if k == 2 {
            (0, 0, 1)
        } else if k == 3 {
            (0, 0, -1)
        } else if k == 4 {
            (1, 0, 0)
        } else {
            (-1, 0, 0)
        };
        let (a, b, d) = (c.0 + dx + 1, c.1 + dy + 1, c.2 + dz + 1);
        proof {
            lemma_padded_cell(a as int, b as int, d as int, lw as int);
            assert(0 <= a * lw + b < lw * lw) by (nonlinear_arith)
                requires
                    0 <= a < lw,
                    0 <= b < lw,
            ;
            assert(lw * lw <= 1026 * 1026) by (nonlinear_arith)
                requires
                    1 <= lw <= 1026,
            ;
            assert(a * lw <= lw * lw) by (nonlinear_arith)
                requires
                    0 <= a < lw,
            ;
            assert((a * lw + b) * lw <= lw * lw * lw) by (nonlinear_arith)
                requires
                    0 <= a * lw + b < lw * lw,
                    lw >= 1,
            ;
            assert(lw * lw * lw <= 1026 * 1026 * 1026) by (nonlinear_arith)
                requires
                    1 <= lw <= 1026,
                    lw * lw <= 1026 * 1026,
            ;
        }
        let idx = ((a * lw + b) * lw + d) as usize;
        out.push(sums[idx]);
        k = k + 1;
    }
    out
}

} // verus!
