//! Morton (bit-interleaved) indexing of a cubic grid of side `2^depth`.
//!
//! Each tree level contributes one bit of each axis; the three bits of a level
//! form one octal digit of the index, the finest level being the lowest digit.
use vstd::prelude::*;

verus! {

/// Largest supported tree depth: a grid of side 1024 holds 2^30 cells.
pub const MAX_DEPTH: usize = 10;

pub open spec fn pow2(d: nat) -> nat
    decreases d,
{
    if d == 0 {
        1
    } else {
        2 * pow2((d - 1) as nat)
    }
}

pub open spec fn pow8(d: nat) -> nat
    decreases d,
{
    if d == 0 {
        1
    } else {
        8 * pow8((d - 1) as nat)
    }
}

/// The octal digit that one level contributes: bit 0 from x, bit 1 from y, bit 2 from z.
pub open spec fn digit(x: int, y: int, z: int) -> int {
    x % 2 + 2 * (y % 2) + 4 * (z % 2)
}

/// Morton index of `(x, y, z)` over `d` levels.
pub open spec fn morton(x: int, y: int, z: int, d: nat) -> int
    decreases d,
{
    if d == 0 {
        0
    } else {
        digit(x, y, z) + 8 * morton(x / 2, y / 2, z / 2, (d - 1) as nat)
    }
}

/// One axis of the coordinate that index `k` stands for; `s` is 1, 2 or 4 for x, y or z.
pub open spec fn axis(k: int, s: int, d: nat) -> int
    decreases d,
{
    if d == 0 {
        0
    } else {
        (k % 8) / s % 2 + 2 * axis(k / 8, s, (d - 1) as nat)
    }
}

pub open spec fn in_cube(x: int, y: int, z: int, d: nat) -> bool {
    0 <= x < pow2(d) && 0 <= y < pow2(d) && 0 <= z < pow2(d)
}

pub proof fn lemma_pow_facts(d: nat)
    ensures
        pow2(d) >= 1,
        pow8(d) >= 1,
        pow8(d) == pow2(d) * pow2(d) * pow2(d),
        d <= 10 ==> pow2(d) <= 1024 && pow8(d) <= 0x4000_0000,
    decreases d,
{
    if d > 0 {
        lemma_pow_facts((d - 1) as nat);
        let p = pow2((d - 1) as nat);
        assert(8 * (p * p * p) == (2 * p) * (2 * p) * (2 * p)) by (nonlinear_arith);
    }
    if d <= 10 {
        lemma_pow8_monotone(d, 10);
        reveal_with_fuel(pow2, 11);
        reveal_with_fuel(pow8, 11);
    }
}

pub proof fn lemma_pow8_monotone(a: nat, b: nat)
    requires
        a <= b,
    ensures
        pow8(a) <= pow8(b),
        pow2(a) <= pow2(b),
    decreases b,
{
    if a < b {
        lemma_pow8_monotone(a, (b - 1) as nat);
    }
}

proof fn lemma_digit_bits(x: int, y: int, z: int)
    ensures
        0 <= digit(x, y, z) < 8,
        digit(x, y, z) / 1 % 2 == x % 2,
        digit(x, y, z) / 2 % 2 == y % 2,
        digit(x, y, z) / 4 % 2 == z % 2,
{
    let a = x % 2;
    let b = y % 2;
    let c = z % 2;
    assert(0 <= a < 2 && 0 <= b < 2 && 0 <= c < 2);
    if a == 0 && b == 0 && c == 0 {
    } else if a == 0 && b == 0 && c == 1 {
    } else if a == 0 && b == 1 && c == 0 {
    } else if a == 0 && b == 1 && c == 1 {
    } else if a == 1 && b == 0 && c == 0 {
    } else if a == 1 && b == 0 && c == 1 {
    } else if a == 1 && b == 1 && c == 0 {
    } else {
    }
}

pub proof fn lemma_morton_bounds(x: int, y: int, z: int, d: nat)
    requires
        in_cube(x, y, z, d),
    ensures
        0 <= morton(x, y, z, d) < pow8(d),
    decreases d,
{
    if d > 0 {
        lemma_digit_bits(x, y, z);
        lemma_morton_bounds(x / 2, y / 2, z / 2, (d - 1) as nat);
    }
}

/// Reading the axes back out of a Morton index gives the coordinate.
pub proof fn lemma_axis_of_morton(x: int, y: int, z: int, d: nat)
    requires
        in_cube(x, y, z, d),
    ensures
        axis(morton(x, y, z, d), 1, d) == x,
        axis(morton(x, y, z, d), 2, d) == y,
        axis(morton(x, y, z, d), 4, d) == z,
    decreases d,
{
    if d > 0 {
        let m = morton(x / 2, y / 2, z / 2, (d - 1) as nat);
        let b = digit(x, y, z);
        let k = b + 8 * m;
        lemma_digit_bits(x, y, z);
        lemma_morton_bounds(x / 2, y / 2, z / 2, (d - 1) as nat);
        vstd::arithmetic::div_mod::lemma_fundamental_div_mod_converse(k, 8, m, b);
        lemma_axis_of_morton(x / 2, y / 2, z / 2, (d - 1) as nat);
    }
}

/// Every index of the cube is the Morton index of its own axes.
pub proof fn lemma_morton_of_axis(k: int, d: nat)
    requires
        0 <= k < pow8(d),
    ensures
        in_cube(axis(k, 1, d), axis(k, 2, d), axis(k, 4, d), d),
        morton(axis(k, 1, d), axis(k, 2, d), axis(k, 4, d), d) == k,
    decreases d,
{
    if d > 0 {
        let q = k / 8;
        let r = k % 8;
        lemma_morton_of_axis(q, (d - 1) as nat);
        let x = axis(k, 1, d);
        let y = axis(k, 2, d);
        let z = axis(k, 4, d);
        let qx = axis(q, 1, (d - 1) as nat);
        let qy = axis(q, 2, (d - 1) as nat);
        let qz = axis(q, 4, (d - 1) as nat);
        assert(x == r / 1 % 2 + 2 * qx);
        assert(x % 2 == r / 1 % 2 && x / 2 == qx);
        assert(y % 2 == r / 2 % 2 && y / 2 == qy);
        assert(z % 2 == r / 4 % 2 && z / 2 == qz);
        assert(digit(x, y, z) == r) by {
            assert(0 <= r < 8);
            if r == 0 {
            } else if r == 1 {
            } else if r == 2 {
            } else if r == 3 {
            } else if r == 4 {
            } else if r == 5 {
            } else if r == 6 {
            } else {
            }
        }
    }
}

/// Distinct points of the cube have distinct Morton indices.
pub proof fn lemma_morton_injective(a: (int, int, int), b: (int, int, int), d: nat)
    requires
        in_cube(a.0, a.1, a.2, d),
        in_cube(b.0, b.1, b.2, d),
        morton(a.0, a.1, a.2, d) == morton(b.0, b.1, b.2, d),
    ensures
        a == b,
{
    lemma_axis_of_morton(a.0, a.1, a.2, d);
    lemma_axis_of_morton(b.0, b.1, b.2, d);
}

/// Morton index of an in-bounds point of a cube of side `2^depth`.
pub fn depth_index(x: i32, y: i32, z: i32, depth: usize) -> (r: usize)
    requires
        depth <= MAX_DEPTH,
        in_cube(x as int, y as int, z as int, depth as nat),
    ensures
        r as int == morton(x as int, y as int, z as int, depth as nat),
        r < pow8(depth as nat),
{
    proof {
        lemma_pow_facts(depth as nat);
        lemma_morton_bounds(x as int, y as int, z as int, depth as nat);
    }
    let mut cx: i32 = x;
    let mut cy: i32 = y;
    let mut cz: i32 = z;
    let mut idx: usize = 0;
    let mut mult: usize = 1;
    let mut i: usize = 0;
    while i < depth
        invariant
            i <= depth <= MAX_DEPTH,
            mult as nat == pow8(i as nat),
            in_cube(cx as int, cy as int, cz as int, (depth - i) as nat),
            0 <= idx < mult,
            morton(x as int, y as int, z as int, depth as nat) == idx + mult * morton(
                cx as int,
                cy as int,
                cz as int,
                (depth - i) as nat,
            ),
        decreases depth - i,
    {
        proof {
            lemma_pow8_monotone((i + 1) as nat, depth as nat);
            lemma_pow_facts((i + 1) as nat);
            lemma_digit_bits(cx as int, cy as int, cz as int);
            let rest = (depth - i - 1) as nat;
            assert(pow2((depth - i) as nat) == 2 * pow2(rest));
            let m = morton(cx as int / 2, cy as int / 2, cz as int / 2, rest);
            let dg = digit(cx as int, cy as int, cz as int);
            assert(mult * (dg + 8 * m) == mult * dg + (8 * mult) * m) by (nonlinear_arith);
            assert(idx + mult * dg < 8 * mult) by (nonlinear_arith)
                requires
                    0 <= idx < mult,
                    0 <= dg < 8,
            ;
        }
        let dg: usize = (cx % 2 + 2 * (cy % 2) + 4 * (cz % 2)) as usize;
        idx = idx + mult * dg;
        mult = mult * 8;
        cx = cx / 2;
        cy = cy / 2;
        cz = cz / 2;
        i = i + 1;
    }
    proof {
        assert(morton(cx as int, cy as int, cz as int, 0) == 0);
    }
    idx
}

/// The point whose Morton index is `idx`, in a cube of side `2^depth`.
pub fn array_index(idx: usize, depth: usize) -> (r: (i32, i32, i32))
    requires
        depth <= MAX_DEPTH,
        idx < pow8(depth as nat),
    ensures
        r.0 as int == axis(idx as int, 1, depth as nat),
        r.1 as int == axis(idx as int, 2, depth as nat),
        r.2 as int == axis(idx as int, 4, depth as nat),
        in_cube(r.0 as int, r.1 as int, r.2 as int, depth as nat),
        morton(r.0 as int, r.1 as int, r.2 as int, depth as nat) == idx,
{
    proof {
        lemma_pow_facts(depth as nat);
        lemma_morton_of_axis(idx as int, depth as nat);
    }
    let mut k: usize = idx;
    let mut x: i32 = 0;
    let mut y: i32 = 0;
    let mut z: i32 = 0;
    let mut p: i32 = 1;
    let mut i: usize = 0;
    while i < depth
        invariant
            i <= depth <= MAX_DEPTH,
            p as nat == pow2(i as nat),
            0 <= x < p && 0 <= y < p && 0 <= z < p,
            0 <= k < pow8((depth - i) as nat),
            axis(idx as int, 1, depth as nat) == x + p * axis(k as int, 1, (depth - i) as nat),
            axis(idx as int, 2, depth as nat) == y + p * axis(k as int, 2, (depth - i) as nat),
            axis(idx as int, 4, depth as nat) == z + p * axis(k as int, 4, (depth - i) as nat),
        decreases depth - i,
    {
        proof {
            lemma_pow8_monotone((i + 1) as nat, depth as nat);
            lemma_pow_facts((i + 1) as nat);
            let rest = (depth - i - 1) as nat;
            assert(pow8((depth - i) as nat) == 8 * pow8(rest));
            assert(k as int / 8 < pow8(rest));
            let b = k as int % 8;
            assert(0 <= b < 8);
        }
        let b: usize = k % 8;
        let bx: i32 = (b % 2) as i32;
        let by: i32 = (b / 2 % 2) as i32;
        let bz: i32 = (b / 4 % 2) as i32;
        proof {
            let rest = (depth - i - 1) as nat;
            let ki = k as int;
            assert(bx <= 1 && by <= 1 && bz <= 1);
            assert(p * bx <= p && p * by <= p && p * bz <= p) by (nonlinear_arith)
                requires
                    bx <= 1 && by <= 1 && bz <= 1 && p >= 1 && bx >= 0 && by >= 0 && bz >= 0,
            ;
            let (tx, ty, tz) = (axis(ki / 8, 1, rest), axis(ki / 8, 2, rest), axis(ki / 8, 4, rest));
            assert(p * (bx + 2 * tx) == p * bx + (2 * p) * tx) by (nonlinear_arith);
            assert(p * (by + 2 * ty) == p * by + (2 * p) * ty) by (nonlinear_arith);
            assert(p * (bz + 2 * tz) == p * bz + (2 * p) * tz) by (nonlinear_arith);
            assert(x + p * axis(k as int, 1, (depth - i) as nat) == (x + p * bx) + (2 * p) * axis(k as int / 8, 1, rest));
            assert(y + p * axis(k as int, 2, (depth - i) as nat) == (y + p * by) + (2 * p) * axis(k as int / 8, 2, rest));
            assert(z + p * axis(k as int, 4, (depth - i) as nat) == (z + p * bz) + (2 * p) * axis(k as int / 8, 4, rest));
        }
        x = x + p * bx;
        y = y + p * by;
        z = z + p * bz;
        p = p * 2;
        k = k / 8;
        i = i + 1;
    }
    (x, y, z)
}

} // verus!
