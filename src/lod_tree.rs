//! The LOD tree: an implicit, mergeable octree over a cube of side `2^depth`,
//! stored as a flat array of slots in Morton order.
//!
//! A slot is either a `Value` that owns a merged region or a `Ref` to the slot
//! that owns the region it lies in. A region of level `e` is the aligned block
//! of `8^e` slots whose first slot holds the `Value`, with width `2^e`; every
//! other slot of the block refers to it directly.
use vstd::prelude::*;

use crate::morton::{
    MAX_DEPTH, pow2, pow8, morton, axis, in_cube, lemma_pow_facts, lemma_pow8_monotone,
    lemma_morton_bounds, lemma_morton_injective, lemma_morton_of_axis, depth_index, array_index,
};

verus! {

/// What the tree asks of the values it stores.
pub trait Voxel: Sized + Copy {
    /// The value that stands for a sequence of raw values, `None` for none.
    spec fn average_of(data: Seq<Self>) -> Option<Self>;

    /// Whether equal neighbours of this value may share one merged region.
    spec fn mergeable(&self) -> bool;

    fn average(data: &Vec<Self>) -> (r: Option<Self>)
        requires
            data.len() <= 0x4000_0000,
        ensures
            r == Self::average_of(data@),
    ;

    fn can_merge(&self) -> (r: bool)
        ensures
            r == self.mergeable(),
    ;

    fn equals(&self, other: &Self) -> (r: bool)
        ensures
            r == (*self == *other),
    ;

    /// No value stands for no raw values.
    proof fn lemma_average_of_empty()
        ensures
            Self::average_of(Seq::empty()) is None,
    ;
}

/// Division that rounds toward zero, as Rust's integer division does.
pub open spec fn div_trunc(a: int, b: int) -> int {
    if a >= 0 {
        a / b
    } else {
        -((-a) / b)
    }
}

pub open spec fn sum_i32(s: Seq<i32>) -> int
    decreases s.len(),
{
    if s.len() == 0 {
        0
    } else {
        sum_i32(s.drop_last()) + s.last()
    }
}

proof fn lemma_sum_i32_bounds(s: Seq<i32>)
    ensures
        -0x8000_0000 * s.len() <= sum_i32(s) <= 0x7fff_ffff * s.len(),
    decreases s.len(),
{
    if s.len() > 0 {
        lemma_sum_i32_bounds(s.drop_last());
    }
}

impl Voxel for i32 {
    /// The mean, rounded toward zero.
    open spec fn average_of(data: Seq<i32>) -> Option<i32> {
        if data.len() == 0 {
            None
        } else {
            Some(div_trunc(sum_i32(data), data.len() as int) as i32)
        }
    }

    open spec fn mergeable(&self) -> bool {
        true
    }

    fn average(data: &Vec<i32>) -> (r: Option<i32>) {
        if data.len() == 0 {
            return None;
        }
        let mut sum: i64 = 0;
        let mut i: usize = 0;
        while i < data.len()
            invariant
                i <= data.len() <= 0x4000_0000,
                sum == sum_i32(data@.subrange(0, i as int)),
            decreases data.len() - i,
        {
            proof {
                let s = data@.subrange(0, i as int + 1);
                assert(s.drop_last() == data@.subrange(0, i as int));
                lemma_sum_i32_bounds(data@.subrange(0, i as int));
            }
            sum = sum + data[i] as i64;
            i = i + 1;
        }
        proof {
            assert(data@.subrange(0, i as int) == data@);
            lemma_sum_i32_bounds(data@);
        }
        let n = data.len() as i64;
        let avg: i64 = if sum >= 0 {
            sum / n
        } else {
            -((-sum) / n)
        };
        proof {
            let s = sum as int;
            let m = n as int;
            if s >= 0 {
                assert(s / m <= s / 1) by {
                    vstd::arithmetic::div_mod::lemma_div_is_ordered_by_denominator(s, 1, m);
                }
                assert(s <= 0x7fff_ffff * m);
                assert(s / m <= 0x7fff_ffff) by {
                    vstd::arithmetic::div_mod::lemma_div_is_ordered(s, 0x7fff_ffff * m, m);
                    vstd::arithmetic::div_mod::lemma_div_by_multiple(0x7fff_ffff, m);
                }
            } else {
                assert(-s <= 0x8000_0000 * m);
                assert((-s) / m <= 0x8000_0000) by {
                    vstd::arithmetic::div_mod::lemma_div_is_ordered(-s, 0x8000_0000 * m, m);
                    vstd::arithmetic::div_mod::lemma_div_by_multiple(0x8000_0000, m);
                }
                assert((-s) / m >= 0) by {
                    vstd::arithmetic::div_mod::lemma_div_pos_is_pos(-s, m);
                }
            }
        }
        Some(avg as i32)
    }

    fn can_merge(&self) -> (r: bool) {
        true
    }

    fn equals(&self, other: &i32) -> (r: bool) {
        *self == *other
    }

    proof fn lemma_average_of_empty() {
    }
}

pub open spec fn sum_u8(s: Seq<u8>) -> int
    decreases s.len(),
{
    if s.len() == 0 {
        0
    } else {
        sum_u8(s.drop_last()) + s.last()
    }
}

proof fn lemma_sum_u8_bounds(s: Seq<u8>)
    ensures
        0 <= sum_u8(s) <= 255 * s.len(),
    decreases s.len(),
{
    if s.len() > 0 {
        lemma_sum_u8_bounds(s.drop_last());
    }
}

/// Light levels: averaged by their mean, never merged.
impl Voxel for u8 {
    /// The mean, rounded down.
    open spec fn average_of(data: Seq<u8>) -> Option<u8> {
        if data.len() == 0 {
            None
        } else {
            Some((sum_u8(data) / data.len() as int) as u8)
        }
    }

    open spec fn mergeable(&self) -> bool {
        false
    }

    fn average(data: &Vec<u8>) -> (r: Option<u8>) {
        if data.len() == 0 {
            return None;
        }
        let mut sum: u64 = 0;
        let mut i: usize = 0;
        while i < data.len()
            invariant
                i <= data.len() <= 0x4000_0000,
                sum == sum_u8(data@.subrange(0, i as int)),
            decreases data.len() - i,
        {
            proof {
                let s = data@.subrange(0, i as int + 1);
                assert(s.drop_last() == data@.subrange(0, i as int));
                lemma_sum_u8_bounds(data@.subrange(0, i as int));
            }
            sum = sum + data[i] as u64;
            i = i + 1;
        }
        proof {
            assert(data@.subrange(0, i as int) == data@);
            lemma_sum_u8_bounds(data@);
            let m = data.len() as int;
            assert(sum as int / m <= 255) by {
                vstd::arithmetic::div_mod::lemma_div_is_ordered(sum as int, 255 * m, m);
                vstd::arithmetic::div_mod::lemma_div_by_multiple(255, m);
            }
        }
        Some((sum / data.len() as u64) as u8)
    }

    fn can_merge(&self) -> (r: bool) {
        false
    }

    fn equals(&self, other: &u8) -> (r: bool) {
        *self == *other
    }

    proof fn lemma_average_of_empty() {
    }
}

/// One slot of the array.
#[derive(Debug, Clone, Copy)]
pub enum Node<T> {
    /// Lies in the merged region owned by the slot at this index.
    Ref(usize),
    /// Owns a region: its value and its width.
    Value(Option<T>, usize),
}

pub open spec fn log2(w: nat) -> nat
    decreases w,
{
    if w <= 1 {
        0
    } else {
        1 + log2(w / 2)
    }
}

pub open spec fn is_pow2(w: nat) -> bool
    decreases w,
{
    if w <= 1 {
        w == 1
    } else {
        w % 2 == 0 && is_pow2(w / 2)
    }
}

/// Number of occupied cells in `s`.
pub open spec fn count_some<T>(s: Seq<Option<T>>) -> nat
    decreases s.len(),
{
    if s.len() == 0 {
        0
    } else {
        count_some(s.drop_last()) + if s.last() is Some {
            1nat
        } else {
            0nat
        }
    }
}

/// The values of the occupied cells of `s`, in order.
pub open spec fn somes<T>(s: Seq<Option<T>>) -> Seq<T>
    decreases s.len(),
{
    if s.len() == 0 {
        Seq::empty()
    } else {
        let rest = somes(s.drop_last());
        match s.last() {
            Some(v) => rest.push(v),
            None => rest,
        }
    }
}

pub proof fn lemma_count_some_update<T>(s: Seq<Option<T>>, i: int, v: Option<T>)
    requires
        0 <= i < s.len(),
    ensures
        count_some(s.update(i, v)) + (if s[i] is Some {
            1int
        } else {
            0int
        }) == count_some(s) + (if v is Some {
            1int
        } else {
            0int
        }),
        count_some(s) <= s.len(),
    decreases s.len(),
{
    let t = s.update(i, v);
    if i == s.len() - 1 {
        assert(t.drop_last() == s.drop_last());
    } else {
        assert(t.drop_last() == s.drop_last().update(i, v));
        lemma_count_some_update(s.drop_last(), i, v);
    }
    lemma_count_some_len(s);
}

pub proof fn lemma_count_some_len<T>(s: Seq<Option<T>>)
    ensures
        count_some(s) <= s.len(),
    decreases s.len(),
{
    if s.len() > 0 {
        lemma_count_some_len(s.drop_last());
    }
}

pub proof fn lemma_count_none<T>(s: Seq<Option<T>>)
    requires
        forall|i: int| 0 <= i < s.len() ==> s[i] is None,
    ensures
        count_some(s) == 0,
    decreases s.len(),
{
    if s.len() > 0 {
        lemma_count_none(s.drop_last());
    }
}

pub proof fn lemma_somes_none<T>(s: Seq<Option<T>>)
    requires
        forall|i: int| 0 <= i < s.len() ==> s[i] is None,
    ensures
        somes(s) == Seq::<T>::empty(),
    decreases s.len(),
{
    if s.len() > 0 {
        lemma_somes_none(s.drop_last());
    }
}

pub proof fn lemma_somes_len<T>(s: Seq<Option<T>>)
    ensures
        somes(s).len() <= s.len(),
    decreases s.len(),
{
    if s.len() > 0 {
        lemma_somes_len(s.drop_last());
    }
}

/// All cells of the aligned block of `8^e` slots at `b` hold one value, and
/// that value may merge.
pub open spec fn block_ok<T: Voxel>(s: Seq<Option<T>>, b: int, e: nat) -> bool {
    &&& forall|j: int| b <= j < b + pow8(e) ==> #[trigger] s[j] == s[b]
    &&& (s[b] matches Some(v) ==> v.mergeable())
}

/// Level of the largest aligned block around slot `k` whose cells may form one
/// region, searched upward from level `e` to `depth`.
pub open spec fn merge_level<T: Voxel>(s: Seq<Option<T>>, k: int, e: nat, depth: nat) -> nat
    decreases depth - e,
{
    if e < depth && block_ok(s, k - k % (pow8(e + 1) as int), e + 1) {
        merge_level(s, k, e + 1, depth)
    } else {
        e
    }
}

proof fn lemma_ml_bounds<T: Voxel>(s: Seq<Option<T>>, k: int, e: nat, depth: nat)
    requires
        e <= depth,
    ensures
        e <= merge_level(s, k, e, depth) <= depth,
    decreases depth - e,
{
    if e < depth && block_ok(s, k - k % (pow8(e + 1) as int), e + 1) {
        lemma_ml_bounds(s, k, e + 1, depth);
    }
}

/// Below the merge level every aligned block around `k` may merge.
proof fn lemma_ml_block<T: Voxel>(s: Seq<Option<T>>, k: int, e0: nat, depth: nat, e: nat)
    requires
        e0 < e <= merge_level(s, k, e0, depth),
        e0 <= depth,
    ensures
        block_ok(s, k - k % (pow8(e) as int), e),
    decreases depth - e0,
{
    if e0 < depth && block_ok(s, k - k % (pow8(e0 + 1) as int), e0 + 1) {
        if e > e0 + 1 {
            lemma_ml_block(s, k, e0 + 1, depth, e);
        }
    }
}

/// A block that may merge holds sub-blocks that may merge.
proof fn lemma_block_ok_sub<T: Voxel>(s: Seq<Option<T>>, k: int, e: nat, e2: nat)
    requires
        k >= 0,
        e2 <= e,
        block_ok(s, k - k % (pow8(e) as int), e),
    ensures
        block_ok(s, k - k % (pow8(e2) as int), e2),
{
    let d = (e - e2) as nat;
    lemma_pow8_split(d, e2);
    assert(d + e2 == e);
    lemma_pow_facts(d);
    lemma_pow_facts(e2);
    lemma_nest(k, pow8(e2) as int, pow8(d) as int);
    lemma_align(k, pow8(e2) as int);
}

/// A block that may merge puts the merge level at or above its level.
proof fn lemma_ml_from_block<T: Voxel>(s: Seq<Option<T>>, k: int, e0: nat, depth: nat, e: nat)
    requires
        k >= 0,
        e0 <= e <= depth,
        block_ok(s, k - k % (pow8(e) as int), e),
    ensures
        merge_level(s, k, e0, depth) >= e,
    decreases e - e0,
{
    if e0 < e {
        lemma_block_ok_sub(s, k, e, e0 + 1);
        lemma_ml_from_block(s, k, e0 + 1, depth, e);
    } else {
        lemma_ml_bounds(s, k, e0, depth);
    }
}

/// A region of the grid: its lowest corner, its width and what it holds.
#[derive(Debug, Clone, Copy, PartialEq, Eq)]
pub struct OptElement<T> {
    pub x: i32,
    pub y: i32,
    pub z: i32,
    pub width: usize,
    pub value: Option<T>,
}

/// An occupied region of the grid as seen at its level of detail.
#[derive(Debug, Clone, Copy, PartialEq, Eq)]
pub struct Element<T> {
    pub x: i32,
    pub y: i32,
    pub z: i32,
    pub width: usize,
    pub value: T,
}

proof fn lemma_pow2_strict(a: nat, b: nat)
    requires
        a < b,
    ensures
        pow2(a) < pow2(b),
    decreases b,
{
    lemma_pow_facts(a);
    if a + 1 < b {
        lemma_pow2_strict(a, (b - 1) as nat);
    }
}

/// A sparse voxel grid over `[0, width)` on each axis.
#[derive(Debug, Clone)]
pub struct LodTree<T> {
    lod: usize,
    depth: usize,
    len: usize,
    array: Vec<Node<T>>,
}

impl<T: Voxel> LodTree<T> {
    pub closed spec fn depth_spec(&self) -> nat {
        self.depth as nat
    }

    pub closed spec fn lod_spec(&self) -> nat {
        self.lod as nat
    }

    pub closed spec fn width_spec(&self) -> nat {
        pow2(self.depth as nat)
    }

    /// Number of slots: `8^depth`.
    pub closed spec fn slots(&self) -> nat {
        pow8(self.depth as nat)
    }

    pub closed spec fn slot(&self, k: int) -> Node<T> {
        self.array@[k]
    }

    /// Level of the region that a `Value` slot owns.
    pub closed spec fn level(&self, k: int) -> nat {
        match self.array@[k] {
            Node::Value(_, w) => log2(w as nat),
            Node::Ref(_) => 0,
        }
    }

    /// Number of slots in the region that the `Value` slot `k` owns.
    pub closed spec fn region(&self, k: int) -> nat {
        pow8(self.level(k))
    }

    /// The slot that holds the value of slot `k`.
    pub closed spec fn owner(&self, k: int) -> int {
        match self.array@[k] {
            Node::Ref(j) => j as int,
            Node::Value(_, _) => k,
        }
    }

    /// The logical content of slot `k`.
    pub closed spec fn cell(&self, k: int) -> Option<T> {
        match self.array@[self.owner(k)] {
            Node::Value(v, _) => v,
            Node::Ref(_) => None,
        }
    }

    pub closed spec fn value_ok(&self, k: int) -> bool {
        match self.array@[k] {
            Node::Value(v, w) => {
                &&& w as nat == pow2(log2(w as nat))
                &&& log2(w as nat) <= self.depth
                &&& k % (self.region(k) as int) == 0
                &&& (w > 1 && v is Some) ==> v.unwrap().mergeable()
                &&& forall|j: int| #![trigger self.array@[j]]
                    k < j < k + self.region(k) ==> self.array@[j] == Node::<T>::Ref(k as usize)
            },
            Node::Ref(_) => true,
        }
    }

    pub closed spec fn ref_ok(&self, k: int) -> bool {
        match self.array@[k] {
            Node::Ref(j) => {
                &&& j < k
                &&& self.array@[j as int] is Value
                &&& k < j + self.region(j as int)
            },
            Node::Value(_, _) => true,
        }
    }

    /// The grid's invariant.
    pub closed spec fn wf(&self) -> bool {
        &&& self.depth <= MAX_DEPTH
        &&& self.array@.len() == self.slots()
        &&& forall|k: int| 0 <= k < self.slots() ==> #[trigger] self.value_ok(k)
        &&& forall|k: int| 0 <= k < self.slots() ==> #[trigger] self.ref_ok(k)
        &&& self.len as nat == count_some(self@)
    }

    /// Content of the cell at a coordinate; `None` outside the grid.
    pub closed spec fn get_spec(&self, c: (i32, i32, i32)) -> Option<T> {
        if in_cube(c.0 as int, c.1 as int, c.2 as int, self.depth as nat) {
            self@[morton(c.0 as int, c.1 as int, c.2 as int, self.depth as nat)]
        } else {
            None
        }
    }

    /// The level of detail that reads use: `lod`, capped at the depth.
    pub closed spec fn eff_lod(&self) -> nat {
        if self.lod < self.depth {
            self.lod as nat
        } else {
            self.depth as nat
        }
    }

    /// The cells of the aligned `2^lod` box that holds slot `k`, in Morton order.
    pub closed spec fn window(&self, k: int) -> Seq<Option<T>> {
        let m = pow8(self.eff_lod()) as int;
        self@.subrange(k - k % m, k - k % m + m)
    }

    /// One entry per merged region met in the `m` slots from `start`: the
    /// region's value at its first slot in the box, nothing at the others.
    pub closed spec fn regions_in(&self, start: int, m: int) -> Seq<Option<T>> {
        Seq::new(
            m as nat,
            |i: int|
                if i == 0 || self.array@[start + i] is Value {
                    self@[start + i]
                } else {
                    None
                },
        )
    }

    /// The box of `8^lod` slots around slot `k`, one entry per merged region.
    pub closed spec fn window_regions(&self, k: int) -> Seq<Option<T>> {
        let m = pow8(self.eff_lod()) as int;
        self.regions_in(k - k % m, m)
    }

    /// What `get` returns for `c`.
    pub closed spec fn read(&self, c: (i32, i32, i32)) -> Option<T> {
        if !self.in_bounds(c) {
            None
        } else if self.lod == 0 {
            self.get_spec(c)
        } else {
            T::average_of(somes(self.window_regions(self.index_of(c))))
        }
    }

    /// Whether some cell holds `v`.
    pub closed spec fn holds(&self, v: T) -> bool {
        exists|k: int| 0 <= k < self@.len() && self@[k] == Some(v)
    }

    /// The eight sub-blocks of `8^d` slots at `b` are single regions of width
    /// `w` that hold one mergeable value: the group may become one region.
    pub closed spec fn group_ready(&self, b: int, s: int, w: usize) -> bool {
        &&& self.array@[b] is Value
        &&& (self.array@[b]->Value_0 matches Some(v) ==> v.mergeable())
        &&& forall|q: int|
            #![trigger self.array@[q]]
            b <= q < b + 8 * s && q % s == 0 ==> (self.array@[q] matches Node::Value(v, wq) && wq == w
                && v == self.array@[b]->Value_0)
    }

    /// Level of the region that holds slot `k`.
    pub closed spec fn merged_level(&self, k: int) -> nat {
        self.level(self.owner(k))
    }

    /// Slots `a` and `b` share one stored value.
    pub closed spec fn shares(&self, a: int, b: int) -> bool {
        self.owner(a) == self.owner(b)
    }

    closed spec fn settled(&self, s0: Seq<Option<T>>, k: int, d: nat) -> bool {
        let l = merge_level(s0, k, 0, self.depth as nat);
        let lv = self.merged_level(k);
        &&& l < d ==> lv == l
        &&& l >= d ==> lv + 1 >= d
    }

    /// The region that starts at slot `t`, if one does.
    pub closed spec fn opt_element_at(&self, t: int) -> Option<OptElement<T>> {
        let d = self.depth as nat;
        match self.array@[t] {
            Node::Value(v, w) => Some(
                OptElement {
                    x: axis(t, 1, d) as i32,
                    y: axis(t, 2, d) as i32,
                    z: axis(t, 4, d) as i32,
                    width: w,
                    value: v,
                },
            ),
            Node::Ref(_) => None,
        }
    }

    /// The regions among the first `i` slots, in Morton order.
    pub closed spec fn opt_elements_spec(&self, i: nat) -> Seq<OptElement<T>>
        decreases i,
    {
        if i == 0 {
            Seq::empty()
        } else {
            let prev = self.opt_elements_spec((i - 1) as nat);
            match self.opt_element_at(i - 1) {
                Some(e) => prev.push(e),
                None => prev,
            }
        }
    }

    /// What the window of `8^lod` slots at `t` shows: the whole region when the
    /// window lies in a region at least as wide (once, at the region's start),
    /// else the average of the window's occupied cells.
    pub closed spec fn element_at(&self, t: int) -> Option<Element<T>> {
        let d = self.depth as nat;
        let l = self.eff_lod();
        let (x, y, z) = (axis(t, 1, d) as i32, axis(t, 2, d) as i32, axis(t, 4, d) as i32);
        if self.merged_level(t) >= l {
            match self.array@[t] {
                Node::Value(Some(v), w) => Some(Element { x, y, z, width: w, value: v }),
                _ => None,
            }
        } else {
            match T::average_of(somes(self@.subrange(t, t + pow8(l)))) {
                Some(v) => Some(Element { x, y, z, width: pow2(l) as usize, value: v }),
                None => None,
            }
        }
    }

    /// The elements of the first `i` windows, in Morton order.
    pub closed spec fn elements_spec(&self, i: nat) -> Seq<Element<T>>
        decreases i,
    {
        if i == 0 {
            Seq::empty()
        } else {
            let prev = self.elements_spec((i - 1) as nat);
            match self.element_at((i - 1) * pow8(self.eff_lod())) {
                Some(e) => prev.push(e),
                None => prev,
            }
        }
    }

    /// Number of windows of `8^lod` slots.
    pub closed spec fn window_count(&self) -> nat {
        pow8((self.depth - self.eff_lod()) as nat)
    }

    pub closed spec fn in_bounds(&self, c: (i32, i32, i32)) -> bool {
        in_cube(c.0 as int, c.1 as int, c.2 as int, self.depth as nat)
    }

    pub closed spec fn index_of(&self, c: (i32, i32, i32)) -> int {
        morton(c.0 as int, c.1 as int, c.2 as int, self.depth as nat)
    }
}

pub proof fn lemma_pow8_split(a: nat, b: nat)
    ensures
        pow8(a + b) == pow8(a) * pow8(b),
    decreases a,
{
    if a > 0 {
        lemma_pow8_split((a - 1) as nat, b);
        assert(pow8(a + b) == 8 * pow8(((a - 1) as nat + b) as nat));
        assert(8 * (pow8((a - 1) as nat) * pow8(b)) == (8 * pow8((a - 1) as nat)) * pow8(b))
            by (nonlinear_arith);
    } else {
        assert(pow8(a) == 1);
        assert(a + b == b);
    }
}

/// The aligned block of `m` slots around `k` lies inside `[0, m * q)`.
pub proof fn lemma_block_fits(k: int, m: int, q: int)
    requires
        0 <= k < m * q,
        m > 0,
    ensures
        0 <= k - k % m,
        k - k % m + m <= m * q,
        (k - k % m) % m == 0,
        k - k % m <= k < k - k % m + m,
{
    vstd::arithmetic::div_mod::lemma_fundamental_div_mod(k, m);
    vstd::arithmetic::div_mod::lemma_multiply_divide_lt(k, m, q);
    let d = k / m;
    assert(d >= 0) by {
        vstd::arithmetic::div_mod::lemma_div_pos_is_pos(k, m);
    }
    assert(m * d + m <= m * q) by (nonlinear_arith)
        requires
            d < q,
            m > 0,
    ;
    assert(0 <= k % m < m) by {
        vstd::arithmetic::div_mod::lemma_mod_pos_bound(k, m);
    }
    assert((d * m) % m == 0) by {
        vstd::arithmetic::div_mod::lemma_mod_multiples_basic(d, m);
    }
    assert(m * d == d * m) by (nonlinear_arith);
}

proof fn lemma_no_multiple_between(a: int, x: int, s: int)
    requires
        s > 0,
        a % s == 0,
        a < x < a + s,
    ensures
        x % s != 0,
{
    vstd::arithmetic::div_mod::lemma_add_mod_noop(a, x - a, s);
    vstd::arithmetic::div_mod::lemma_small_mod((x - a) as nat, s as nat);
    vstd::arithmetic::div_mod::lemma_small_mod(0, s as nat);
}

/// A multiple of `c * s` is a multiple of `s`.
proof fn lemma_multiple_of(b: int, s: int, c: int)
    requires
        s > 0,
        c > 0,
        b >= 0,
        b % (c * s) == 0,
    ensures
        b == s * (c * (b / (c * s))),
        b % s == 0,
{
    assert(c * s > 0) by (nonlinear_arith)
        requires
            c > 0,
            s > 0,
    ;
    vstd::arithmetic::div_mod::lemma_fundamental_div_mod(b, c * s);
    let t = b / (c * s);
    assert(b == s * (c * t)) by (nonlinear_arith)
        requires
            b == (c * s) * t + b % (c * s),
            b % (c * s) == 0,
    ;
    vstd::arithmetic::div_mod::lemma_mod_multiples_vanish(c * t, 0, s);
    vstd::arithmetic::div_mod::lemma_small_mod(0, s as nat);
}

/// Slot `k` of the group of `c` sub-blocks of `s` slots at `b` lies in the
/// sub-block that starts at `k - k % s`.
proof fn lemma_sub_block(b: int, s: int, c: int, k: int)
    requires
        s > 0,
        c > 0,
        b >= 0,
        b % (c * s) == 0,
        b <= k < b + c * s,
    ensures
        k % s == (k - b) % s,
        (k - k % s) % s == 0,
        b <= k - k % s <= k,
        k - k % s + s <= b + c * s,
{
    lemma_multiple_of(b, s, c);
    let a = c * (b / (c * s));
    vstd::arithmetic::div_mod::lemma_mod_multiples_vanish(a, k - b, s);
    assert(s * c == c * s) by (nonlinear_arith);
    lemma_block_fits(k - b, s, c);
    let r = (k - b) - (k - b) % s;
    vstd::arithmetic::div_mod::lemma_mod_multiples_vanish(a, r, s);
}

/// `k - k % m` is the aligned block start below `k`.
proof fn lemma_align(k: int, m: int)
    requires
        k >= 0,
        m > 0,
    ensures
        (k - k % m) % m == 0,
        0 <= k - k % m <= k < k - k % m + m,
{
    vstd::arithmetic::div_mod::lemma_fundamental_div_mod(k, m);
    vstd::arithmetic::div_mod::lemma_mod_pos_bound(k, m);
    vstd::arithmetic::div_mod::lemma_mod_multiples_vanish(k / m, 0, m);
    vstd::arithmetic::div_mod::lemma_small_mod(0, m as nat);
    assert(k / m >= 0) by {
        vstd::arithmetic::div_mod::lemma_div_pos_is_pos(k, m);
    }
    assert(m * (k / m) >= 0) by (nonlinear_arith)
        requires
            m > 0,
            k / m >= 0,
    ;
}

/// An aligned block start is the aligned start of every slot in its block.
proof fn lemma_align_unique(p: int, k: int, m: int)
    requires
        m > 0,
        p >= 0,
        p % m == 0,
        p <= k < p + m,
    ensures
        k - k % m == p,
{
    vstd::arithmetic::div_mod::lemma_add_mod_noop(p, k - p, m);
    vstd::arithmetic::div_mod::lemma_small_mod((k - p) as nat, m as nat);
    vstd::arithmetic::div_mod::lemma_small_mod(0, m as nat);
}

/// Aligned blocks of `m` slots nest inside aligned blocks of `c * m` slots.
proof fn lemma_nest(k: int, m: int, c: int)
    requires
        k >= 0,
        m > 0,
        c > 0,
    ensures
        k - k % (c * m) <= k - k % m,
        k - k % m + m <= k - k % (c * m) + c * m,
{
    assert(c * m > 0) by (nonlinear_arith)
        requires
            c > 0,
            m > 0,
    ;
    lemma_align(k, c * m);
    let b = k - k % (c * m);
    lemma_sub_block(b, m, c, k);
}

/// Two optional values are equal.
fn same_opt<T: Voxel>(a: &Option<T>, b: &Option<T>) -> (r: bool)
    ensures
        r == (*a == *b),
{
    match (a, b) {
        (Some(x), Some(y)) => x.equals(y),
        (None, None) => true,
        _ => false,
    }
}

pub proof fn lemma_pow2_is_pow2(e: nat)
    ensures
        is_pow2(pow2(e)),
    decreases e,
{
    if e > 0 {
        lemma_pow2_is_pow2((e - 1) as nat);
        lemma_pow_facts((e - 1) as nat);
        assert(pow2(e) / 2 == pow2((e - 1) as nat));
    }
}

proof fn lemma_log2_pow2(e: nat)
    ensures
        log2(pow2(e)) == e,
        pow2(e) >= 1,
    decreases e,
{
    if e > 0 {
        lemma_log2_pow2((e - 1) as nat);
        lemma_pow_facts((e - 1) as nat);
        assert(pow2(e) / 2 == pow2((e - 1) as nat));
    }
}

impl<T: Voxel> View for LodTree<T> {
    type V = Seq<Option<T>>;

    /// The cells in Morton order.
    closed spec fn view(&self) -> Seq<Option<T>> {
        Seq::new(pow8(self.depth as nat), |k: int| self.cell(k))
    }
}

impl<T: Voxel> LodTree<T> {
    /// An empty grid of side `width`.
    pub fn new(width: usize) -> (r: Self)
        requires
            is_pow2(width as nat),
            width <= 1024,
        ensures
            r.wf(),
            r.width_spec() == width,
            r.lod_spec() == 0,
            forall|c: (i32, i32, i32)| r.get_spec(c) is None,
            count_some(r@) == 0,
    {
        let mut w: usize = width;
        let mut depth: usize = 0;
        assert(pow2(0) == 1);
        while w > 1
            invariant
                is_pow2(w as nat),
                width as nat == w * pow2(depth as nat),
                w >= 1,
                width <= 1024,
                depth <= 10,
            decreases w,
        {
            proof {
                assert(w as nat * pow2(depth as nat) == (w as nat / 2) * pow2((depth + 1) as nat))
                    by (nonlinear_arith)
                    requires
                        w % 2 == 0,
                        pow2((depth + 1) as nat) == 2 * pow2(depth as nat),
                ;
                if depth == 10 {
                    reveal_with_fuel(pow2, 11);
                    assert(w as nat * pow2(depth as nat) >= 2048) by (nonlinear_arith)
                        requires
                            w >= 2,
                            pow2(depth as nat) == 1024,
                    ;
                }
            }
            w = w / 2;
            depth = depth + 1;
        }
        proof {
            lemma_pow_facts(depth as nat);
            assert(width == pow2(depth as nat));
            assert(width * width <= 1024 * 1024) by (nonlinear_arith)
                requires
                    width <= 1024,
            ;
        }
        let n: usize = width * width * width;
        let mut array: Vec<Node<T>> = Vec::new();
        while array.len() < n
            invariant
                n == pow8(depth as nat),
                array.len() <= n,
                forall|k: int| 0 <= k < array.len() ==> array@[k] == Node::<T>::Value(None, 1),
            decreases n - array.len(),
        {
            array.push(Node::Value(None, 1));
        }
        let r = LodTree { lod: 0, depth, len: 0, array };
        proof {
            assert(log2(1) == 0);
            assert(pow8(0) == 1);
            assert forall|k: int| 0 <= k < r.slots() implies #[trigger] r.value_ok(k) by {
                assert(r.region(k) == 1);
            }
            lemma_count_none(r@);
            assert forall|c: (i32, i32, i32)| r.get_spec(c) is None by {
                if r.in_bounds(c) {
                    lemma_morton_bounds(c.0 as int, c.1 as int, c.2 as int, r.depth as nat);
                }
            }
        }
        r
    }

    pub fn set_lod(&mut self, lod: usize)
        requires
            old(self).wf(),
        ensures
            final(self).wf(),
            final(self)@ == old(self)@,
            final(self).lod_spec() == lod,
            final(self).depth_spec() == old(self).depth_spec(),
    {
        self.lod = lod;
        proof {
            Self::lemma_same_slots(*old(self), *self);
        }
    }

    pub fn lod(&self) -> (r: usize)
        ensures
            r == self.lod_spec(),
    {
        self.lod
    }

    /// Number of cells: `width^3`.
    pub fn capacity(&self) -> (r: usize)
        requires
            self.wf(),
        ensures
            r == self.width_spec() * self.width_spec() * self.width_spec(),
    {
        let w = self.width();
        proof {
            lemma_pow_facts(self.depth as nat);
            assert(w * w <= 1024 * 1024) by (nonlinear_arith)
                requires
                    w <= 1024,
            ;
        }
        w * w * w
    }

    pub fn width(&self) -> (r: usize)
        requires
            self.wf(),
        ensures
            r == self.width_spec(),
            r <= 1024,
    {
        proof {
            lemma_pow_facts(self.depth as nat);
        }
        let mut w: usize = 1;
        let mut i: usize = 0;
        while i < self.depth
            invariant
                i <= self.depth <= MAX_DEPTH,
                w == pow2(i as nat),
            decreases self.depth - i,
        {
            proof {
                lemma_pow8_monotone((i + 1) as nat, self.depth as nat);
                lemma_pow_facts((i + 1) as nat);
            }
            w = w * 2;
            i = i + 1;
        }
        w
    }

    /// Number of occupied cells.
    pub fn len(&self) -> (r: usize)
        requires
            self.wf(),
        ensures
            r == count_some(self@),
    {
        self.len
    }

    pub fn is_empty(&self) -> (r: bool)
        requires
            self.wf(),
        ensures
            r == (count_some(self@) == 0),
    {
        self.len == 0
    }

    /// Empties every cell; width and lod stay.
    pub fn clear(&mut self)
        requires
            old(self).wf(),
        ensures
            final(self).wf(),
            final(self).depth_spec() == old(self).depth_spec(),
            final(self).lod_spec() == old(self).lod_spec(),
            forall|c: (i32, i32, i32)| final(self).get_spec(c) is None,
            forall|c: (i32, i32, i32)| final(self).read(c) is None,
            count_some(final(self)@) == 0,
    {
        let n = self.array.len();
        let mut i: usize = 0;
        while i < n
            invariant
                n == self.array.len(),
                n == self.slots(),
                self.depth <= MAX_DEPTH,
                self.depth == old(self).depth,
                self.lod == old(self).lod,
                i <= n,
                forall|k: int| 0 <= k < i ==> self.array@[k] == Node::<T>::Value(None, 1),
            decreases n - i,
        {
            self.array.set(i, Node::Value(None, 1));
            i = i + 1;
        }
        self.len = 0;
        proof {
            assert(log2(1) == 0);
            assert(pow8(0) == 1);
            assert forall|k: int| 0 <= k < self.slots() implies #[trigger] self.value_ok(k) by {
                assert(self.region(k) == 1);
            }
            lemma_count_none(self@);
            assert forall|c: (i32, i32, i32)| self.get_spec(c) is None by {
                if self.in_bounds(c) {
                    lemma_morton_bounds(c.0 as int, c.1 as int, c.2 as int, self.depth as nat);
                }
            }
            assert forall|c: (i32, i32, i32)| self.read(c) is None by {
                if self.in_bounds(c) && self.lod != 0 {
                    lemma_morton_bounds(c.0 as int, c.1 as int, c.2 as int, self.depth as nat);
                    let l = self.eff_lod();
                    let k = self.index_of(c);
                    let m = pow8(l) as int;
                    lemma_pow8_split(l, (self.depth - l) as nat);
                    assert(l + (self.depth - l) as nat == self.depth as nat);
                    lemma_pow_facts(l);
                    lemma_block_fits(k, m, pow8((self.depth - l) as nat) as int);
                    let rs = self.window_regions(k);
                    assert forall|i: int| 0 <= i < rs.len() implies rs[i] is None by {
                        assert(self@[k - k % m + i] is None);
                    }
                    lemma_somes_none(rs);
                    T::lemma_average_of_empty();
                }
            }
        }
    }

    proof fn lemma_same_slots(a: Self, b: Self)
        requires
            a.wf(),
            a.array@ == b.array@,
            a.depth == b.depth,
            a.len == b.len,
        ensures
            b.wf(),
            b@ == a@,
    {
        assert(b@ =~= a@);
        assert forall|k: int| 0 <= k < b.slots() implies #[trigger] b.value_ok(k) by {
            assert(a.value_ok(k));
        }
        assert forall|k: int| 0 <= k < b.slots() implies #[trigger] b.ref_ok(k) by {
            assert(a.ref_ok(k));
        }
    }

    /// The slot that holds the value of slot `k`.
    fn resolve(&self, k: usize) -> (r: usize)
        requires
            self.wf(),
            k < self.slots(),
        ensures
            r == self.owner(k as int),
            r <= k,
            self.array@[r as int] is Value,
    {
        proof {
            assert(self.ref_ok(k as int));
        }
        match self.array[k] {
            Node::Ref(j) => j,
            Node::Value(_, _) => k,
        }
    }

    /// Content of slot `k`.
    fn cell_at(&self, k: usize) -> (r: Option<T>)
        requires
            self.wf(),
            k < self.slots(),
        ensures
            r == self@[k as int],
    {
        let j = self.resolve(k);
        match self.array[j] {
            Node::Value(v, _) => v,
            Node::Ref(_) => None,
        }
    }

    fn bounds_check(&self, coords: (i32, i32, i32)) -> (r: bool)
        requires
            self.wf(),
        ensures
            r == self.in_bounds(coords),
    {
        let w = self.width() as i32;
        coords.0 >= 0 && coords.0 < w && coords.1 >= 0 && coords.1 < w && coords.2 >= 0 && coords.2
            < w
    }

    /// A `Value` slot's region lies inside the array.
    proof fn lemma_region_fits(&self, p: int)
        requires
            self.wf(),
            0 <= p < self.slots(),
            self.array@[p] is Value,
        ensures
            p + self.region(p) <= self.slots(),
            self.region(p) >= 1,
    {
        assert(self.value_ok(p));
        let e = self.level(p);
        lemma_pow8_split(e, (self.depth - e) as nat);
        assert(e + (self.depth - e) as nat == self.depth as nat);
        lemma_pow_facts(e);
        lemma_pow_facts((self.depth - e) as nat);
        lemma_block_fits(p, pow8(e) as int, pow8((self.depth - e) as nat) as int);
    }

    /// Splits the region owned by slot `p` into single cells that keep its value.
    fn unmerge(&mut self, p: usize)
        requires
            old(self).wf(),
            p < old(self).slots(),
            old(self).array@[p as int] is Value,
        ensures
            final(self).wf(),
            final(self)@ == old(self)@,
            final(self).depth == old(self).depth,
            final(self).lod == old(self).lod,
            forall|k: int|
                p <= k < p + old(self).region(p as int) ==> (#[trigger] final(self).array@[k]
                    matches Node::Value(_, w) && w == 1),
            forall|k: int|
                0 <= k < old(self).slots() && !(p <= k < p + old(self).region(p as int))
                    ==> #[trigger] final(self).array@[k] == old(self).array@[k],
    {
        let ghost old_self = *self;
        proof {
            self.lemma_region_fits(p as int);
            lemma_pow_facts(self.depth as nat);
            assert(self.value_ok(p as int));
            lemma_pow_facts(self.level(p as int));
        }
        let (v, w) = match self.array[p] {
            Node::Value(v, w) => (v, w),
            Node::Ref(_) => (None, 1),
        };
        proof {
            assert(w <= 1024) by {
                lemma_pow8_monotone(log2(w as nat), 10);
                lemma_pow_facts(10);
            }
            assert(w * w <= 1024 * 1024) by (nonlinear_arith)
                requires
                    w <= 1024,
            ;
        }
        let size: usize = w * w * w;
        proof {
            assert(w as nat == pow2(log2(w as nat)));
            lemma_pow_facts(log2(w as nat));
            assert(size as int == old_self.region(p as int));
        }
        let end: usize = p + size;
        let mut k: usize = p;
        while k < end
            invariant
                old_self == *old(self),
                old_self.wf(),
                end == p + old_self.region(p as int),
                end <= old_self.slots(),
                p <= k <= end,
                self.depth == old_self.depth,
                self.lod == old_self.lod,
                self.len == old_self.len,
                self.array@.len() == old_self.array@.len(),
                forall|j: int| p <= j < k ==> #[trigger] self.array@[j] == Node::Value(v, 1),
                forall|j: int|
                    0 <= j < self.array@.len() && !(p <= j < k) ==> #[trigger] self.array@[j]
                        == old_self.array@[j],
            decreases end - k,
        {
            self.array.set(k, Node::Value(v, 1));
            k = k + 1;
        }
        proof {
            assert(log2(1) == 0);
            assert(pow8(0) == 1);
            let n = old_self.slots() as int;
            assert(old_self.array@[p as int] == Node::Value(v, w));
            // slots outside the region never refer into it
            assert forall|j: int| 0 <= j < n && !(p <= j < end) && old_self.array@[j] is Ref
                implies !(p <= old_self.owner(j) < end) by {
                assert(old_self.ref_ok(j));
                let q = old_self.owner(j);
                if p <= q < end && q != p {
                    assert(old_self.array@[q] == Node::<T>::Ref(p));
                }
            }
            assert forall|j: int| 0 <= j < n implies self.cell(j) == old_self.cell(j) by {
                assert(old_self.ref_ok(j));
                if p <= j < end && j != p {
                    assert(old_self.array@[j] == Node::<T>::Ref(p));
                }
            }
            assert(self@ =~= old_self@);
            assert forall|j: int| 0 <= j < n implies #[trigger] self.value_ok(j) by {
                if p <= j < end {
                    assert(self.region(j) == 1);
                } else {
                    assert(old_self.value_ok(j));
                    if self.array@[j] is Value {
                        assert forall|i: int| #![trigger self.array@[i]]
                            j < i < j + self.region(j) implies self.array@[i] == Node::<T>::Ref(
                            j as usize,
                        ) by {
                            old_self.lemma_region_fits(j);
                            assert(old_self.array@[i] == Node::<T>::Ref(j as usize));
                            if p <= i < end && i != p {
                                assert(old_self.array@[i] == Node::<T>::Ref(p));
                            }
                        }
                    }
                }
            }
            assert forall|j: int| 0 <= j < n implies #[trigger] self.ref_ok(j) by {
                assert(old_self.ref_ok(j));
            }
        }
    }

    /// Writes `v` into slot `idx` and returns what it held.
    fn write(&mut self, idx: usize, v: Option<T>) -> (r: Option<T>)
        requires
            old(self).wf(),
            idx < old(self).slots(),
        ensures
            final(self).wf(),
            r == old(self)@[idx as int],
            final(self)@ == old(self)@.update(idx as int, v),
            final(self).depth == old(self).depth,
            final(self).lod == old(self).lod,
    {
        let ghost s0 = self@;
        let prev = self.cell_at(idx);
        let p = self.resolve(idx);
        let wide = match self.array[p] {
            Node::Value(_, w) => w > 1,
            Node::Ref(_) => false,
        };
        proof {
            assert(self.ref_ok(idx as int));
            assert(self.value_ok(p as int));
            if let Node::Value(_, w) = self.array@[p as int] {
                lemma_pow_facts(log2(w as nat));
            }
            if !wide {
                assert(self.region(p as int) == 1) by {
                    assert(log2(1) == 0);
                }
            }
        }
        if wide {
            self.unmerge(p);
        }
        let ghost mid = *self;
        proof {
            assert((mid.array@[idx as int] matches Node::Value(_, w) && w == 1));
            assert(mid.value_ok(idx as int));
            assert(mid.region(idx as int) == 1) by {
                assert(log2(1) == 0);
            }
        }
        self.array.set(idx, Node::Value(v, 1));
        proof {
            lemma_count_some_update(s0, idx as int, v);
            lemma_count_some_len(s0.update(idx as int, v));
            lemma_pow_facts(self.depth as nat);
        }
        if prev.is_some() && v.is_none() {
            self.len = self.len - 1;
        } else if prev.is_none() && v.is_some() {
            self.len = self.len + 1;
        }
        proof {
            let n = mid.slots() as int;
            assert(log2(1) == 0);
            assert(pow8(0) == 1);
            assert forall|j: int| 0 <= j < n && j != idx implies self.owner(j) != idx by {
                assert(mid.ref_ok(j));
            }
            assert forall|j: int| 0 <= j < n && j != idx implies self.cell(j) == mid.cell(j) by {
                assert(mid.ref_ok(j));
            }
            assert(self@ =~= s0.update(idx as int, v));
            assert forall|j: int| 0 <= j < n implies #[trigger] self.value_ok(j) by {
                if j != idx {
                    assert(mid.value_ok(j));
                    if self.array@[j] is Value {
                        assert forall|i: int| #![trigger self.array@[i]]
                            j < i < j + self.region(j) implies self.array@[i] == Node::<T>::Ref(
                            j as usize,
                        ) by {
                            mid.lemma_region_fits(j);
                            assert(mid.array@[i] == Node::<T>::Ref(j as usize));
                        }
                    }
                } else {
                    assert(self.region(j) == 1);
                }
            }
            assert forall|j: int| 0 <= j < n implies #[trigger] self.ref_ok(j) by {
                assert(mid.ref_ok(j));
            }
            lemma_count_some_update(s0, idx as int, v);
            lemma_count_some_len(self@);
            lemma_pow_facts(self.depth as nat);
        }
        prev
    }

    /// Stores `value` at `coords` and returns what the cell held before.
    /// Writing into a merged region splits that region back into single cells;
    /// `merge` compacts them again. Outside the grid nothing changes.
    pub fn insert(&mut self, coords: (i32, i32, i32), value: T) -> (r: Option<T>)
        requires
            old(self).wf(),
        ensures
            final(self).wf(),
            final(self).depth_spec() == old(self).depth_spec(),
            final(self).lod_spec() == old(self).lod_spec(),
            r == old(self).get_spec(coords),
            old(self).in_bounds(coords) ==> final(self)@ == old(self)@.update(
                old(self).index_of(coords),
                Some(value),
            ),
            !old(self).in_bounds(coords) ==> final(self)@ == old(self)@,
    {
        if !self.bounds_check(coords) {
            return None;
        }
        let idx = depth_index(coords.0, coords.1, coords.2, self.depth);
        self.write(idx, Some(value))
    }

    /// Empties the cell at `coords` and returns what it held.
    pub fn remove(&mut self, coords: (i32, i32, i32)) -> (r: Option<T>)
        requires
            old(self).wf(),
        ensures
            final(self).wf(),
            final(self).depth_spec() == old(self).depth_spec(),
            final(self).lod_spec() == old(self).lod_spec(),
            r == old(self).get_spec(coords),
            old(self).in_bounds(coords) ==> final(self)@ == old(self)@.update(
                old(self).index_of(coords),
                None,
            ),
            !old(self).in_bounds(coords) ==> final(self)@ == old(self)@,
    {
        if !self.bounds_check(coords) {
            return None;
        }
        let idx = depth_index(coords.0, coords.1, coords.2, self.depth);
        self.write(idx, None)
    }

    /// The cell at `coords`. At `lod > 0` the point is widened to the aligned
    /// box of side `2^lod` that holds it (capped at the whole grid), and the
    /// result is the value type's average of the values found in that box,
    /// each merged region counted once.
    pub fn get(&self, coords: (i32, i32, i32)) -> (r: Option<T>)
        requires
            self.wf(),
        ensures
            !self.in_bounds(coords) ==> r is None,
            self.in_bounds(coords) && self.lod_spec() == 0 ==> r == self.get_spec(coords),
            self.in_bounds(coords) && self.lod_spec() > 0 ==> r == T::average_of(
                somes(self.window_regions(self.index_of(coords))),
            ),
            r == self.read(coords),
            self.lod_spec() == 0 ==> r == self.get_spec(coords),
    {
        if !self.bounds_check(coords) {
            return None;
        }
        let idx = depth_index(coords.0, coords.1, coords.2, self.depth);
        if self.lod == 0 {
            return self.cell_at(idx);
        }
        let l: usize = if self.lod < self.depth {
            self.lod
        } else {
            self.depth
        };
        let mut m: usize = 1;
        let mut i: usize = 0;
        while i < l
            invariant
                i <= l <= self.depth <= MAX_DEPTH,
                m == pow8(i as nat),
            decreases l - i,
        {
            proof {
                lemma_pow8_monotone((i + 1) as nat, self.depth as nat);
                lemma_pow_facts(self.depth as nat);
            }
            m = m * 8;
            i = i + 1;
        }
        proof {
            lemma_pow8_split(l as nat, (self.depth - l) as nat);
            assert(l as nat + (self.depth - l) as nat == self.depth as nat);
            lemma_pow_facts(l as nat);
            lemma_pow_facts((self.depth - l) as nat);
            lemma_pow_facts(self.depth as nat);
            lemma_block_fits(idx as int, m as int, pow8((self.depth - l) as nat) as int);
        }
        let start = idx - idx % m;
        let vals = self.region_values(start, m);
        T::average(&vals)
    }

    /// A reference to the stored value of the cell at `coords`, ignoring the
    /// level of detail. Cells of one merged region share one stored value.
    pub fn get_ref(&self, coords: (i32, i32, i32)) -> (r: Option<&T>)
        requires
            self.wf(),
        ensures
            r matches Some(v) ==> self.get_spec(coords) == Some(*v),
            r is None ==> self.get_spec(coords) is None,
    {
        if !self.bounds_check(coords) {
            return None;
        }
        let idx = depth_index(coords.0, coords.1, coords.2, self.depth);
        let j = self.resolve(idx);
        match &self.array[j] {
            Node::Value(Some(v), _) => Some(v),
            _ => None,
        }
    }

    /// Whether the cell at `coords` is occupied.
    pub fn contains_key(&self, coords: (i32, i32, i32)) -> (r: bool)
        requires
            self.wf(),
        ensures
            r == self.get_spec(coords) is Some,
    {
        if !self.bounds_check(coords) {
            return false;
        }
        let idx = depth_index(coords.0, coords.1, coords.2, self.depth);
        self.cell_at(idx).is_some()
    }

    /// The first cell in Morton order that holds `value`.
    pub fn position(&self, value: &T) -> (r: Option<(i32, i32, i32)>)
        requires
            self.wf(),
        ensures
            r is None <==> !self.holds(*value),
            r matches Some(c) ==> {
                &&& self.in_bounds(c)
                &&& self.get_spec(c) == Some(*value)
                &&& forall|k: int| 0 <= k < self.index_of(c) ==> self@[k] != Some(*value)
            },
    {
        let n = self.array.len();
        let mut k: usize = 0;
        while k < n
            invariant
                self.wf(),
                n == self.slots(),
                k <= n,
                forall|j: int| 0 <= j < k ==> self@[j] != Some(*value),
            decreases n - k,
        {
            let found = match self.cell_at(k) {
                Some(v) => v.equals(value),
                None => false,
            };
            if found {
                let c = array_index(k, self.depth);
                return Some(c);
            }
            k = k + 1;
        }
        None
    }

    /// Whether some cell holds `value`.
    pub fn contains(&self, value: &T) -> (r: bool)
        requires
            self.wf(),
        ensures
            r == self.holds(*value),
    {
        self.position(value).is_some()
    }

    /// Merges the group of eight sub-blocks at `b` into one region of width
    /// `2 * w` when they are single regions of width `w` holding one mergeable value.
    fn merge_group(&mut self, b: usize, s: usize, w: usize, d: usize) -> (merged: bool)
        requires
            old(self).wf(),
            1 <= d <= old(self).depth,
            s == pow8((d - 1) as nat),
            w == pow2((d - 1) as nat),
            b as int % (8 * s as int) == 0,
            b + 8 * s <= old(self).slots(),
        ensures
            final(self).wf(),
            final(self)@ == old(self)@,
            final(self).depth == old(self).depth,
            final(self).lod == old(self).lod,
            merged == old(self).group_ready(b as int, s as int, w),
            !merged ==> final(self).array@ == old(self).array@,
            merged ==> final(self).level(b as int) == d,
            merged ==> forall|k: int|
                b <= k < b + 8 * s ==> #[trigger] final(self).owner(k) == b,
            merged ==> forall|k: int|
                0 <= k < old(self).slots() && !(b <= k < b + 8 * s)
                    ==> #[trigger] final(self).array@[k] == old(self).array@[k],
            merged ==> forall|k: int|
                0 <= k < old(self).slots() && !(b <= k < b + 8 * s) ==> #[trigger] final(self).owner(k)
                    == old(self).owner(k),
            merged ==> forall|k: int|
                0 <= k < old(self).slots() && !(b <= k < b + 8 * s) ==> !(b <= #[trigger] old(self).owner(k)
                    < b + 8 * s),
    {
        let ghost old_self = *self;
        proof {
            lemma_pow_facts(self.depth as nat);
            lemma_pow_facts((d - 1) as nat);
            lemma_pow8_monotone(d as nat, self.depth as nat);
            assert(pow8(d as nat) == 8 * s);
            assert(pow2(d as nat) == 2 * w);
        }
        proof {
            lemma_multiple_of(b as int, s as int, 8);
            vstd::arithmetic::div_mod::lemma_mod_add_multiples_vanish(b as int, s as int);
        }
        let v0 = match self.array[b] {
            Node::Value(v, wb) => {
                if wb != w {
                    return false;
                }
                v
            },
            Node::Ref(_) => {
                return false;
            },
        };
        let ok = match v0 {
            Some(x) => x.can_merge(),
            None => true,
        };
        if !ok {
            return false;
        }
        let end = b + 8 * s;
        let mut q = b + s;
        proof {
            let t = 8 * (b as int / (8 * s as int));
            assert(end as int == s * (t + 8)) by (nonlinear_arith)
                requires
                    b == s * t,
                    end == b + 8 * s,
            ;
            vstd::arithmetic::div_mod::lemma_mod_multiples_vanish(t + 8, 0, s as int);
            vstd::arithmetic::div_mod::lemma_small_mod(0, s as nat);
            assert forall|q2: int| b < q2 < b + s implies #[trigger] (q2 % (s as int)) != 0 by {
                lemma_no_multiple_between(b as int, q2, s as int);
            }
        }
        while q < end
            invariant
                *self == old_self,
                old_self.wf(),
                s >= 1,
                end <= 0x4000_0000,
                b as int % s as int == 0,
                end as int % s as int == 0,
                b < q <= end,
                end == b + 8 * s,
                end <= old_self.slots(),
                q as int % s as int == 0,
                self.array@[b as int] == Node::Value(v0, w),
                forall|q2: int|
                    #![trigger self.array@[q2]]
                    b <= q2 < q && q2 % (s as int) == 0 ==> (self.array@[q2] matches Node::Value(v, wq)
                        && wq == w && v == v0),
            decreases end - q,
        {
            let same = match self.array[q] {
                Node::Value(v, wq) => wq == w && same_opt(&v, &v0),
                Node::Ref(_) => false,
            };
            if !same {
                return false;
            }
            proof {
                assert forall|x: int| q < x < q + s implies #[trigger] (x % (s as int)) != 0 by {
                    lemma_no_multiple_between(q as int, x, s as int);
                }
                assert((q + s) as int % (s as int) == 0) by {
                    vstd::arithmetic::div_mod::lemma_mod_add_multiples_vanish(q as int, s as int);
                }
                if q + s > end {
                    lemma_no_multiple_between(q as int, end as int, s as int);
                }
            }
            q = q + s;
        }
        proof {
            assert(self.group_ready(b as int, s as int, w));
        }
        let mut j = b + 1;
        while j < end
            invariant
                old_self.wf(),
                old_self.group_ready(b as int, s as int, w),
                b < j <= end,
                end == b + 8 * s,
                end <= old_self.slots(),
                self.depth == old_self.depth,
                self.lod == old_self.lod,
                self.len == old_self.len,
                self.array@.len() == old_self.array@.len(),
                forall|i: int| b < i < j ==> #[trigger] self.array@[i] == Node::<T>::Ref(b),
                forall|i: int|
                    0 <= i < self.array@.len() && !(b < i < j) ==> #[trigger] self.array@[i]
                        == old_self.array@[i],
            decreases end - j,
        {
            self.array.set(j, Node::Ref(b));
            j = j + 1;
        }
        self.array.set(b, Node::Value(v0, 2 * w));
        proof {
            self.lemma_merged_group(old_self, b as int, s as int, w, d as nat, v0);
            assert forall|k: int|
                #![trigger self.owner(k)]
                #![trigger old_self.owner(k)]
                0 <= k < old_self.slots() && !(b <= k < b + 8 * s) implies self.owner(k)
                == old_self.owner(k) && !(b <= old_self.owner(k) < b + 8 * s) by {
                assert(self.owner(k) == old_self.owner(k));
            }
        }
        true
    }

    /// The state after the rewrite of a ready group is well formed and holds
    /// the same cells.
    proof fn lemma_merged_group(&self, old_self: Self, b: int, s: int, w: usize, d: nat, v0: Option<T>)
        requires
            old_self.wf(),
            old_self.group_ready(b, s, w),
            old_self.array@[b] == Node::Value(v0, w),
            0 <= b,
            1 <= d <= old_self.depth,
            s == pow8((d - 1) as nat),
            w == pow2((d - 1) as nat),
            pow8(d) == 8 * s,
            pow2(d) == 2 * w,
            b % (8 * s) == 0,
            b + 8 * s <= old_self.slots(),
            self.depth == old_self.depth,
            self.lod == old_self.lod,
            self.len == old_self.len,
            self.array@.len() == old_self.array@.len(),
            self.array@[b] == Node::Value(v0, (2 * w) as usize),
            forall|i: int| b < i < b + 8 * s ==> #[trigger] self.array@[i] == Node::<T>::Ref(b as usize),
            forall|i: int|
                0 <= i < self.array@.len() && !(b <= i < b + 8 * s) ==> #[trigger] self.array@[i]
                    == old_self.array@[i],
        ensures
            self.wf(),
            self@ == old_self@,
            self.level(b) == d,
            forall|k: int| b <= k < b + 8 * s ==> #[trigger] self.owner(k) == b,
            forall|k: int|
                0 <= k < old_self.slots() && !(b <= k < b + 8 * s) ==> #[trigger] self.owner(k)
                    == old_self.owner(k) && !(b <= old_self.owner(k) < b + 8 * s),
    {
        let n = old_self.slots() as int;
        lemma_pow_facts(old_self.depth as nat);
        lemma_pow_facts((d - 1) as nat);
        lemma_log2_pow2(d);
        lemma_log2_pow2((d - 1) as nat);
        assert(self.level(b) == d);
        assert(self.region(b) == 8 * s);
        // the old owner of a slot of the group is the start of its sub-block
        assert forall|k: int| b <= k < b + 8 * s implies old_self.cell(k) == v0 by {
            let q = k - k % s;
            lemma_sub_block(b, s, 8, k);
            assert((old_self.array@[q] matches Node::Value(v, wq) && wq == w && v == v0));
            assert(old_self.value_ok(q));
            assert(old_self.region(q) == s);
            if k != q {
                assert(old_self.array@[k] == Node::<T>::Ref(q as usize));
            }
        }
        assert forall|k: int| 0 <= k < n && !(b <= k < b + 8 * s) && old_self.array@[k] is Ref
            implies !(b <= old_self.owner(k) < b + 8 * s) by {
            assert(old_self.ref_ok(k));
            let u = old_self.owner(k);
            if b <= u < b + 8 * s {
                let q = u - u % s;
                lemma_sub_block(b, s, 8, u);
                assert((old_self.array@[q] matches Node::Value(v, wq) && wq == w));
                assert(old_self.value_ok(q));
                assert(old_self.region(q) == s);
                assert(u == q);
            }
        }
        assert forall|k: int| 0 <= k < n implies self.cell(k) == old_self.cell(k) by {
            assert(old_self.ref_ok(k));
        }
        assert(self@ =~= old_self@);
        assert forall|k: int| 0 <= k < n implies #[trigger] self.value_ok(k) by {
            if k == b {
            } else if b < k < b + 8 * s {
            } else {
                assert(old_self.value_ok(k));
                if self.array@[k] is Value {
                    old_self.lemma_region_fits(k);
                    assert forall|i: int| #![trigger self.array@[i]]
                        k < i < k + self.region(k) implies self.array@[i] == Node::<T>::Ref(k as usize) by {
                        assert(old_self.array@[i] == Node::<T>::Ref(k as usize));
                        if b <= i < b + 8 * s {
                            assert(!(b <= old_self.owner(i) < b + 8 * s));
                        }
                    }
                }
            }
        }
        assert forall|k: int| 0 <= k < n implies #[trigger] self.ref_ok(k) by {
            assert(old_self.ref_ok(k));
        }
    }

    /// The owner of a slot starts the aligned region that holds it.
    proof fn lemma_owner_aligned(&self, k: int)
        requires
            self.wf(),
            0 <= k < self.slots(),
        ensures
            self.owner(k) <= k < self.owner(k) + self.region(self.owner(k)),
            self.owner(k) == k - k % (self.region(self.owner(k)) as int),
            self.array@[self.owner(k)] is Value,
            0 <= self.owner(k),
    {
        assert(self.ref_ok(k));
        let p = self.owner(k);
        assert(self.value_ok(p));
        lemma_pow_facts(self.level(p));
        lemma_align_unique(p, k, self.region(p) as int);
    }

    /// A region is a block that may merge, so its level is at most the merge level.
    proof fn lemma_level_le_ml(&self, k: int)
        requires
            self.wf(),
            0 <= k < self.slots(),
        ensures
            self.merged_level(k) <= merge_level(self@, k, 0, self.depth as nat),
    {
        self.lemma_owner_aligned(k);
        let p = self.owner(k);
        let e = self.level(p);
        assert(self.value_ok(p));
        lemma_ml_bounds(self@, k, 0, self.depth as nat);
        if e > 0 {
            self.lemma_region_fits(p);
            lemma_pow_facts(self.depth as nat);
            assert forall|j: int| p <= j < p + pow8(e) implies #[trigger] self@[j] == self@[p] by {
                if j != p {
                    assert(self.array@[j] == Node::<T>::Ref(p as usize));
                }
            }
            if let Node::Value(_, w) = self.array@[p] {
                lemma_log2_pow2(e);
                assert(w as nat == pow2(e));
                assert(pow2(e) >= 2) by {
                    lemma_pow_facts((e - 1) as nat);
                }
            }
            lemma_ml_from_block(self@, k, 0, self.depth as nat, e);
        }
    }

    /// After one group of level `d` is processed, its slots are settled for
    /// the next level.
    proof fn lemma_group_settled(
        old_self: Self,
        new_self: Self,
        s0: Seq<Option<T>>,
        b: int,
        s: int,
        w: usize,
        d: nat,
        merged: bool,
    )
        requires
            old_self.wf(),
            new_self.wf(),
            old_self@ == s0,
            new_self@ == s0,
            new_self.depth == old_self.depth,
            1 <= d <= old_self.depth,
            s == pow8((d - 1) as nat),
            w == pow2((d - 1) as nat),
            0 <= b,
            b % (8 * s) == 0,
            b + 8 * s <= old_self.slots(),
            merged == old_self.group_ready(b, s, w),
            !merged ==> new_self.array@ == old_self.array@,
            merged ==> new_self.level(b) == d,
            merged ==> forall|k: int| b <= k < b + 8 * s ==> #[trigger] new_self.owner(k) == b,
            forall|k: int| b <= k < b + 8 * s ==> #[trigger] old_self.settled(s0, k, d),
        ensures
            forall|k: int| b <= k < b + 8 * s ==> #[trigger] new_self.settled(s0, k, d + 1),
    {
        let dn = old_self.depth as nat;
        lemma_pow_facts((d - 1) as nat);
        lemma_pow_facts(d);
        lemma_pow_facts(dn);
        assert(pow8(d) == 8 * s);
        assert forall|k: int| b <= k < b + 8 * s implies #[trigger] new_self.settled(s0, k, d + 1) by {
            let l = merge_level(s0, k, 0, dn);
            new_self.lemma_level_le_ml(k);
            lemma_align_unique(b, k, 8 * s);
            if merged {
                assert forall|j: int| b <= j < b + pow8(d) implies #[trigger] s0[j] == s0[b] by {
                    assert(new_self.owner(j) == b);
                }
                assert(old_self.value_ok(b));
                lemma_ml_from_block(s0, k, 0, dn, d);
            } else {
                assert(old_self.settled(s0, k, d));
                if l >= d && old_self.merged_level(k) + 1 == d {
                    lemma_ml_block(s0, k, 0, dn, d);
                    Self::lemma_ready(old_self, s0, b, s, w, d, k);
                }
            }
        }
    }

    /// When a slot of the group could lie in a level-`d` region but does not
    /// yet, the group is ready to merge.
    proof fn lemma_ready(old_self: Self, s0: Seq<Option<T>>, b: int, s: int, w: usize, d: nat, k: int)
        requires
            old_self.wf(),
            old_self@ == s0,
            1 <= d <= old_self.depth,
            s == pow8((d - 1) as nat),
            w == pow2((d - 1) as nat),
            pow8(d) == 8 * s,
            0 <= b,
            b % (8 * s) == 0,
            b + 8 * s <= old_self.slots(),
            b <= k < b + 8 * s,
            block_ok(s0, b, d),
            old_self.merged_level(k) + 1 == d,
            forall|q: int| b <= q < b + 8 * s ==> #[trigger] old_self.settled(s0, q, d),
        ensures
            old_self.group_ready(b, s, w),
    {
        let dn = old_self.depth as nat;
        lemma_pow_facts((d - 1) as nat);
        lemma_pow_facts(dn);
        lemma_log2_pow2((d - 1) as nat);
        assert forall|q: int| b <= q < b + 8 * s && q % s == 0 implies (#[trigger] old_self.array@[q] matches Node::Value(
            v,
            wq,
        ) && wq == w && v == s0[b]) by {
            lemma_align_unique(b, q, 8 * s);
            lemma_ml_from_block(s0, q, 0, dn, d);
            assert(old_self.settled(s0, q, d));
            old_self.lemma_owner_aligned(q);
            old_self.lemma_owner_aligned(k);
            let u = old_self.owner(q);
            let lq = old_self.merged_level(q);
            if lq >= d {
                let c = (lq - d) as nat;
                lemma_pow8_split(c, d);
                assert(c + d == lq);
                lemma_pow_facts(c);
                lemma_nest(q, pow8(d) as int, pow8(c) as int);
                assert(u <= b && b + 8 * s <= u + old_self.region(u));
                assert(old_self.value_ok(u));
                if k != u {
                    assert(old_self.array@[k] == Node::<T>::Ref(u as usize));
                }
                assert(false);
            }
            assert(lq == d - 1);
            lemma_align_unique(q, q, s);
            assert(u == q);
            assert(old_self.value_ok(q));
            assert(s0[q] == old_self.cell(q));
        }
        assert(b % s == 0) by {
            lemma_multiple_of(b, s, 8);
        }
        assert(old_self.array@[b] is Value);
        assert(old_self.cell(b) == s0[b]);
    }

    /// Compacts the grid bottom-up, level by level: a group of eight sibling
    /// regions of equal width that hold one mergeable value becomes one region
    /// of twice the width, its first slot keeping the value and the other slots
    /// referring to it. Afterwards every cell lies in the largest aligned block
    /// around it whose cells may form one region. The cells keep their values.
    pub fn merge(&mut self)
        requires
            old(self).wf(),
        ensures
            final(self).wf(),
            final(self)@ == old(self)@,
            final(self).depth_spec() == old(self).depth_spec(),
            final(self).lod_spec() == old(self).lod_spec(),
            forall|k: int|
                0 <= k < final(self)@.len() ==> #[trigger] final(self).merged_level(k) == merge_level(
                    old(self)@,
                    k,
                    0,
                    old(self).depth_spec(),
                ),
    {
        let ghost s0 = self@;
        let n = self.array.len();
        let mut d: usize = 1;
        let mut s: usize = 1;
        let mut w: usize = 1;
        proof {
            lemma_pow_facts(self.depth as nat);
            assert(pow8(0) == 1 && pow2(0) == 1);
            assert forall|k: int| 0 <= k < n implies #[trigger] self.settled(s0, k, 1) by {
                self.lemma_level_le_ml(k);
            }
        }
        while d <= self.depth
            invariant
                self.wf(),
                self@ == s0,
                self.depth == old(self).depth,
                self.lod == old(self).lod,
                n == self.slots(),
                n <= 0x4000_0000,
                1 <= d <= self.depth + 1,
                s == pow8((d - 1) as nat),
                w == pow2((d - 1) as nat),
                forall|k: int| 0 <= k < n ==> #[trigger] self.settled(s0, k, d as nat),
            decreases self.depth + 1 - d,
        {
            proof {
                lemma_pow8_monotone(d as nat, self.depth as nat);
                lemma_pow_facts(d as nat);
                lemma_pow_facts((d - 1) as nat);
                lemma_pow8_split(d as nat, (self.depth - d) as nat);
                assert(d as nat + (self.depth - d) as nat == self.depth as nat);
                lemma_pow_facts((self.depth - d) as nat);
            }
            let size: usize = s * 8;
            let mut b: usize = 0;
            proof {
                vstd::arithmetic::div_mod::lemma_small_mod(0, size as nat);
            }
            while b < n
                invariant
                    self.wf(),
                    self@ == s0,
                    self.depth == old(self).depth,
                    self.lod == old(self).lod,
                    n == self.slots(),
                    n <= 0x4000_0000,
                    1 <= d <= self.depth,
                    s == pow8((d - 1) as nat),
                    w == pow2((d - 1) as nat),
                    size == 8 * s,
                    size == pow8(d as nat),
                    n == size * pow8((self.depth - d) as nat),
                    b <= n,
                    b as int % size as int == 0,
                    forall|k: int| 0 <= k < b ==> #[trigger] self.settled(s0, k, (d + 1) as nat),
                    forall|k: int| b <= k < n ==> #[trigger] self.settled(s0, k, d as nat),
                decreases n - b,
            {
                proof {
                    lemma_block_fits(b as int, size as int, pow8((self.depth - d) as nat) as int);
                }
                let ghost before = *self;
                let merged = self.merge_group(b, s, w, d);
                proof {
                    Self::lemma_group_settled(
                        before,
                        *self,
                        s0,
                        b as int,
                        s as int,
                        w,
                        d as nat,
                        merged,
                    );
                    assert forall|k: int|
                        0 <= k < n && !(b <= k < b + size) implies #[trigger] self.merged_level(k)
                        == before.merged_level(k) by {
                        if merged {
                            assert(self.owner(k) == before.owner(k));
                            let u = before.owner(k);
                            before.lemma_owner_aligned(k);
                            assert(self.array@[u] == before.array@[u]);
                        }
                    }
                    assert forall|k: int| 0 <= k < b + size implies #[trigger] self.settled(
                        s0,
                        k,
                        (d + 1) as nat,
                    ) by {
                        if k < b {
                            assert(before.settled(s0, k, (d + 1) as nat));
                        }
                    }
                    assert forall|k: int| b + size <= k < n implies #[trigger] self.settled(
                        s0,
                        k,
                        d as nat,
                    ) by {
                        assert(before.settled(s0, k, d as nat));
                    }
                    vstd::arithmetic::div_mod::lemma_mod_add_multiples_vanish(b as int, size as int);
                }
                b = b + size;
            }
            let ghost prev_d = d;
            proof {
                assert(b == n);
                assert forall|k: int| 0 <= k < n implies #[trigger] self.settled(s0, k, (prev_d + 1) as nat) by {
                }
            }
            s = size;
            w = w * 2;
            d = d + 1;
            proof {
                assert(pow2(d as nat) == 2 * pow2((d - 1) as nat));
                assert forall|k: int| 0 <= k < n implies #[trigger] self.settled(s0, k, d as nat) by {
                    assert(self.settled(s0, k, (prev_d + 1) as nat));
                    assert(d as nat == (prev_d + 1) as nat);
                }
            }
        }
        proof {
            assert forall|k: int| 0 <= k < self@.len() implies #[trigger] self.merged_level(k)
                == merge_level(s0, k, 0, self.depth as nat) by {
                assert(self.settled(s0, k, d as nat));
                lemma_ml_bounds(s0, k, 0, self.depth as nat);
            }
        }
    }

    /// The values of the merged regions met in the `m` slots from `start`, each once.
    fn region_values(&self, start: usize, m: usize) -> (r: Vec<T>)
        requires
            self.wf(),
            start + m <= self.slots(),
            m <= 0x4000_0000,
        ensures
            r@ == somes(self.regions_in(start as int, m as int)),
            r.len() <= m,
    {
        let ghost rs = self.regions_in(start as int, m as int);
        proof {
            lemma_pow_facts(self.depth as nat);
        }
        let mut vals: Vec<T> = Vec::new();
        let mut j: usize = 0;
        while j < m
            invariant
                self.wf(),
                start + m <= self.slots(),
                self.slots() <= 0x4000_0000,
                rs.len() == m,
                j <= m,
                rs == self.regions_in(start as int, m as int),
                vals@ == somes(rs.subrange(0, j as int)),
            decreases m - j,
        {
            proof {
                let a = rs.subrange(0, j as int + 1);
                assert(a.drop_last() == rs.subrange(0, j as int));
            }
            let first = match self.array[start + j] {
                Node::Value(_, _) => true,
                Node::Ref(_) => j == 0,
            };
            if first {
                if let Some(v) = self.cell_at(start + j) {
                    vals.push(v);
                }
            }
            j = j + 1;
        }
        proof {
            assert(rs.subrange(0, m as int) == rs);
            lemma_somes_len(rs);
        }
        vals
    }

    /// The values of the occupied cells among slots `start..end`, in order.
    fn window_values(&self, start: usize, end: usize) -> (r: Vec<T>)
        requires
            self.wf(),
            start <= end <= self.slots(),
        ensures
            r@ == somes(self@.subrange(start as int, end as int)),
            r.len() <= end - start,
    {
        let mut vals: Vec<T> = Vec::new();
        let mut j = start;
        while j < end
            invariant
                self.wf(),
                start <= j <= end <= self.slots(),
                vals@ == somes(self@.subrange(start as int, j as int)),
            decreases end - j,
        {
            proof {
                let a = self@.subrange(start as int, j as int + 1);
                assert(a.drop_last() == self@.subrange(start as int, j as int));
            }
            if let Some(v) = self.cell_at(j) {
                vals.push(v);
            }
            j = j + 1;
        }
        proof {
            lemma_somes_len(self@.subrange(start as int, end as int));
        }
        vals
    }

    /// Every region, empty ones included, in Morton order of their first slot.
    pub fn opt_elements(&self) -> (r: Vec<OptElement<T>>)
        requires
            self.wf(),
        ensures
            r@ == self.opt_elements_spec(self.slots()),
    {
        let n = self.array.len();
        let mut out: Vec<OptElement<T>> = Vec::new();
        let mut t: usize = 0;
        while t < n
            invariant
                self.wf(),
                n == self.slots(),
                t <= n,
                out@ == self.opt_elements_spec(t as nat),
            decreases n - t,
        {
            if let Node::Value(v, w) = self.array[t] {
                let (x, y, z) = array_index(t, self.depth);
                out.push(OptElement { x, y, z, width: w, value: v });
            }
            t = t + 1;
        }
        out
    }

    /// The occupied regions as seen at the grid's level of detail: the slots are
    /// read in windows of `8^lod`; a window inside a region at least as wide
    /// shows that region once, any other window shows the average of its cells
    /// with width `2^lod`. Empty results are left out.
    pub fn elements(&self) -> (r: Vec<Element<T>>)
        requires
            self.wf(),
        ensures
            r@ == self.elements_spec(self.window_count()),
    {
        let l: usize = if self.lod < self.depth {
            self.lod
        } else {
            self.depth
        };
        let mut m: usize = 1;
        let mut wl: usize = 1;
        let mut i: usize = 0;
        while i < l
            invariant
                i <= l <= self.depth <= MAX_DEPTH,
                m == pow8(i as nat),
                wl == pow2(i as nat),
            decreases l - i,
        {
            proof {
                lemma_pow8_monotone((i + 1) as nat, self.depth as nat);
                lemma_pow_facts(self.depth as nat);
            }
            m = m * 8;
            wl = wl * 2;
            i = i + 1;
        }
        let ghost q = pow8((self.depth - l) as nat);
        proof {
            lemma_pow8_split(l as nat, (self.depth - l) as nat);
            assert(l as nat + (self.depth - l) as nat == self.depth as nat);
            lemma_pow_facts(l as nat);
            lemma_pow_facts((self.depth - l) as nat);
            lemma_pow_facts(self.depth as nat);
            assert(m * q == self.slots());
            vstd::arithmetic::div_mod::lemma_div_by_multiple(q as int, m as int);
            assert(self.array@.len() as int / (m as int) == q as int) by {
                assert(q as int * m as int == m as int * q as int) by (nonlinear_arith);
            }
        }
        let count = self.array.len() / m;
        let mut out: Vec<Element<T>> = Vec::new();
        let mut c: usize = 0;
        while c < count
            invariant
                self.wf(),
                count == q,
                m == pow8(l as nat),
                wl == pow2(l as nat),
                l as nat == self.eff_lod(),
                m * q == self.slots(),
                m >= 1,
                self.slots() <= 0x4000_0000,
                c <= count,
                out@ == self.elements_spec(c as nat),
            decreases count - c,
        {
            proof {
                assert(c * m + m <= m * q) by (nonlinear_arith)
                    requires
                        c < q,
                        m >= 1,
                ;
                assert(c * m == m * c) by (nonlinear_arith);
            }
            let t = c * m;
            let p = self.resolve(t);
            proof {
                self.lemma_owner_aligned(t as int);
                assert(self.value_ok(p as int));
            }
            let w = match self.array[p] {
                Node::Value(_, w) => w,
                Node::Ref(_) => 1,
            };
            let (x, y, z) = array_index(t, self.depth);
            proof {
                let lv = self.merged_level(t as int);
                lemma_log2_pow2(lv);
                if lv >= l {
                    if lv > l {
                        lemma_pow2_strict(l as nat, lv);
                    }
                } else {
                    lemma_pow2_strict(lv, l as nat);
                }
            }
            if w >= wl {
                if p == t {
                    if let Node::Value(Some(v), w) = self.array[t] {
                        out.push(Element { x, y, z, width: w, value: v });
                    }
                }
            } else {
                let vals = self.window_values(t, t + m);
                if let Some(v) = T::average(&vals) {
                    out.push(Element { x, y, z, width: wl, value: v });
                }
            }
            c = c + 1;
        }
        out
    }
}


/// Reading a cell after writing it gives the written value, and no other cell
/// changes: the state that `insert(c, v)` leaves answers `get(c)` at lod 0 with `v`.
pub proof fn lemma_insert_then_get<T: Voxel>(t: LodTree<T>, c: (i32, i32, i32), v: T, after: LodTree<T>)
    requires
        t.wf(),
        after.wf(),
        t.in_bounds(c),
        after.depth_spec() == t.depth_spec(),
        after@ == t@.update(t.index_of(c), Some(v)),
    ensures
        after.get_spec(c) == Some(v),
        forall|c2: (i32, i32, i32)| c2 != c ==> after.get_spec(c2) == t.get_spec(c2),
{
    lemma_pow_facts(t.depth_spec());
    lemma_morton_bounds(c.0 as int, c.1 as int, c.2 as int, t.depth_spec());
    assert forall|c2: (i32, i32, i32)| c2 != c implies after.get_spec(c2) == t.get_spec(c2) by {
        if t.in_bounds(c2) {
            lemma_morton_bounds(c2.0 as int, c2.1 as int, c2.2 as int, t.depth_spec());
            if t.index_of(c2) == t.index_of(c) {
                lemma_morton_injective(
                    (c.0 as int, c.1 as int, c.2 as int),
                    (c2.0 as int, c2.1 as int, c2.2 as int),
                    t.depth_spec(),
                );
            }
        }
    }
}

/// After `remove(c)` the cell at `c` is empty, so `get(c)` is `None` and
/// `contains_key(c)` is false.
pub proof fn lemma_remove_clears<T: Voxel>(t: LodTree<T>, c: (i32, i32, i32), after: LodTree<T>)
    requires
        t.wf(),
        after.wf(),
        after.depth_spec() == t.depth_spec(),
        t.in_bounds(c) ==> after@ == t@.update(t.index_of(c), None),
        !t.in_bounds(c) ==> after@ == t@,
    ensures
        after.get_spec(c) is None,
{
    lemma_pow_facts(t.depth_spec());
    if t.in_bounds(c) {
        lemma_morton_bounds(c.0 as int, c.1 as int, c.2 as int, t.depth_spec());
    }
}

proof fn lemma_merge_shares_one<T: Voxel>(t: LodTree<T>, b: int, e: nat, after: LodTree<T>, k: int)
    requires
        t.wf(),
        1 <= e <= t.depth_spec(),
        0 <= b,
        b % (pow8(e) as int) == 0,
        b + pow8(e) <= t@.len(),
        b <= k < b + pow8(e),
        block_ok(t@, b, e),
        after.wf(),
        after@ == t@,
        after.depth_spec() == t.depth_spec(),
        after.merged_level(k) == merge_level(t@, k, 0, t.depth_spec()),
    ensures
        after.shares(k, b),
        after.merged_level(k) >= e,
{
    lemma_pow_facts(e);
    lemma_align_unique(b, k, pow8(e) as int);
    lemma_ml_from_block(t@, k, 0, t.depth_spec(), e);
    after.lemma_owner_aligned(k);
    let u = after.owner(k);
    let lk = after.merged_level(k);
    let c = (lk - e) as nat;
    lemma_pow8_split(c, e);
    assert(c + e == lk);
    lemma_pow_facts(c);
    lemma_nest(k, pow8(e) as int, pow8(c) as int);
    assert(after.value_ok(u));
    after.lemma_owner_aligned(b);
    if b != u {
        assert(after.array@[b] == Node::<T>::Ref(u as usize));
    }
}

/// When every cell of an aligned box of side `2^e` (the `8^e` slots from `b`)
/// holds one mergeable value, `merge` makes all of them share one stored value.
pub proof fn lemma_merge_shares<T: Voxel>(t: LodTree<T>, b: int, e: nat, after: LodTree<T>)
    requires
        t.wf(),
        1 <= e <= t.depth_spec(),
        0 <= b,
        b % (pow8(e) as int) == 0,
        b + pow8(e) <= t@.len(),
        block_ok(t@, b, e),
        after.wf(),
        after@ == t@,
        after.depth_spec() == t.depth_spec(),
        forall|k: int|
            0 <= k < after@.len() ==> #[trigger] after.merged_level(k) == merge_level(
                t@,
                k,
                0,
                t.depth_spec(),
            ),
    ensures
        forall|k: int| b <= k < b + pow8(e) ==> #[trigger] after.shares(k, b),
        forall|k: int| b <= k < b + pow8(e) ==> #[trigger] after.merged_level(k) >= e,
{
    assert forall|k: int| b <= k < b + pow8(e) implies #[trigger] after.shares(k, b)
        && after.merged_level(k) >= e by {
        assert(0 <= k < after@.len());
        assert(after.merged_level(k) == merge_level(t@, k, 0, t.depth_spec()));
        lemma_merge_shares_one(t, b, e, after, k);
    }
    assert forall|k: int| b <= k < b + pow8(e) implies #[trigger] after.merged_level(k) >= e by {
        assert(after.shares(k, b));
    }
}

/// `merge` joins the eight cells of a box of side 2 into one region exactly
/// when all eight hold one mergeable value: seven matching cells never merge.
pub proof fn lemma_merge_conditional<T: Voxel>(t: LodTree<T>, b: int, after: LodTree<T>)
    requires
        t.wf(),
        1 <= t.depth_spec(),
        0 <= b,
        b % 8 == 0,
        b + 8 <= t@.len(),
        after.wf(),
        after@ == t@,
        after.depth_spec() == t.depth_spec(),
        forall|k: int|
            0 <= k < after@.len() ==> #[trigger] after.merged_level(k) == merge_level(
                t@,
                k,
                0,
                t.depth_spec(),
            ),
    ensures
        forall|k: int| b <= k < b + 8 ==> (after.merged_level(k) >= 1 <==> block_ok(t@, b, 1)),
        block_ok(t@, b, 1) ==> forall|k: int| b <= k < b + 8 ==> after.shares(k, b),
        !block_ok(t@, b, 1) ==> forall|k: int|
            b <= k < b + 8 ==> after.merged_level(k) == 0 && (k != b ==> !after.shares(k, b)),
{
    assert(pow8(1) == 8) by {
        assert(pow8(0) == 1);
    }
    if block_ok(t@, b, 1) {
        lemma_merge_shares(t, b, 1, after);
    } else {
        assert forall|k: int| b <= k < b + 8 implies after.merged_level(k) == 0 && (k != b
            ==> !after.shares(k, b)) by {
            lemma_align_unique(b, k, 8);
            after.lemma_owner_aligned(k);
            after.lemma_owner_aligned(b);
            assert(after.merged_level(b) == 0);
            assert(pow8(0) == 1);
        }
    }
    assert forall|k: int| b <= k < b + 8 implies (after.merged_level(k) >= 1 <==> block_ok(t@, b, 1)) by {
        lemma_align_unique(b, k, 8);
        if block_ok(t@, b, 1) {
            lemma_ml_from_block(t@, k, 0, t.depth_spec(), 1);
        }
    }
}


/// Grids of one width have one depth.
pub proof fn lemma_width_depth<T: Voxel, U: Voxel>(a: LodTree<T>, b: LodTree<U>)
    requires
        a.width_spec() == b.width_spec(),
    ensures
        a.depth_spec() == b.depth_spec(),
{
    if a.depth_spec() < b.depth_spec() {
        lemma_pow2_strict(a.depth_spec(), b.depth_spec());
    } else if a.depth_spec() > b.depth_spec() {
        lemma_pow2_strict(b.depth_spec(), a.depth_spec());
    }
}


impl<T: Voxel> LodTree<T> {
    /// Every element lies in the grid and is at most as wide as the grid.
    pub proof fn lemma_elements_bounded(&self, i: nat)
        requires
            self.wf(),
            i <= self.window_count(),
        ensures
            forall|j: int|
                0 <= j < self.elements_spec(i).len() ==> {
                    let e = #[trigger] self.elements_spec(i)[j];
                    &&& in_cube(e.x as int, e.y as int, e.z as int, self.depth_spec())
                    &&& 1 <= e.width <= self.width_spec()
                },
        decreases i,
    {
        if i > 0 {
            self.lemma_elements_bounded((i - 1) as nat);
            let l = self.eff_lod();
            let m = pow8(l);
            let t = (i - 1) * m;
            lemma_pow8_split(l, (self.depth - l) as nat);
            assert(l + (self.depth - l) as nat == self.depth as nat);
            lemma_pow_facts(l);
            lemma_pow_facts(self.depth as nat);
            assert(t + m <= m * self.window_count()) by (nonlinear_arith)
                requires
                    t == (i - 1) * m,
                    i <= self.window_count(),
            ;
            assert(0 <= t) by (nonlinear_arith)
                requires
                    t == (i - 1) * m,
                    i >= 1,
            ;
            lemma_morton_of_axis(t, self.depth as nat);
            self.lemma_owner_aligned(t);
            let prev = self.elements_spec((i - 1) as nat);
            if let Some(e) = self.element_at(t) {
                let d = self.depth as nat;
                assert(e.x as int == axis(t, 1, d) && e.y as int == axis(t, 2, d) && e.z as int == axis(t, 4, d));
                if self.merged_level(t) >= l {
                    assert(self.value_ok(t));
                    if let Node::Value(_, w) = self.array@[t] {
                        lemma_pow_facts(log2(w as nat));
                        lemma_pow8_monotone(log2(w as nat), self.depth as nat);
                        assert(e.width == w);
                    }
                } else {
                    lemma_pow8_monotone(l, self.depth as nat);
                    assert(e.width == pow2(l));
                }
                assert(in_cube(e.x as int, e.y as int, e.z as int, d));
                assert(1 <= e.width <= self.width_spec());
                assert(self.elements_spec(i) == prev.push(e));
            } else {
                assert(self.elements_spec(i) == prev);
            }
        }
    }
}


/// A grid is at most 1024 cells wide.
pub proof fn lemma_width_bound<T: Voxel>(t: LodTree<T>)
    requires
        t.wf(),
    ensures
        1 <= t.width_spec() <= 1024,
        t.width_spec() == pow2(t.depth_spec()),
{
    lemma_pow_facts(t.depth_spec());
}


/// A run of equal cells: a value (or emptiness) and how many cells in a row hold it.
#[derive(Debug, Clone, Copy, PartialEq, Eq)]
pub struct Run<T> {
    pub value: Option<T>,
    pub len: usize,
}

/// The cells that a sequence of runs stands for, in order.
pub open spec fn expand<T>(runs: Seq<Run<T>>) -> Seq<Option<T>>
    decreases runs.len(),
{
    if runs.len() == 0 {
        Seq::empty()
    } else {
        let r = runs.last();
        expand(runs.drop_last()) + Seq::new(r.len as nat, |i: int| r.value)
    }
}

/// Every run is non-empty and neighbouring runs differ.
pub open spec fn runs_canonical<T>(runs: Seq<Run<T>>) -> bool {
    &&& forall|i: int| 0 <= i < runs.len() ==> #[trigger] runs[i].len > 0
    &&& forall|i: int| 0 <= i < runs.len() - 1 ==> #[trigger] runs[i].value != runs[i + 1].value
}

impl<T: Voxel> LodTree<T> {
    /// The slot after a region starts a region too.
    proof fn lemma_next_region(&self, t: int)
        requires
            self.wf(),
            0 <= t < self.slots(),
            self.array@[t] is Value,
            t + self.region(t) < self.slots(),
        ensures
            self.array@[t + self.region(t)] is Value,
    {
        let u = t + self.region(t);
        self.lemma_owner_aligned(u);
        self.lemma_owner_aligned(t);
        let q = self.owner(u);
        assert(self.value_ok(t));
        assert(self.ref_ok(u));
        if q != u {
            assert(self.value_ok(q));
            if t <= q < u {
                if q != t {
                    assert(self.array@[q] == Node::<T>::Ref(t as usize));
                }
            } else {
                assert(q < t);
                assert(self.array@[t] == Node::<T>::Ref(q as usize));
            }
        }
    }

    /// The cells in Morton order as runs of equal cells.
    pub fn runs(&self) -> (r: Vec<Run<T>>)
        requires
            self.wf(),
        ensures
            expand(r@) == self@,
            runs_canonical(r@),
    {
        let n = self.array.len();
        let mut out: Vec<Run<T>> = Vec::new();
        let mut t: usize = 0;
        proof {
            lemma_pow_facts(self.depth as nat);
            assert(self@.subrange(0, 0) =~= expand(out@));
            assert(self.ref_ok(0));
        }
        while t < n
            invariant
                self.wf(),
                n == self.slots(),
                n <= 0x4000_0000,
                t <= n,
                t < n ==> self.array@[t as int] is Value,
                expand(out@) == self@.subrange(0, t as int),
                runs_canonical(out@),
                out@.len() > 0 ==> self@[t - 1] == out@.last().value,
                forall|i: int| 0 <= i < out@.len() ==> #[trigger] out@[i].len <= t,
            decreases n - t,
        {
            let (v, w) = match self.array[t] {
                Node::Value(v, w) => (v, w),
                Node::Ref(_) => (None, 1),
            };
            proof {
                self.lemma_region_fits(t as int);
                assert(self.value_ok(t as int));
                lemma_pow_facts(log2(w as nat));
                lemma_pow8_monotone(log2(w as nat), self.depth as nat);
                assert(w <= 1024) by {
                    lemma_pow_facts(10);
                    lemma_pow8_monotone(log2(w as nat), 10);
                }
                assert(w * w <= 1024 * 1024) by (nonlinear_arith)
                    requires
                        w <= 1024,
                ;
            }
            let size = w * w * w;
            proof {
                assert(size as int == self.region(t as int));
                assert forall|k: int| t <= k < t + size implies #[trigger] self@[k] == v by {
                    if k != t {
                        assert(self.array@[k] == Node::<T>::Ref(t));
                    }
                }
            }
            let ghost before = out@;
            let last = out.len();
            let extend = if last > 0 {
                same_opt(&out[last - 1].value, &v)
            } else {
                false
            };
            if extend {
                let run = Run { value: v, len: out[last - 1].len + size };
                out.set(last - 1, run);
                proof {
                    let a = before.drop_last();
                    assert(out@.drop_last() == a);
                    assert(Seq::new(run.len as nat, |i: int| run.value) =~= Seq::new(
                        before.last().len as nat,
                        |i: int| before.last().value,
                    ) + Seq::new(size as nat, |i: int| v));
                }
            } else {
                out.push(Run { value: v, len: size });
                proof {
                    assert(out@.drop_last() == before);
                }
            }
            proof {
                assert(self@.subrange(0, t + size) =~= self@.subrange(0, t as int) + Seq::new(
                    size as nat,
                    |i: int| v,
                ));
                if t + size < n {
                    self.lemma_next_region(t as int);
                }
            }
            t = t + size;
        }
        proof {
            assert(self@.subrange(0, n as int) =~= self@);
        }
        out
    }

    /// The grid whose cells, in Morton order, are the expansion of `runs`,
    /// compacted by `merge`; `None` when the runs do not cover exactly
    /// `8^d` cells for some depth `d` up to 10.
    pub fn from_runs(runs: &Vec<Run<T>>) -> (r: Option<Self>)
        ensures
            r is Some <==> exists|d: nat| d <= 10 && expand(runs@).len() == pow8(d),
            r matches Some(t) ==> t.wf() && t@ == expand(runs@) && t.lod_spec() == 0,
    {
        let mut total: usize = 0;
        let mut i: usize = 0;
        while i < runs.len()
            invariant
                i <= runs@.len(),
                total == expand(runs@.subrange(0, i as int)).len(),
                total <= 0x4000_0000,
            decreases runs@.len() - i,
        {
            proof {
                assert(runs@.subrange(0, i + 1).drop_last() == runs@.subrange(0, i as int));
            }
            if runs[i].len > 0x4000_0000 - total {
                proof {
                    Self::lemma_expand_prefix_len(runs@, (i + 1) as int);
                    assert(forall|d: nat| d <= 10 ==> pow8(d) <= 0x4000_0000) by {
                        assert forall|d: nat| d <= 10 implies pow8(d) <= 0x4000_0000 by {
                            lemma_pow_facts(d);
                        }
                    }
                }
                return None;
            }
            total = total + runs[i].len;
            i = i + 1;
        }
        proof {
            assert(runs@.subrange(0, i as int) == runs@);
        }
        let mut d: usize = 0;
        let mut cells: usize = 1;
        let mut w: usize = 1;
        while cells < total && d < 10
            invariant
                d <= 10,
                cells == pow8(d as nat),
                w == pow2(d as nat),
                total <= 0x4000_0000,
                forall|e: nat| e < d ==> pow8(e) < total,
            decreases 10 - d,
        {
            proof {
                lemma_pow_facts((d + 1) as nat);
            }
            cells = cells * 8;
            w = w * 2;
            d = d + 1;
        }
        if cells != total {
            proof {
                assert forall|e: nat| e <= 10 implies expand(runs@).len() != pow8(e) by {
                    if e > d {
                        lemma_pow8_monotone((d + 1) as nat, e);
                        lemma_pow_facts(d as nat);
                        if d < 10 {
                            assert(cells >= total);
                        } else {
                            assert(false);
                        }
                    }
                }
            }
            return None;
        }
        proof {
            lemma_pow_facts(d as nat);
            lemma_pow2_is_pow2(d as nat);
        }
        let mut tree = Self::new(w);
        proof {
            lemma_log2_pow2(d as nat);
            assert(tree.width_spec() == pow2(d as nat));
            if tree.depth != d {
                if tree.depth < d {
                    lemma_pow2_strict(tree.depth as nat, d as nat);
                } else {
                    lemma_pow2_strict(d as nat, tree.depth as nat);
                }
            }
            assert(tree.slots() == total);
            assert forall|m: int| 0 <= m < tree@.len() implies #[trigger] tree@[m] is None by {
                lemma_morton_of_axis(m, tree.depth as nat);
                let c = (axis(m, 1, tree.depth as nat) as i32, axis(m, 2, tree.depth as nat) as i32, axis(m, 4, tree.depth as nat) as i32);
                assert(tree.get_spec(c) is None);
            }
        }
        let mut k: usize = 0;
        let mut i: usize = 0;
        while i < runs.len()
            invariant
                tree.wf(),
                tree.lod_spec() == 0,
                tree@.len() == total,
                total == expand(runs@).len(),
                i <= runs@.len(),
                k == expand(runs@.subrange(0, i as int)).len(),
                k <= total,
                tree@.subrange(0, k as int) == expand(runs@.subrange(0, i as int)),
                forall|m: int| k <= m < total ==> #[trigger] tree@[m] is None,
            decreases runs@.len() - i,
        {
            let run = runs[i];
            proof {
                assert(runs@.subrange(0, i + 1).drop_last() == runs@.subrange(0, i as int));
                Self::lemma_expand_prefix_len(runs@, (i + 1) as int);
            }
            let mut j: usize = 0;
            while j < run.len
                invariant
                    tree.wf(),
                    tree.lod_spec() == 0,
                    tree@.len() == total,
                    k + run.len - j <= total,
                    j <= run.len,
                    tree@.subrange(0, k as int) == expand(runs@.subrange(0, i as int)) + Seq::new(
                        j as nat,
                        |x: int| run.value,
                    ),
                    forall|m: int| k <= m < total ==> #[trigger] tree@[m] is None,
                decreases run.len - j,
            {
                let ghost before = tree@;
                tree.write(k, run.value);
                proof {
                    assert(tree@.subrange(0, k + 1) =~= before.subrange(0, k as int).push(run.value));
                    assert(tree@.subrange(0, k + 1) =~= expand(runs@.subrange(0, i as int)) + Seq::new(
                        (j + 1) as nat,
                        |x: int| run.value,
                    ));
                }
                k = k + 1;
                j = j + 1;
            }
            proof {
                let s = runs@.subrange(0, i + 1);
                assert(s.last() == run);
                assert(expand(s) == expand(runs@.subrange(0, i as int)) + Seq::new(run.len as nat, |x: int| run.value));
            }
            i = i + 1;
        }
        proof {
            assert(runs@.subrange(0, i as int) == runs@);
            assert(tree@.subrange(0, k as int) == tree@);
        }
        tree.merge();
        Some(tree)
    }

    proof fn lemma_expand_prefix_len(runs: Seq<Run<T>>, i: int)
        requires
            0 <= i <= runs.len(),
        ensures
            expand(runs.subrange(0, i)).len() <= expand(runs).len(),
        decreases runs.len(),
    {
        if i < runs.len() {
            assert(runs.drop_last().subrange(0, i) == runs.subrange(0, i));
            Self::lemma_expand_prefix_len(runs.drop_last(), i);
        } else {
            assert(runs.subrange(0, i) == runs);
        }
    }
}


/// A grid holds `8^depth` cells, with depth at most 10.
pub proof fn lemma_view_len<T: Voxel>(t: LodTree<T>)
    requires
        t.wf(),
    ensures
        t@.len() == pow8(t.depth_spec()),
        t.depth_spec() <= 10,
{
}


/// Grids of one depth cover the same coordinates.
pub proof fn lemma_same_depth_bounds<T: Voxel, U: Voxel>(a: LodTree<T>, b: LodTree<U>, c: (i32, i32, i32))
    requires
        a.depth_spec() == b.depth_spec(),
    ensures
        a.in_bounds(c) == b.in_bounds(c),
{
}


/// The coordinates a grid covers: `[0, width)` on each axis.
pub proof fn lemma_in_bounds<T: Voxel>(t: LodTree<T>, c: (i32, i32, i32))
    ensures
        t.in_bounds(c) <==> (0 <= c.0 < t.width_spec() && 0 <= c.1 < t.width_spec() && 0 <= c.2
            < t.width_spec()),
{
}


pub proof fn lemma_count_same_shape<T>(a: Seq<Option<T>>, b: Seq<Option<T>>)
    requires
        a.len() == b.len(),
        forall|i: int| 0 <= i < a.len() ==> (a[i] is Some) == (b[i] is Some),
    ensures
        count_some(a) == count_some(b),
    decreases a.len(),
{
    if a.len() > 0 {
        lemma_count_same_shape(a.drop_last(), b.drop_last());
    }
}

impl<T: Voxel> LodTree<T> {
    /// The cells after the merged region holding slot `k` takes `v`.
    pub closed spec fn region_set(&self, k: int, v: T) -> Seq<Option<T>> {
        Seq::new(self@.len(), |j: int| if self.shares(j, k) { Some(v) } else { self@[j] })
    }

    /// Gives the occupied merged region holding `coords` the value `value`, in
    /// place: every cell of the region changes, no other. Refused (nothing
    /// changes, `false`) outside the grid, on an empty cell, and for a value
    /// that may not stand for a region wider than one cell.
    pub fn set_region(&mut self, coords: (i32, i32, i32), value: T) -> (r: bool)
        requires
            old(self).wf(),
        ensures
            final(self).wf(),
            final(self).depth_spec() == old(self).depth_spec(),
            final(self).lod_spec() == old(self).lod_spec(),
            r == (old(self).get_spec(coords) is Some && (old(self).merged_level(old(self).index_of(coords)) == 0
                || value.mergeable())),
            r ==> final(self)@ == old(self).region_set(old(self).index_of(coords), value),
            !r ==> final(self)@ == old(self)@,
    {
        if !self.bounds_check(coords) {
            return false;
        }
        let idx = depth_index(coords.0, coords.1, coords.2, self.depth);
        if self.cell_at(idx).is_none() {
            return false;
        }
        let p = self.resolve(idx);
        let w = match self.array[p] {
            Node::Value(_, w) => w,
            Node::Ref(_) => 1,
        };
        proof {
            assert(self.value_ok(p as int));
            lemma_pow_facts(log2(w as nat));
            if w > 1 {
                assert(log2(w as nat) > 0) by {
                    if log2(w as nat) == 0 {
                        assert(pow2(0) == 1);
                    }
                }
            } else {
                assert(log2(w as nat) == 0);
            }
        }
        if w > 1 && !value.can_merge() {
            return false;
        }
        let ghost old_self = *self;
        self.array.set(p, Node::Value(Some(value), w));
        proof {
            let n = old_self.slots() as int;
            assert forall|j: int| 0 <= j < n implies #[trigger] self.value_ok(j) by {
                assert(old_self.value_ok(j));
                if self.array@[j] is Value {
                    old_self.lemma_region_fits(j);
                    assert forall|i: int| #![trigger self.array@[i]]
                        j < i < j + self.region(j) implies self.array@[i] == Node::<T>::Ref(j as usize) by {
                        assert(old_self.array@[i] == Node::<T>::Ref(j as usize));
                    }
                }
            }
            assert forall|j: int| 0 <= j < n implies #[trigger] self.ref_ok(j) by {
                assert(old_self.ref_ok(j));
            }
            assert forall|j: int| 0 <= j < n implies self.cell(j) == (if old_self.shares(j, idx as int) {
                Some(value)
            } else {
                old_self@[j]
            }) by {
                assert(old_self.ref_ok(j));
            }
            assert(self@ =~= old_self.region_set(idx as int, value));
            lemma_count_same_shape(self@, old_self@);
        }
        true
    }
}

} // verus!
