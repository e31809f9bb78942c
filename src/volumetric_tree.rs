//! A pointer-based octree over `[-width/2, width/2)` on each axis that merges
//! eight equal leaves into one as soon as they form.
use vstd::prelude::*;

use crate::lod_tree::{Voxel, is_pow2};

verus! {

/// A node of the tree: a leaf region holding one optional value, or a branch
/// of eight children of half its width.
#[derive(Debug)]
pub enum Node<T> {
    Leaf { width: usize, value: Option<T> },
    Branch { width: usize, elems: Vec<Node<T>> },
}

/// Which child holds `c`: bit 0 for x >= 0, bit 1 for y >= 0, bit 2 for z >= 0.
pub open spec fn child_index(c: (int, int, int)) -> int {
    (if c.0 >= 0 {
        1int
    } else {
        0int
    }) + 2 * (if c.1 >= 0 {
        1int
    } else {
        0int
    }) + 4 * (if c.2 >= 0 {
        1int
    } else {
        0int
    })
}

/// Coordinate `x` of a node of width `w`, seen from the child that holds it.
pub open spec fn child_axis(x: int, w: int) -> int {
    if x >= 0 {
        x - w / 2 + w / 4
    } else {
        x + w / 4
    }
}

pub open spec fn child_coords(c: (int, int, int), w: int) -> (int, int, int) {
    (child_axis(c.0, w), child_axis(c.1, w), child_axis(c.2, w))
}

/// The coordinates a node of width `w` covers on one axis; a single cell
/// answers to any coordinate.
pub open spec fn axis_in(x: int, w: int) -> bool {
    if w == 1 {
        true
    } else {
        -(w / 2) <= x < w / 2
    }
}

pub open spec fn in_node(c: (int, int, int), w: int) -> bool {
    axis_in(c.0, w) && axis_in(c.1, w) && axis_in(c.2, w)
}

/// `a` and `b` name one cell of a node of width `w`: they are equal, or the
/// node is a single cell.
pub open spec fn same_cell(a: (int, int, int), b: (int, int, int), w: int) -> bool {
    w == 1 || a == b
}

/// The eight children are leaves that hold one value.
pub open spec fn all_leaves_equal<T>(elems: Vec<Node<T>>) -> bool {
    &&& elems.len() == 8
    &&& forall|i: int|
        0 <= i < 8 ==> (#[trigger] elems[i] matches Node::Leaf { value, .. } && elems[0] matches Node::Leaf {
            value: v0,
            ..
        } && value == v0)
}

/// No branch anywhere has eight leaves with one value: such a branch is
/// always collapsed into one leaf of its width.
pub open spec fn canonical<T>(n: Node<T>) -> bool
    decreases n,
{
    match n {
        Node::Leaf { .. } => true,
        Node::Branch { elems, .. } => {
            &&& elems.len() == 8
            &&& !all_leaves_equal(elems)
            &&& forall|i: int| 0 <= i < 8 ==> canonical(#[trigger] elems[i])
        },
    }
}

/// The children of `n`, if any, are canonical.
pub open spec fn children_canonical<T>(n: Node<T>) -> bool {
    match n {
        Node::Leaf { .. } => true,
        Node::Branch { elems, .. } => elems.len() == 8 && forall|i: int| 0 <= i < 8 ==> canonical(#[trigger] elems[i]),
    }
}

impl<T> Node<T> {
    pub open spec fn width_spec(&self) -> nat {
        match self {
            Node::Leaf { width, .. } => *width as nat,
            Node::Branch { width, .. } => *width as nat,
        }
    }
}

/// Well-formed: widths are powers of two, a branch has eight children of half its width.
pub open spec fn node_wf<T>(n: Node<T>) -> bool
    decreases n,
{
    match n {
        Node::Leaf { width, .. } => is_pow2(width as nat) && width <= 1024,
        Node::Branch { width, elems } => {
            &&& 2 <= width <= 1024
            &&& is_pow2(width as nat)
            &&& elems.len() == 8
            &&& forall|i: int|
                0 <= i < 8 ==> (#[trigger] elems[i]).width_spec() == width / 2 && node_wf(elems[i])
        },
    }
}

/// The value of the cell at `c`.
pub open spec fn node_get<T>(n: Node<T>, c: (int, int, int)) -> Option<T>
    decreases n,
{
    match n {
        Node::Leaf { value, .. } => value,
        Node::Branch { width, elems } => {
            if elems.len() == 8 {
                node_get(elems[child_index(c)], child_coords(c, width as int))
            } else {
                None
            }
        },
    }
}

/// Number of occupied cells.
pub open spec fn occupied<T>(n: Node<T>) -> nat
    decreases n,
{
    match n {
        Node::Leaf { width, value } => if value is Some {
            (width * width * width) as nat
        } else {
            0
        },
        Node::Branch { elems, .. } => {
            if elems.len() == 8 {
                occupied(elems[0]) + occupied(elems[1]) + occupied(elems[2]) + occupied(elems[3])
                    + occupied(elems[4]) + occupied(elems[5]) + occupied(elems[6]) + occupied(elems[7])
            } else {
                0
            }
        },
    }
}

proof fn lemma_child_in(c: (int, int, int), w: int)
    requires
        w >= 2,
        is_pow2(w as nat),
        in_node(c, w),
    ensures
        in_node(child_coords(c, w), w / 2),
        0 <= child_index(c) < 8,
{
    if w == 2 {
    } else {
        assert(w % 2 == 0 && is_pow2((w / 2) as nat));
        assert((w / 2) % 2 == 0) by {
            assert(w / 2 >= 2);
        }
    }
}

/// Two cells of a node that fall into the same child stay apart there.
proof fn lemma_child_injective(a: (int, int, int), b: (int, int, int), w: int)
    requires
        w >= 2,
        is_pow2(w as nat),
        in_node(a, w),
        in_node(b, w),
        child_index(a) == child_index(b),
        same_cell(child_coords(a, w), child_coords(b, w), w / 2),
    ensures
        a == b,
{
}

proof fn lemma_pow2_even(w: nat)
    requires
        is_pow2(w),
        w >= 2,
    ensures
        w % 2 == 0,
        is_pow2(w / 2),
        (w / 2) * (w / 2) * (w / 2) * 8 == w * w * w,
{
    let h = w / 2;
    assert(w == 2 * h);
    assert((2 * h) * (2 * h) * (2 * h) == h * h * h * 8) by (nonlinear_arith);
}

impl<T: Voxel> Node<T> {
    pub fn is_leaf(&self) -> (r: bool)
        ensures
            r == self is Leaf,
    {
        match self {
            Node::Leaf { .. } => true,
            Node::Branch { .. } => false,
        }
    }

    pub fn is_branch(&self) -> (r: bool)
        ensures
            r == self is Branch,
    {
        match self {
            Node::Leaf { .. } => false,
            Node::Branch { .. } => true,
        }
    }

    pub fn width(&self) -> (r: usize)
        ensures
            r == self.width_spec(),
    {
        match self {
            Node::Leaf { width, .. } => *width,
            Node::Branch { width, .. } => *width,
        }
    }

    /// A branch whose eight children are leaves with one value becomes a leaf.
    fn merged(self) -> (r: Node<T>)
        requires
            node_wf(self),
        ensures
            node_wf(r),
            r.width_spec() == self.width_spec(),
            forall|c: (int, int, int)| in_node(c, self.width_spec() as int) ==> node_get(r, c) == node_get(self, c),
            occupied(r) == occupied(self),
            children_canonical(self) ==> canonical(r),
    {
        let ghost orig = self;
        match self {
            Node::Leaf { .. } => self,
            Node::Branch { width, elems } => {
                proof {
                    assert(orig == Node::Branch { width, elems });
                }
                let v0 = match &elems[0] {
                    Node::Leaf { value, .. } => *value,
                    Node::Branch { .. } => {
                        return Node::Branch { width, elems };
                    },
                };
                let mut i: usize = 1;
                while i < 8
                    invariant
                        1 <= i <= 8,
                        elems.len() == 8,
                        orig == (Node::Branch { width, elems }),
                        orig == self,
                        node_wf(orig),
                        forall|j: int| 0 <= j < i ==> (#[trigger] elems[j] matches Node::Leaf { value, .. } && value == v0),
                    decreases 8 - i,
                {
                    let same = match &elems[i] {
                        Node::Leaf { value, .. } => match (value, &v0) {
                            (Some(a), Some(b)) => a.equals(b),
                            (None, None) => true,
                            _ => false,
                        },
                        Node::Branch { .. } => false,
                    };
                    if !same {
                        return Node::Branch { width, elems };
                    }
                    i = i + 1;
                }
                let r = Node::Leaf { width, value: v0 };
                proof {
                    let b = Node::Branch { width, elems };
                    assert(node_wf(b));
                    lemma_pow2_even(width as nat);
                    assert forall|j: int| 0 <= j < 8 implies #[trigger] elems[j] == (Node::<T>::Leaf {
                        width: width / 2,
                        value: v0,
                    }) by {
                        assert(elems[j].width_spec() == width / 2);
                    }
                    assert forall|c: (int, int, int)| in_node(c, width as int) implies node_get(r, c)
                        == node_get(b, c) by {
                        lemma_child_in(c, width as int);
                        let k = child_index(c);
                        assert(node_get(elems[k], child_coords(c, width as int)) == v0);
                    }
                    let h = (width / 2) as int;
                    assert forall|j: int| 0 <= j < 8 implies occupied(#[trigger] elems[j]) == (if v0 is Some {
                        h * h * h
                    } else {
                        0
                    }) by {}
                    assert(occupied(b) == occupied(elems[0]) + occupied(elems[1]) + occupied(elems[2])
                        + occupied(elems[3]) + occupied(elems[4]) + occupied(elems[5]) + occupied(elems[6])
                        + occupied(elems[7]));
                }
                r
            },
        }
    }

    /// This node with `value` stored at `c` (or the cell emptied, for `None`),
    /// and what the cell held.
    #[verifier::rlimit(80)]
    fn with_cell(self, c: (i32, i32, i32), value: Option<T>) -> (r: (Node<T>, Option<T>))
        requires
            node_wf(self),
            children_canonical(self),
            in_node((c.0 as int, c.1 as int, c.2 as int), self.width_spec() as int),
        ensures
            node_wf(r.0),
            canonical(r.0),
            r.0.width_spec() == self.width_spec(),
            r.1 == node_get(self, (c.0 as int, c.1 as int, c.2 as int)),
            forall|c2: (int, int, int)|
                in_node(c2, self.width_spec() as int) ==> node_get(r.0, c2) == if same_cell(
                    c2,
                    (c.0 as int, c.1 as int, c.2 as int),
                    self.width_spec() as int,
                ) {
                    value
                } else {
                    node_get(self, c2)
                },
            occupied(r.0) + (if r.1 is Some {
                1int
            } else {
                0int
            }) == occupied(self) + (if value is Some {
                1int
            } else {
                0int
            }),
        decreases self.width_spec(), if self is Leaf {
            1nat
        } else {
            0nat
        },
    {
        let ghost ci = (c.0 as int, c.1 as int, c.2 as int);
        match self {
            Node::Leaf { width, value: current } => {
                if width == 1 {
                    proof {
                    }
                    (Node::Leaf { width: 1, value }, current)
                } else {
                    let mut elems: Vec<Node<T>> = Vec::new();
                    let mut k: usize = 0;
                    while k < 8
                        invariant
                            k <= 8,
                            elems.len() == k,
                            forall|j: int| 0 <= j < k ==> #[trigger] elems[j] == (Node::<T>::Leaf {
                                width: width / 2,
                                value: current,
                            }),
                        decreases 8 - k,
                    {
                        elems.push(Node::Leaf { width: width / 2, value: current });
                        k = k + 1;
                    }
                    let b = Node::Branch { width, elems };
                    proof {
                        lemma_pow2_even(width as nat);
                        assert forall|i: int| 0 <= i < 8 implies (#[trigger] elems[i]).width_spec() == width / 2
                            && node_wf(elems[i]) by {
                            assert(elems[i] == (Node::<T>::Leaf { width: width / 2, value: current }));
                        }
                        assert(node_wf(b));
                        assert forall|c2: (int, int, int)| in_node(c2, width as int) implies node_get(b, c2)
                            == current by {
                            lemma_child_in(c2, width as int);
                            let k = child_index(c2);
                            assert(elems[k] == (Node::<T>::Leaf { width: width / 2, value: current }));
                            assert(node_get(elems[k], child_coords(c2, width as int)) == current);
                        }
                        let h = (width / 2) as int;
                        assert forall|j: int| 0 <= j < 8 implies occupied(#[trigger] elems[j]) == (if current is Some {
                            h * h * h
                        } else {
                            0
                        }) by {
                            assert(elems[j] == (Node::<T>::Leaf { width: width / 2, value: current }));
                        }
                        assert(occupied(b) == occupied(elems[0]) + occupied(elems[1]) + occupied(elems[2])
                            + occupied(elems[3]) + occupied(elems[4]) + occupied(elems[5]) + occupied(elems[6])
                            + occupied(elems[7]));
                    }
                    proof {
                        assert forall|i: int| 0 <= i < 8 implies canonical(#[trigger] elems[i]) by {
                            assert(elems[i] == (Node::<T>::Leaf { width: width / 2, value: current }));
                        }
                    }
                    b.with_cell(c, value)
                }
            },
            Node::Branch { width, mut elems } => {
                let ghost old_elems = elems@;
                let ghost old_node = Node::Branch { width, elems: elems };
                proof {
                    lemma_child_in(ci, width as int);
                    lemma_pow2_even(width as nat);
                }
                let dx: usize = if c.0 >= 0 { 1 } else { 0 };
                let dy: usize = if c.1 >= 0 { 1 } else { 0 };
                let dz: usize = if c.2 >= 0 { 1 } else { 0 };
                let idx = dx + 2 * dy + 4 * dz;
                let w2 = (width / 2) as i32;
                let w4 = w2 / 2;
                let cc = (
                    if c.0 >= 0 { c.0 - w2 + w4 } else { c.0 + w4 },
                    if c.1 >= 0 { c.1 - w2 + w4 } else { c.1 + w4 },
                    if c.2 >= 0 { c.2 - w2 + w4 } else { c.2 + w4 },
                );
                proof {
                    assert(idx == child_index(ci));
                    assert((cc.0 as int, cc.1 as int, cc.2 as int) == child_coords(ci, width as int));
                    assert(node_wf(old_elems[idx as int]));
                }
                proof {
                    assert(canonical(old_elems[idx as int]));
                    assert(children_canonical(old_elems[idx as int]));
                }
                let child = elems.remove(idx);
                let (new_child, prev) = child.with_cell(cc, value);
                elems.insert(idx, new_child);
                let b = Node::Branch { width, elems };
                proof {
                    assert(elems@ == old_elems.update(idx as int, new_child));
                    assert forall|i: int| 0 <= i < 8 implies (#[trigger] elems[i]).width_spec() == width / 2
                        && node_wf(elems[i]) by {
                        if i != idx {
                            assert(elems[i] == old_elems[i]);
                        }
                    }
                    assert(node_wf(b));
                    assert forall|c2: (int, int, int)| in_node(c2, width as int) implies node_get(b, c2)
                        == if c2 == ci {
                        value
                    } else {
                        node_get(old_node, c2)
                    } by {
                        lemma_child_in(c2, width as int);
                        if child_index(c2) == idx && c2 != ci {
                            if same_cell(child_coords(c2, width as int), child_coords(ci, width as int), width as int / 2) {
                                lemma_child_injective(c2, ci, width as int);
                            }
                        }
                    }
                }
                proof {
                    assert forall|i: int| 0 <= i < 8 implies canonical(#[trigger] elems[i]) by {
                        if i != idx {
                            assert(elems[i] == old_elems[i]);
                            assert(canonical(old_elems[i]));
                        }
                    }
                    assert(children_canonical(b));
                }
                (b.merged(), prev)
            },
        }
    }
}

/// A region of the tree: its lowest corner, width and value.
#[derive(Debug, Clone, Copy, PartialEq, Eq)]
pub struct Element<T> {
    pub x: i32,
    pub y: i32,
    pub z: i32,
    pub width: usize,
    pub value: T,
}

/// Offset of child `i` along x, y and z: 0 or 1.
pub open spec fn dir(i: int) -> (int, int, int) {
    (i % 2, (i / 2) % 2, (i / 4) % 2)
}

/// The occupied leaves of `n`, whose lowest corner is `p`, depth first with
/// children in index order.
pub open spec fn leaves<T>(n: Node<T>, p: (int, int, int)) -> Seq<Element<T>>
    decreases n, 8int,
{
    match n {
        Node::Leaf { width, value } => match value {
            Some(v) => seq![Element { x: p.0 as i32, y: p.1 as i32, z: p.2 as i32, width, value: v }],
            None => Seq::empty(),
        },
        Node::Branch { width, elems } => if elems.len() == 8 {
            leaves_upto(elems@, width as int / 2, p, 8)
        } else {
            Seq::empty()
        },
    }
}

/// The leaves of the first `k` children.
pub open spec fn leaves_upto<T>(elems: Seq<Node<T>>, h: int, p: (int, int, int), k: int) -> Seq<Element<T>>
    decreases elems, k,
{
    if k <= 0 || k > elems.len() {
        Seq::empty()
    } else {
        let d = dir(k - 1);
        leaves_upto(elems, h, p, k - 1) + leaves(
            elems[k - 1],
            (p.0 + d.0 * h, p.1 + d.1 * h, p.2 + d.2 * h),
        )
    }
}

proof fn lemma_occupied_bound<T>(n: Node<T>)
    requires
        node_wf(n),
    ensures
        occupied(n) <= n.width_spec() * n.width_spec() * n.width_spec(),
    decreases n,
{
    match n {
        Node::Leaf { .. } => {},
        Node::Branch { width, elems } => {
            let h = (width / 2) as int;
            assert forall|i: int| 0 <= i < 8 implies occupied(#[trigger] elems[i]) <= h * h * h by {
                lemma_occupied_bound(elems[i]);
            }
            lemma_pow2_even(width as nat);
        },
    }
}

impl<T: Voxel> Node<T> {
    /// The value of the cell at `c`.
    pub fn get(&self, c: (i32, i32, i32)) -> (r: Option<&T>)
        requires
            node_wf(*self),
            in_node((c.0 as int, c.1 as int, c.2 as int), self.width_spec() as int),
        ensures
            r matches Some(v) ==> node_get(*self, (c.0 as int, c.1 as int, c.2 as int)) == Some(*v),
            r is None ==> node_get(*self, (c.0 as int, c.1 as int, c.2 as int)) is None,
        decreases self.width_spec(),
    {
        match self {
            Node::Leaf { value, .. } => match value {
                Some(v) => Some(v),
                None => None,
            },
            Node::Branch { width, elems } => {
                let ghost ci = (c.0 as int, c.1 as int, c.2 as int);
                proof {
                    lemma_child_in(ci, *width as int);
                }
                let dx: usize = if c.0 >= 0 { 1 } else { 0 };
                let dy: usize = if c.1 >= 0 { 1 } else { 0 };
                let dz: usize = if c.2 >= 0 { 1 } else { 0 };
                let idx = dx + 2 * dy + 4 * dz;
                let w2 = (*width / 2) as i32;
                let w4 = w2 / 2;
                let cc = (
                    if c.0 >= 0 { c.0 - w2 + w4 } else { c.0 + w4 },
                    if c.1 >= 0 { c.1 - w2 + w4 } else { c.1 + w4 },
                    if c.2 >= 0 { c.2 - w2 + w4 } else { c.2 + w4 },
                );
                proof {
                    assert(idx == child_index(ci));
                    assert(node_wf(elems[idx as int]));
                }
                elems[idx].get(cc)
            },
        }
    }

    /// Stores `value` at `c`, merging eight equal leaves back into one, and
    /// returns what the cell held.
    pub fn insert(&mut self, c: (i32, i32, i32), value: T) -> (r: Option<T>)
        requires
            node_wf(*old(self)),
            canonical(*old(self)),
            in_node((c.0 as int, c.1 as int, c.2 as int), old(self).width_spec() as int),
        ensures
            node_wf(*final(self)),
            canonical(*final(self)),
            final(self).width_spec() == old(self).width_spec(),
            r == node_get(*old(self), (c.0 as int, c.1 as int, c.2 as int)),
            forall|c2: (int, int, int)|
                in_node(c2, old(self).width_spec() as int) ==> node_get(*final(self), c2) == if same_cell(
                    c2,
                    (c.0 as int, c.1 as int, c.2 as int),
                    old(self).width_spec() as int,
                ) {
                    Some(value)
                } else {
                    node_get(*old(self), c2)
                },
    {
        let mut n = Node::Leaf { width: 1, value: None };
        std::mem::swap(self, &mut n);
        let (m, r) = n.with_cell(c, Some(value));
        *self = m;
        r
    }

    /// Empties the cell at `c` and returns what it held.
    pub fn remove(&mut self, c: (i32, i32, i32)) -> (r: Option<T>)
        requires
            node_wf(*old(self)),
            canonical(*old(self)),
            in_node((c.0 as int, c.1 as int, c.2 as int), old(self).width_spec() as int),
        ensures
            node_wf(*final(self)),
            canonical(*final(self)),
            final(self).width_spec() == old(self).width_spec(),
            r == node_get(*old(self), (c.0 as int, c.1 as int, c.2 as int)),
            forall|c2: (int, int, int)|
                in_node(c2, old(self).width_spec() as int) ==> node_get(*final(self), c2) == if same_cell(
                    c2,
                    (c.0 as int, c.1 as int, c.2 as int),
                    old(self).width_spec() as int,
                ) {
                    None
                } else {
                    node_get(*old(self), c2)
                },
    {
        let mut n = Node::Leaf { width: 1, value: None };
        std::mem::swap(self, &mut n);
        let (m, r) = n.with_cell(c, None);
        *self = m;
        r
    }

    /// Appends the occupied leaves of this node, whose lowest corner is
    /// `(x, y, z)`, to `out`.
    fn collect(&self, x: i32, y: i32, z: i32, out: &mut Vec<Element<T>>)
        requires
            node_wf(*self),
            -1024 <= x && x + self.width_spec() <= 1024,
            -1024 <= y && y + self.width_spec() <= 1024,
            -1024 <= z && z + self.width_spec() <= 1024,
        ensures
            final(out)@ == old(out)@ + leaves(*self, (x as int, y as int, z as int)),
        decreases self.width_spec(),
    {
        match self {
            Node::Leaf { width, value } => {
                match value {
                    Some(v) => {
                        out.push(Element { x, y, z, width: *width, value: *v });
                    },
                    None => {},
                }
                proof {
                    assert(final(out)@ =~= old(out)@ + leaves(*self, (x as int, y as int, z as int)));
                }
            },
            Node::Branch { width, elems } => {
                let h = (*width / 2) as i32;
                let ghost p = (x as int, y as int, z as int);
                let mut i: usize = 0;
                while i < 8
                    invariant
                        i <= 8,
                        node_wf(*self),
                        *self == (Node::Branch { width: *width, elems: *elems }),
                        h == *width / 2,
                        p == (x as int, y as int, z as int),
                        -1024 <= x && x + *width <= 1024,
                        -1024 <= y && y + *width <= 1024,
                        -1024 <= z && z + *width <= 1024,
                        out@ == old(out)@ + leaves_upto(elems@, h as int, p, i as int),
                    decreases 8 - i,
                {
                    let dx = (i % 2) as i32;
                    let dy = ((i / 2) % 2) as i32;
                    let dz = ((i / 4) % 2) as i32;
                    proof {
                        assert(node_wf(elems[i as int]));
                        assert(elems[i as int].width_spec() == *width / 2);
                        assert(dir(i as int) == (dx as int, dy as int, dz as int));
                        assert(0 <= dx <= 1 && 0 <= dy <= 1 && 0 <= dz <= 1);
                        assert(0 <= dx * h <= h && 0 <= dy * h <= h && 0 <= dz * h <= h) by (nonlinear_arith)
                            requires
                                0 <= dx <= 1,
                                0 <= dy <= 1,
                                0 <= dz <= 1,
                                h >= 0,
                        ;
                        assert(node_wf(*self));
                    }
                    let ghost before = out@;
                    elems[i].collect(x + dx * h, y + dy * h, z + dz * h, out);
                    proof {
                        let q = ((x + dx * h) as int, (y + dy * h) as int, (z + dz * h) as int);
                        let d = dir(i as int);
                        assert(d.0 == dx as int && d.1 == dy as int && d.2 == dz as int);
                        assert(q.0 == p.0 + d.0 * h);
                        assert(q.1 == p.1 + d.1 * h);
                        assert(q.2 == p.2 + d.2 * h);
                        assert(leaves_upto(elems@, h as int, p, i + 1) == leaves_upto(elems@, h as int, p, i as int)
                            + leaves(elems@[i as int], q));
                        assert(out@ == before + leaves(elems@[i as int], q));
                        assert(out@ =~= old(out)@ + leaves_upto(elems@, h as int, p, i + 1));
                    }
                    i = i + 1;
                }
            },
        }
    }
}

/// `a` comes before `b` ordering by x, then y, then z.
pub open spec fn lex_before(a: (i32, i32, i32), b: (i32, i32, i32)) -> bool {
    a.0 < b.0 || (a.0 == b.0 && (a.1 < b.1 || (a.1 == b.1 && a.2 < b.2)))
}

/// A sparse voxel grid over `[-width/2, width/2)` on each axis.
#[derive(Debug)]
pub struct VolumetricTree<T> {
    len: usize,
    root: Node<T>,
}

impl<T: Voxel> VolumetricTree<T> {
    pub closed spec fn wf(&self) -> bool {
        &&& node_wf(self.root)
        &&& canonical(self.root)
        &&& self.len == occupied(self.root)
    }

    pub closed spec fn width_spec(&self) -> nat {
        self.root.width_spec()
    }

    /// No branch of the tree holds eight leaves with one value.
    pub closed spec fn is_canonical(&self) -> bool {
        canonical(self.root)
    }

    pub closed spec fn len_spec(&self) -> nat {
        self.len as nat
    }

    /// The coordinates the grid covers.
    pub open spec fn in_tree(&self, c: (i32, i32, i32)) -> bool {
        let w = self.width_spec() as int;
        &&& -(w / 2) <= c.0 < w / 2
        &&& -(w / 2) <= c.1 < w / 2
        &&& -(w / 2) <= c.2 < w / 2
    }

    /// Content of the cell at `c`; `None` outside the grid.
    pub closed spec fn get_spec(&self, c: (i32, i32, i32)) -> Option<T> {
        if self.in_tree(c) {
            node_get(self.root, (c.0 as int, c.1 as int, c.2 as int))
        } else {
            None
        }
    }

    /// The occupied regions, depth first.
    pub closed spec fn elements_spec(&self) -> Seq<Element<T>> {
        let h = self.width_spec() as int / 2;
        leaves(self.root, (-h, -h, -h))
    }

    proof fn lemma_in_tree(&self, c: (i32, i32, i32))
        requires
            self.wf(),
            self.in_tree(c),
        ensures
            in_node((c.0 as int, c.1 as int, c.2 as int), self.width_spec() as int),
            self.width_spec() >= 2,
    {
    }

    /// An empty grid of side `width`.
    pub fn new(width: usize) -> (r: Self)
        requires
            is_pow2(width as nat),
            width <= 1024,
        ensures
            r.wf(),
            r.is_canonical(),
            r.width_spec() == width,
            r.len_spec() == 0,
            forall|c: (i32, i32, i32)| r.get_spec(c) is None,
    {
        VolumetricTree { len: 0, root: Node::Leaf { width, value: None } }
    }

    /// Number of cells.
    pub fn capacity(&self) -> (r: usize)
        requires
            self.wf(),
        ensures
            r == self.width_spec() * self.width_spec() * self.width_spec(),
    {
        let w = self.width();
        proof {
            assert(w * w <= 1024 * 1024) by (nonlinear_arith)
                requires
                    w <= 1024,
            ;
            assert(w * w * w <= 1024 * 1024 * 1024) by (nonlinear_arith)
                requires
                    w <= 1024,
                    w * w <= 1024 * 1024,
            ;
        }
        w * w * w
    }

    pub fn width(&self) -> (r: usize)
        requires
            self.wf(),
        ensures
            r == self.width_spec(),
            r <= 1024,
    {
        self.root.width()
    }

    /// Number of occupied cells.
    pub fn len(&self) -> (r: usize)
        requires
            self.wf(),
        ensures
            r == self.len_spec(),
    {
        self.len
    }

    pub fn is_empty(&self) -> (r: bool)
        requires
            self.wf(),
        ensures
            r == (self.len_spec() == 0),
    {
        self.len == 0
    }

    /// Empties every cell.
    pub fn clear(&mut self)
        requires
            old(self).wf(),
        ensures
            final(self).wf(),
            final(self).width_spec() == old(self).width_spec(),
            final(self).len_spec() == 0,
            forall|c: (i32, i32, i32)| final(self).get_spec(c) is None,
    {
        let width = self.root.width();
        self.root = Node::Leaf { width, value: None };
        self.len = 0;
    }

    /// Stores `value` at `c` and returns what the cell held; outside the grid
    /// nothing changes and the result is `None`.
    pub fn insert(&mut self, c: (i32, i32, i32), value: T) -> (r: Option<T>)
        requires
            old(self).wf(),
        ensures
            final(self).wf(),
            final(self).is_canonical(),
            final(self).width_spec() == old(self).width_spec(),
            r == old(self).get_spec(c),
            old(self).in_tree(c) ==> forall|c2: (i32, i32, i32)|
                #[trigger] final(self).get_spec(c2) == if c2 == c {
                    Some(value)
                } else {
                    old(self).get_spec(c2)
                },
            !old(self).in_tree(c) ==> forall|c2: (i32, i32, i32)|
                #[trigger] final(self).get_spec(c2) == old(self).get_spec(c2),
            final(self).len_spec() == old(self).len_spec() + (if r is None && old(self).in_tree(c) {
                1int
            } else {
                0int
            }),
    {
        let w = self.root.width() as i32;
        if c.0 >= w / 2 || c.0 < -(w / 2) || c.1 >= w / 2 || c.1 < -(w / 2) || c.2 >= w / 2 || c.2 < -(w / 2) {
            return None;
        }
        proof {
            self.lemma_in_tree(c);
        }
        let mut n = Node::Leaf { width: 1, value: None };
        std::mem::swap(&mut self.root, &mut n);
        let (m, r) = n.with_cell(c, Some(value));
        proof {
            lemma_occupied_bound(m);
            assert(m.width_spec() <= 1024);
            assert(m.width_spec() * m.width_spec() <= 1024 * 1024) by (nonlinear_arith)
                requires
                    m.width_spec() <= 1024,
            ;
            assert(m.width_spec() * m.width_spec() * m.width_spec() <= 1024 * 1024 * 1024) by (nonlinear_arith)
                requires
                    m.width_spec() <= 1024,
                    m.width_spec() * m.width_spec() <= 1024 * 1024,
            ;
        }
        self.root = m;
        if r.is_none() {
            self.len = self.len + 1;
        }
        proof {
            assert forall|c2: (i32, i32, i32)| #[trigger] self.get_spec(c2) == if c2 == c {
                Some(value)
            } else {
                old(self).get_spec(c2)
            } by {
                if c2 != c {
                    assert((c2.0 as int, c2.1 as int, c2.2 as int) != (c.0 as int, c.1 as int, c.2 as int));
                }
            }
        }
        r
    }

    /// Empties the cell at `c` and returns what it held.
    pub fn remove(&mut self, c: (i32, i32, i32)) -> (r: Option<T>)
        requires
            old(self).wf(),
        ensures
            final(self).wf(),
            final(self).is_canonical(),
            final(self).width_spec() == old(self).width_spec(),
            r == old(self).get_spec(c),
            forall|c2: (i32, i32, i32)|
                #[trigger] final(self).get_spec(c2) == if c2 == c {
                    None
                } else {
                    old(self).get_spec(c2)
                },
            final(self).len_spec() + (if r is Some {
                1int
            } else {
                0int
            }) == old(self).len_spec(),
    {
        let w = self.root.width() as i32;
        if c.0 >= w / 2 || c.0 < -(w / 2) || c.1 >= w / 2 || c.1 < -(w / 2) || c.2 >= w / 2 || c.2 < -(w / 2) {
            return None;
        }
        proof {
            self.lemma_in_tree(c);
        }
        let mut n = Node::Leaf { width: 1, value: None };
        std::mem::swap(&mut self.root, &mut n);
        let (m, r) = n.with_cell(c, None);
        self.root = m;
        if r.is_some() {
            self.len = self.len - 1;
        }
        proof {
            assert forall|c2: (i32, i32, i32)| #[trigger] self.get_spec(c2) == if c2 == c {
                None
            } else {
                old(self).get_spec(c2)
            } by {
                if c2 != c {
                    assert((c2.0 as int, c2.1 as int, c2.2 as int) != (c.0 as int, c.1 as int, c.2 as int));
                }
            }
        }
        r
    }

    /// The value of the cell at `c`.
    pub fn get(&self, c: (i32, i32, i32)) -> (r: Option<&T>)
        requires
            self.wf(),
        ensures
            r matches Some(v) ==> self.get_spec(c) == Some(*v),
            r is None ==> self.get_spec(c) is None,
    {
        let w = self.root.width() as i32;
        if c.0 >= w / 2 || c.0 < -(w / 2) || c.1 >= w / 2 || c.1 < -(w / 2) || c.2 >= w / 2 || c.2 < -(w / 2) {
            return None;
        }
        proof {
            self.lemma_in_tree(c);
        }
        self.root.get(c)
    }

    /// Whether the cell at `c` is occupied.
    pub fn contains_key(&self, c: (i32, i32, i32)) -> (r: bool)
        requires
            self.wf(),
        ensures
            r == self.get_spec(c) is Some,
    {
        self.get(c).is_some()
    }

    /// The first cell holding `value`, scanning x, then y, then z upward.
    pub fn position(&self, value: &T) -> (r: Option<(i32, i32, i32)>)
        requires
            self.wf(),
        ensures
            r matches Some(c) ==> self.get_spec(c) == Some(*value),
            r matches Some(c) ==> forall|c2: (i32, i32, i32)|
                lex_before(c2, c) ==> #[trigger] self.get_spec(c2) != Some(*value),
            r is None ==> forall|c: (i32, i32, i32)| self.get_spec(c) != Some(*value),
    {
        let h = (self.root.width() / 2) as i32;
        let mut x: i32 = -h;
        while x < h
            invariant
                -h <= x <= h,
                self.wf(),
                h == self.width_spec() as int / 2,
                forall|c: (i32, i32, i32)| -h <= c.0 < x ==> self.get_spec(c) != Some(*value),
            decreases h - x,
        {
            let mut y: i32 = -h;
            while y < h
                invariant
                    -h <= x < h,
                    -h <= y <= h,
                    self.wf(),
                    h == self.width_spec() as int / 2,
                    forall|c: (i32, i32, i32)| -h <= c.0 < x ==> self.get_spec(c) != Some(*value),
                    forall|c: (i32, i32, i32)| c.0 == x && -h <= c.1 < y ==> self.get_spec(c) != Some(*value),
                decreases h - y,
            {
                let mut z: i32 = -h;
                while z < h
                    invariant
                        -h <= x < h,
                        -h <= y < h,
                        -h <= z <= h,
                        self.wf(),
                        h == self.width_spec() as int / 2,
                        forall|c: (i32, i32, i32)| -h <= c.0 < x ==> self.get_spec(c) != Some(*value),
                        forall|c: (i32, i32, i32)| c.0 == x && -h <= c.1 < y ==> self.get_spec(c) != Some(*value),
                        forall|c: (i32, i32, i32)| c.0 == x && c.1 == y && -h <= c.2 < z ==> self.get_spec(c) != Some(*value),
                    decreases h - z,
                {
                    let found = match self.get((x, y, z)) {
                        Some(v) => v.equals(value),
                        None => false,
                    };
                    if found {
                        proof {
                            assert forall|c2: (i32, i32, i32)| lex_before(c2, (x, y, z)) implies #[trigger] self.get_spec(c2)
                                != Some(*value) by {
                                if !self.in_tree(c2) {
                                } else if c2.0 < x {
                                } else if c2.1 < y {
                                } else {
                                }
                            }
                        }
                        return Some((x, y, z));
                    }
                    z = z + 1;
                }
                y = y + 1;
            }
            x = x + 1;
        }
        proof {
            assert forall|c: (i32, i32, i32)| self.get_spec(c) != Some(*value) by {
                if !self.in_tree(c) {
                } else {
                    assert(-h <= c.0 < x);
                }
            }
        }
        None
    }

    /// Whether some cell holds `value`.
    pub fn contains(&self, value: &T) -> (r: bool)
        requires
            self.wf(),
        ensures
            r == exists|c: (i32, i32, i32)| self.get_spec(c) == Some(*value),
    {
        match self.position(value) {
            Some(c) => {
                proof {
                    assert(self.get_spec(c) == Some(*value));
                }
                true
            },
            None => false,
        }
    }

    /// The occupied regions (lowest corner, width, value), depth first with
    /// children ordered x, then y, then z.
    pub fn elements(&self) -> (r: Vec<Element<T>>)
        requires
            self.wf(),
        ensures
            r@ == self.elements_spec(),
    {
        let h = (self.root.width() / 2) as i32;
        let mut out: Vec<Element<T>> = Vec::new();
        self.root.collect(-h, -h, -h, &mut out);
        proof {
            assert(out@ =~= self.elements_spec());
        }
        out
    }
}


/// Some cell of the node of width `w` falls into child `i` at child coordinate `cc`.
proof fn lemma_child_onto(i: int, cc: (int, int, int), w: int) -> (c: (int, int, int))
    requires
        w >= 2,
        is_pow2(w as nat),
        0 <= i < 8,
        in_node(cc, w / 2),
    ensures
        in_node(c, w),
        child_index(c) == i,
        same_cell(child_coords(c, w), cc, w / 2),
{
    let back = |b: int, x: int|
        if w == 2 {
            if b == 1 {
                0int
            } else {
                -1int
            }
        } else if b == 1 {
            x + w / 2 - w / 4
        } else {
            x - w / 4
        };
    if w > 2 {
        assert(w % 2 == 0 && is_pow2((w / 2) as nat));
        assert((w / 2) % 2 == 0) by {
            assert(w / 2 >= 2);
        }
    }
    (back(i % 2, cc.0), back((i / 2) % 2, cc.1), back((i / 4) % 2, cc.2))
}

/// In a canonical tree a node whose cells all hold one value is a single
/// leaf: eight equal siblings never stay apart.
pub proof fn lemma_uniform_is_leaf<T>(n: Node<T>, v: Option<T>)
    requires
        node_wf(n),
        canonical(n),
        forall|c: (int, int, int)| in_node(c, n.width_spec() as int) ==> node_get(n, c) == v,
    ensures
        n == (Node::<T>::Leaf { width: n.width_spec() as usize, value: v }),
    decreases n,
{
    match n {
        Node::Leaf { width, value } => {
            if width == 1 {
                assert(node_get(n, (-1, -1, -1)) == v);
            } else {
                assert(in_node((0, 0, 0), width as int));
                assert(node_get(n, (0, 0, 0)) == v);
            }
        },
        Node::Branch { width, elems } => {
            assert forall|i: int| 0 <= i < 8 implies #[trigger] elems[i] == (Node::<T>::Leaf {
                width: (width / 2) as usize,
                value: v,
            }) by {
                let child = elems[i];
                assert(node_wf(child) && canonical(child));
                assert forall|cc: (int, int, int)| in_node(cc, child.width_spec() as int) implies node_get(child, cc)
                    == v by {
                    let c = lemma_child_onto(i, cc, width as int);
                    assert(node_get(n, c) == v);
                    assert(node_get(n, c) == node_get(child, child_coords(c, width as int)));
                    if child.width_spec() == 1 {
                        assert(child is Leaf);
                        if let Node::Leaf { value, .. } = child {
                            assert(node_get(child, cc) == value);
                            assert(node_get(child, child_coords(c, width as int)) == value);
                        }
                    } else {
                        assert(child_coords(c, width as int) == cc);
                    }
                }
                lemma_uniform_is_leaf(child, v);
            }
            assert(all_leaves_equal(elems));
        },
    }
}

} // verus!
