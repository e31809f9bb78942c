//! The per-world queue of pending chunk operations: at most one entry per
//! chunk coordinate, and an entry is only ever replaced by a later stage.
use vstd::prelude::*;

verus! {

/// A chunk coordinate, in world units.
pub type Coord = (i32, i32, i32);

/// The stages a chunk goes through, in pipeline order.
#[derive(Debug, Clone, Copy, PartialEq, Eq, PartialOrd, Ord, Hash)]
pub enum ChunkUpdate {
    GenerateChunk,
    UpdateLightMap,
    UpdateLight,
    UpdateMesh,
}

impl ChunkUpdate {
    pub open spec fn rank_spec(&self) -> nat {
        match self {
            ChunkUpdate::GenerateChunk => 0,
            ChunkUpdate::UpdateLightMap => 1,
            ChunkUpdate::UpdateLight => 2,
            ChunkUpdate::UpdateMesh => 3,
        }
    }

    /// Position of the stage in the pipeline.
    pub fn rank(&self) -> (r: u8)
        ensures
            r == self.rank_spec(),
    {
        match self {
            ChunkUpdate::GenerateChunk => 0,
            ChunkUpdate::UpdateLightMap => 1,
            ChunkUpdate::UpdateLight => 2,
            ChunkUpdate::UpdateMesh => 3,
        }
    }

    pub fn same(&self, other: &ChunkUpdate) -> (r: bool)
        ensures
            r == (*self == *other),
    {
        self.rank() == other.rank()
    }
}

/// What the queue holds after offering `u` at `c`: the entry at `c` becomes `u`
/// when there was none or `u` is a later stage; otherwise nothing changes.
pub open spec fn upsert_spec(m: Map<Coord, ChunkUpdate>, c: Coord, u: ChunkUpdate) -> Map<
    Coord,
    ChunkUpdate,
> {
    if !m.contains_key(c) || m[c].rank_spec() < u.rank_spec() {
        m.insert(c, u)
    } else {
        m
    }
}

/// The `i`-th of the 27 chunk coordinates around `c` (itself included), for
/// chunks of side `w`; offsets run over -1, 0, 1 on x, then y, then z.
pub open spec fn around(c: Coord, w: int, i: int) -> Coord {
    (
        (c.0 + (i / 9 - 1) * w) as i32,
        (c.1 + ((i / 3) % 3 - 1) * w) as i32,
        (c.2 + (i % 3 - 1) * w) as i32,
    )
}

/// `k` is one of the first `n` coordinates around `c`.
pub open spec fn near(c: Coord, w: int, k: Coord, n: int) -> bool {
    exists|i: int| 0 <= i < n && #[trigger] around(c, w, i) == k
}

/// The operation pending at `k` after `u` was offered there.
pub open spec fn raised(m: Map<Coord, ChunkUpdate>, k: Coord, u: ChunkUpdate) -> ChunkUpdate {
    if m.contains_key(k) && m[k].rank_spec() >= u.rank_spec() {
        m[k]
    } else {
        u
    }
}

/// The queue after `u` was offered at the first `n` coordinates around `c`.
pub open spec fn around_spec(m: Map<Coord, ChunkUpdate>, c: Coord, w: int, u: ChunkUpdate, n: int) -> Map<
    Coord,
    ChunkUpdate,
> {
    Map::new(
        |k: Coord| m.contains_key(k) || near(c, w, k, n),
        |k: Coord|
            if near(c, w, k, n) {
                raised(m, k, u)
            } else {
                m[k]
            },
    )
}

/// Coordinates around `c` stay inside `i32`.
pub open spec fn around_fits(c: Coord, w: i32) -> bool {
    &&& 0 <= w
    &&& -0x7fff_ffff + w <= c.0 <= 0x7fff_ffff - w
    &&& -0x7fff_ffff + w <= c.1 <= 0x7fff_ffff - w
    &&& -0x7fff_ffff + w <= c.2 <= 0x7fff_ffff - w
}

/// Offering an operation never moves a coordinate back to an earlier stage:
/// afterwards the entry is the later of the pending one and the offered one,
/// and every other coordinate keeps its entry.
pub proof fn lemma_upsert_monotone(m: Map<Coord, ChunkUpdate>, c: Coord, u: ChunkUpdate)
    ensures
        upsert_spec(m, c, u).contains_key(c),
        upsert_spec(m, c, u)[c] == raised(m, c, u),
        m.contains_key(c) ==> upsert_spec(m, c, u)[c].rank_spec() >= m[c].rank_spec(),
        upsert_spec(m, c, u)[c].rank_spec() >= u.rank_spec(),
        forall|k: Coord| k != c ==> upsert_spec(m, c, u).get(k) == m.get(k),
{
}

pub open spec fn keys_unique(s: Seq<(Coord, ChunkUpdate)>) -> bool {
    forall|i: int, j: int|
        0 <= i < s.len() && 0 <= j < s.len() && i != j ==> #[trigger] s[i].0 != #[trigger] s[j].0
}

pub open spec fn has_key(s: Seq<(Coord, ChunkUpdate)>, c: Coord) -> bool {
    exists|i: int| 0 <= i < s.len() && #[trigger] s[i].0 == c
}

pub open spec fn entry_of(s: Seq<(Coord, ChunkUpdate)>, c: Coord) -> ChunkUpdate {
    s[choose|i: int| 0 <= i < s.len() && #[trigger] s[i].0 == c].1
}

pub open spec fn map_of(s: Seq<(Coord, ChunkUpdate)>) -> Map<Coord, ChunkUpdate> {
    Map::new(|c: Coord| has_key(s, c), |c: Coord| entry_of(s, c))
}

proof fn lemma_entry_at(s: Seq<(Coord, ChunkUpdate)>, i: int)
    requires
        keys_unique(s),
        0 <= i < s.len(),
    ensures
        map_of(s).contains_key(s[i].0),
        map_of(s)[s[i].0] == s[i].1,
{
    assert(has_key(s, s[i].0));
    let j = choose|j: int| 0 <= j < s.len() && #[trigger] s[j].0 == s[i].0;
    assert(s[j].0 == s[i].0);
}

/// The pending operations of a world, keyed by chunk coordinate.
#[derive(Debug, Clone)]
pub struct MapUpdates {
    entries: Vec<(Coord, ChunkUpdate)>,
}

impl View for MapUpdates {
    type V = Map<Coord, ChunkUpdate>;

    closed spec fn view(&self) -> Map<Coord, ChunkUpdate> {
        map_of(self.entries@)
    }
}

impl MapUpdates {
    pub closed spec fn wf(&self) -> bool {
        keys_unique(self.entries@)
    }

    pub fn new() -> (r: Self)
        ensures
            r.wf(),
            r@ == Map::<Coord, ChunkUpdate>::empty(),
    {
        let r = MapUpdates { entries: Vec::new() };
        proof {
            assert(r@ =~= Map::<Coord, ChunkUpdate>::empty());
        }
        r
    }

    /// Where the entry for `c` stands.
    fn find(&self, c: Coord) -> (r: Option<usize>)
        requires
            self.wf(),
        ensures
            r matches Some(i) ==> i < self.entries@.len() && self.entries@[i as int].0 == c,
            r is None ==> !has_key(self.entries@, c),
    {
        let mut i: usize = 0;
        while i < self.entries.len()
            invariant
                i <= self.entries@.len(),
                forall|j: int| 0 <= j < i ==> self.entries@[j].0 != c,
            decreases self.entries@.len() - i,
        {
            let e = self.entries[i].0;
            if e.0 == c.0 && e.1 == c.1 && e.2 == c.2 {
                return Some(i);
            }
            i = i + 1;
        }
        None
    }

    /// The pending operation at `c`.
    pub fn get(&self, c: Coord) -> (r: Option<ChunkUpdate>)
        requires
            self.wf(),
        ensures
            r == self@.get(c),
    {
        match self.find(c) {
            Some(i) => {
                proof {
                    lemma_entry_at(self.entries@, i as int);
                }
                Some(self.entries[i].1)
            },
            None => None,
        }
    }

    pub fn contains_key(&self, c: Coord) -> (r: bool)
        requires
            self.wf(),
        ensures
            r == self@.contains_key(c),
    {
        self.find(c).is_some()
    }

    /// Number of pending entries.
    pub fn len(&self) -> (r: usize)
        requires
            self.wf(),
        ensures
            r == self@.dom().len(),
    {
        proof {
            self.lemma_len();
        }
        self.entries.len()
    }

    proof fn lemma_len(&self)
        requires
            self.wf(),
        ensures
            self@.dom().len() == self.entries@.len(),
            self@.dom().finite(),
        decreases self.entries@.len(),
    {
        let s = self.entries@;
        let keys = s.map_values(|e: (Coord, ChunkUpdate)| e.0);
        assert forall|i: int, j: int| 0 <= i < keys.len() && 0 <= j < keys.len() && i != j implies keys[i]
            != keys[j] by {
            assert(s[i].0 != s[j].0);
        }
        assert(keys.no_duplicates());
        keys.unique_seq_to_set();
        vstd::seq_lib::seq_to_set_is_finite(keys);
        assert forall|c: Coord| #[trigger] self@.dom().contains(c) <==> keys.to_set().contains(c) by {
            if self@.dom().contains(c) {
                let i = choose|i: int| 0 <= i < s.len() && #[trigger] s[i].0 == c;
                assert(keys[i] == c);
            }
            if keys.to_set().contains(c) {
                let i = choose|i: int| 0 <= i < keys.len() && keys[i] == c;
                assert(s[i].0 == c);
            }
        }
        assert(self@.dom() =~= keys.to_set());
    }

    /// Offers operation `u` for `c`: it is recorded when `c` has no pending
    /// operation or only an earlier stage; a pending later or equal stage stays.
    /// Returns whether the entry changed.
    pub fn upsert(&mut self, c: Coord, u: ChunkUpdate) -> (changed: bool)
        requires
            old(self).wf(),
        ensures
            final(self).wf(),
            final(self)@ == upsert_spec(old(self)@, c, u),
            changed == (final(self)@ != old(self)@),
    {
        let ghost s0 = self.entries@;
        match self.find(c) {
            Some(i) => {
                proof {
                    lemma_entry_at(s0, i as int);
                }
                let cur = self.entries[i].1;
                if cur.rank() < u.rank() {
                    self.entries.set(i, (c, u));
                    proof {
                        let s = self.entries@;
                        assert(s == s0.update(i as int, (c, u)));
                        assert forall|k: Coord| #[trigger] has_key(s, k) <==> has_key(s0, k) by {
                            if has_key(s, k) {
                                let j = choose|j: int| 0 <= j < s.len() && #[trigger] s[j].0 == k;
                                assert(s0[j].0 == k);
                            }
                            if has_key(s0, k) {
                                let j = choose|j: int| 0 <= j < s0.len() && #[trigger] s0[j].0 == k;
                                assert(s[j].0 == k);
                            }
                        }
                        assert forall|k: Coord| has_key(s, k) implies #[trigger] entry_of(s, k) == (if k
                            == c {
                            u
                        } else {
                            entry_of(s0, k)
                        }) by {
                            let j = choose|j: int| 0 <= j < s.len() && #[trigger] s[j].0 == k;
                            lemma_entry_at(s, j);
                            lemma_entry_at(s0, j);
                        }
                        assert(map_of(s) =~= map_of(s0).insert(c, u));
                        assert(map_of(s0)[c] != u);
                        assert(map_of(s) != map_of(s0)) by {
                            assert(map_of(s)[c] != map_of(s0)[c]);
                        }
                    }
                    true
                } else {
                    false
                }
            },
            None => {
                self.entries.push((c, u));
                proof {
                    let s = self.entries@;
                    assert forall|k: Coord| #[trigger] has_key(s, k) <==> (has_key(s0, k) || k == c) by {
                        if has_key(s, k) {
                            let j = choose|j: int| 0 <= j < s.len() && #[trigger] s[j].0 == k;
                            if j < s0.len() {
                                assert(s0[j].0 == k);
                            }
                        }
                        if has_key(s0, k) {
                            let j = choose|j: int| 0 <= j < s0.len() && #[trigger] s0[j].0 == k;
                            assert(s[j].0 == k);
                        }
                        if k == c {
                            assert(s[s0.len() as int].0 == k);
                        }
                    }
                    assert forall|k: Coord| has_key(s, k) implies #[trigger] entry_of(s, k) == (if k
                        == c {
                        u
                    } else {
                        entry_of(s0, k)
                    }) by {
                        let j = choose|j: int| 0 <= j < s.len() && #[trigger] s[j].0 == k;
                        lemma_entry_at(s, j);
                        if j < s0.len() {
                            lemma_entry_at(s0, j);
                        }
                    }
                    assert(map_of(s) =~= map_of(s0).insert(c, u));
                    assert(!map_of(s0).contains_key(c));
                }
                true
            },
        }
    }

    /// Drops the entry for `c` and returns it.
    pub fn remove(&mut self, c: Coord) -> (r: Option<ChunkUpdate>)
        requires
            old(self).wf(),
        ensures
            final(self).wf(),
            r == old(self)@.get(c),
            final(self)@ == old(self)@.remove(c),
    {
        let ghost s0 = self.entries@;
        match self.find(c) {
            Some(i) => {
                proof {
                    lemma_entry_at(s0, i as int);
                }
                let (_, u) = self.entries.remove(i);
                proof {
                    let s = self.entries@;
                    assert(s == s0.remove(i as int));
                    assert forall|k: Coord| #[trigger] has_key(s, k) <==> (has_key(s0, k) && k != c) by {
                        if has_key(s, k) {
                            let j = choose|j: int| 0 <= j < s.len() && #[trigger] s[j].0 == k;
                            if j < i {
                                assert(s0[j].0 == k);
                            } else {
                                assert(s0[j + 1].0 == k);
                            }
                        }
                        if has_key(s0, k) && k != c {
                            let j = choose|j: int| 0 <= j < s0.len() && #[trigger] s0[j].0 == k;
                            if j < i {
                                assert(s[j].0 == k);
                            } else {
                                assert(s[j - 1].0 == k);
                            }
                        }
                    }
                    assert forall|k: Coord| has_key(s, k) implies #[trigger] entry_of(s, k) == entry_of(
                        s0,
                        k,
                    ) by {
                        let j = choose|j: int| 0 <= j < s.len() && #[trigger] s[j].0 == k;
                        lemma_entry_at(s, j);
                        if j < i {
                            lemma_entry_at(s0, j);
                        } else {
                            lemma_entry_at(s0, j + 1);
                        }
                    }
                    assert(map_of(s) =~= map_of(s0).remove(c));
                }
                Some(u)
            },
            None => {
                proof {
                    assert(self@ =~= self@.remove(c));
                }
                None
            },
        }
    }

    /// The coordinates whose pending operation is `u`, in the order they were queued.
    pub fn pending(&self, u: ChunkUpdate) -> (r: Vec<Coord>)
        requires
            self.wf(),
        ensures
            forall|c: Coord| r@.contains(c) <==> self@.get(c) == Some(u),
            r@.no_duplicates(),
    {
        let mut out: Vec<Coord> = Vec::new();
        let mut i: usize = 0;
        while i < self.entries.len()
            invariant
                self.wf(),
                i <= self.entries@.len(),
                out@.no_duplicates(),
                forall|c: Coord|
                    out@.contains(c) <==> exists|j: int|
                        0 <= j < i && #[trigger] self.entries@[j] == (c, u),
            decreases self.entries@.len() - i,
        {
            let (c, v) = self.entries[i];
            if v.same(&u) {
                proof {
                    assert forall|j: int| 0 <= j < out@.len() implies out@[j] != c by {
                        let cj = out@[j];
                        assert(out@.contains(cj));
                        let k = choose|k: int| 0 <= k < i && #[trigger] self.entries@[k] == (cj, u);
                        assert(self.entries@[k].0 != self.entries@[i as int].0);
                    }
                }
                let ghost old_out = out@;
                out.push(c);
                proof {
                    assert(out@ == old_out.push(c));
                    assert forall|c2: Coord|
                        out@.contains(c2) <==> exists|j: int|
                            0 <= j < i + 1 && #[trigger] self.entries@[j] == (c2, u) by {
                        if out@.contains(c2) {
                            let k = choose|k: int| 0 <= k < out@.len() && out@[k] == c2;
                            if k < old_out.len() {
                                assert(old_out[k] == c2);
                                assert(old_out.contains(c2));
                            } else {
                                assert(self.entries@[i as int] == (c2, u));
                            }
                        }
                        if exists|j: int| 0 <= j < i + 1 && #[trigger] self.entries@[j] == (c2, u) {
                            let j = choose|j: int| 0 <= j < i + 1 && #[trigger] self.entries@[j] == (c2, u);
                            if j < i {
                                assert(old_out.contains(c2));
                                let k = choose|k: int| 0 <= k < old_out.len() && old_out[k] == c2;
                                assert(out@[k] == c2);
                            } else {
                                assert(out@[old_out.len() as int] == c2);
                            }
                        }
                    }
                }
            } else {
                proof {
                    assert forall|c2: Coord|
                        out@.contains(c2) <==> exists|j: int|
                            0 <= j < i + 1 && #[trigger] self.entries@[j] == (c2, u) by {
                        if exists|j: int| 0 <= j < i + 1 && #[trigger] self.entries@[j] == (c2, u) {
                            let j = choose|j: int| 0 <= j < i + 1 && #[trigger] self.entries@[j] == (c2, u);
                            assert(j < i);
                        }
                    }
                }
            }
            i = i + 1;
        }
        proof {
            assert forall|c: Coord| out@.contains(c) <==> self@.get(c) == Some(u) by {
                if out@.contains(c) {
                    let j = choose|j: int| 0 <= j < i && #[trigger] self.entries@[j] == (c, u);
                    lemma_entry_at(self.entries@, j);
                }
                if self@.get(c) == Some(u) {
                    let j = choose|j: int| 0 <= j < self.entries@.len() && #[trigger] self.entries@[j].0 == c;
                    lemma_entry_at(self.entries@, j);
                    assert(self.entries@[j] == (c, u));
                }
            }
        }
        out
    }

    /// Offers `u` at the 27 chunk coordinates around `c` (itself included),
    /// for chunks of side `w`.
    pub fn enqueue_around(&mut self, c: Coord, w: i32, u: ChunkUpdate)
        requires
            old(self).wf(),
            around_fits(c, w),
        ensures
            final(self).wf(),
            final(self)@ == around_spec(old(self)@, c, w as int, u, 27),
    {
        let ghost m0 = self@;
        let mut i: i32 = 0;
        proof {
            assert(self@ =~= around_spec(m0, c, w as int, u, 0));
        }
        while i < 27
            invariant
                self.wf(),
                0 <= i <= 27,
                around_fits(c, w),
                self@ == around_spec(m0, c, w as int, u, i as int),
            decreases 27 - i,
        {
            let dx: i32 = i / 9 - 1;
            let dy: i32 = (i / 3) % 3 - 1;
            let dz: i32 = i % 3 - 1;
            proof {
                assert(-1 <= dx <= 1 && -1 <= dy <= 1 && -1 <= dz <= 1);
                assert(-w <= dx * w <= w && -w <= dy * w <= w && -w <= dz * w <= w) by (nonlinear_arith)
                    requires
                        -1 <= dx <= 1,
                        -1 <= dy <= 1,
                        -1 <= dz <= 1,
                        w >= 0,
                ;
            }
            let k: Coord = (c.0 + dx * w, c.1 + dy * w, c.2 + dz * w);
            let ghost prev = self@;
            self.upsert(k, u);
            proof {
                assert(k == around(c, w as int, i as int));
                let next = around_spec(m0, c, w as int, u, i + 1);
                assert forall|k2: Coord| #[trigger] near(c, w as int, k2, i + 1) <==> (near(
                    c,
                    w as int,
                    k2,
                    i as int,
                ) || k2 == k) by {
                    if near(c, w as int, k2, i + 1) {
                        let j = choose|j: int| 0 <= j < i + 1 && #[trigger] around(c, w as int, j) == k2;
                        if j < i {
                            assert(near(c, w as int, k2, i as int));
                        }
                    }
                    if near(c, w as int, k2, i as int) {
                        let j = choose|j: int| 0 <= j < i && #[trigger] around(c, w as int, j) == k2;
                        assert(0 <= j < i + 1 && around(c, w as int, j) == k2);
                    }
                    if k2 == k {
                        assert(around(c, w as int, i as int) == k2);
                    }
                }
                assert(self@ =~= next);
            }
            i = i + 1;
        }
    }

    /// A chunk was generated at `c`: its entry is done, and it and its 26
    /// neighbours are offered a light-map update.
    pub fn finish_generation(&mut self, c: Coord, w: i32)
        requires
            old(self).wf(),
            around_fits(c, w),
        ensures
            final(self).wf(),
            final(self)@ == around_spec(old(self)@.remove(c), c, w as int, ChunkUpdate::UpdateLightMap, 27),
    {
        self.remove(c);
        self.enqueue_around(c, w, ChunkUpdate::UpdateLightMap);
    }

    /// The light map of `c` was computed: its entry is done, and it and its 26
    /// neighbours are offered a light update.
    pub fn finish_light_map(&mut self, c: Coord, w: i32)
        requires
            old(self).wf(),
            around_fits(c, w),
        ensures
            final(self).wf(),
            final(self)@ == around_spec(old(self)@.remove(c), c, w as int, ChunkUpdate::UpdateLight, 27),
    {
        self.remove(c);
        self.enqueue_around(c, w, ChunkUpdate::UpdateLight);
    }

    /// The chunk at `c` was shaded: it is offered a mesh update.
    pub fn finish_light(&mut self, c: Coord)
        requires
            old(self).wf(),
        ensures
            final(self).wf(),
            final(self)@ == old(self)@.insert(c, ChunkUpdate::UpdateMesh),
    {
        self.remove(c);
        self.upsert(c, ChunkUpdate::UpdateMesh);
        proof {
            assert(self@ =~= old(self)@.insert(c, ChunkUpdate::UpdateMesh));
        }
    }

    /// The mesh of `c` was built: nothing is left pending for it.
    pub fn finish_mesh(&mut self, c: Coord)
        requires
            old(self).wf(),
        ensures
            final(self).wf(),
            final(self)@ == old(self)@.remove(c),
    {
        self.remove(c);
    }
}

} // verus!
