//! First-fit allocator of point storage with a coalescing free list.

use vstd::prelude::*;
use crate::error::Error;

verus! {

/// A 2D point whose coordinates are IEEE-754 single-precision bit patterns.
#[derive(Clone, Copy, Debug, PartialEq, Eq, Structural)]
pub struct Point {
    /// Bits of the x coordinate.
    pub x: u32,
    /// Bits of the y coordinate.
    pub y: u32,
}

/// A run of `count` points starting at index `first`.
#[derive(Clone, Copy, Debug, PartialEq, Eq, Structural)]
pub struct PointRange {
    /// First point index.
    pub first: u32,
    /// Number of points.
    pub count: u32,
}

impl PointRange {
    /// One past the last index of the range.
    pub open spec fn end(self) -> int {
        self.first + self.count
    }

    /// Whether index `p` lies in the range.
    pub open spec fn contains(self, p: int) -> bool {
        self.first <= p < self.end()
    }
}

/// The all-zero point used to fill fresh storage.
pub open spec fn zero_point() -> Point {
    Point { x: 0, y: 0 }
}

/// A free list is non-empty ranges inside `len`, sorted by start, with a gap
/// between any two of them (adjacent ranges are always coalesced).
pub open spec fn free_list_wf(free: Seq<PointRange>, len: int) -> bool {
    &&& forall|i: int| 0 <= i < free.len() ==> 0 < #[trigger] free[i].count && free[i].end() <= len
    &&& forall|i: int, j: int|
        #![trigger free[i], free[j]]
        0 <= i < j < free.len() ==> free[i].end() < free[j].first
}

/// Whether index `p` lies in some range of `free`.
pub open spec fn covered(free: Seq<PointRange>, p: int) -> bool {
    exists|i: int| 0 <= i < free.len() && #[trigger] free[i].contains(p)
}

/// `i` is the first free range holding at least `count` points.
pub open spec fn is_first_fit(free: Seq<PointRange>, count: u32, i: int) -> bool {
    &&& 0 <= i < free.len()
    &&& free[i].count >= count
    &&& forall|k: int| 0 <= k < i ==> #[trigger] free[k].count < count
}

/// Index of the first free range holding at least `count` points.
pub open spec fn first_fit(free: Seq<PointRange>, count: u32) -> Option<int> {
    if exists|i: int| is_first_fit(free, count, i) {
        Some(choose|i: int| is_first_fit(free, count, i))
    } else {
        None
    }
}

/// The free list after `count` points are taken from the front of range `i`.
pub open spec fn take_front(free: Seq<PointRange>, i: int, count: u32) -> Seq<PointRange> {
    if free[i].count == count {
        free.remove(i)
    } else {
        free.update(i, PointRange { first: (free[i].first + count) as u32, count: (free[i].count - count) as u32 })
    }
}

proof fn lemma_first_fit_unique(free: Seq<PointRange>, count: u32, i: int)
    requires
        is_first_fit(free, count, i),
    ensures
        first_fit(free, count) == Some(i),
{
    let j = choose|j: int| is_first_fit(free, count, j);
    assert(is_first_fit(free, count, j));
    if j < i {
        assert(free[j].count < count);
    } else if i < j {
        assert(free[i].count < count);
    }
}

/// Every point of `first..first + count` is free under `free`.
pub open spec fn window_free(free: spec_fn(int) -> bool, first: int, count: int) -> bool {
    forall|q: int| first <= q < first + count ==> #[trigger] free(q)
}

/// A range of `count` points starting at `first` is where first-fit
/// allocation places it among the free points `free` of a storage of `len`
/// points: at the lowest start of a run of `count` free points, or, when
/// there is none, at the end of the storage.
pub open spec fn first_fit_placed(free: spec_fn(int) -> bool, len: int, count: int, first: int) -> bool {
    if exists|p: int| p >= 0 && #[trigger] window_free(free, p, count) {
        &&& first >= 0
        &&& window_free(free, first, count)
        &&& forall|p: int| 0 <= p < first ==> !#[trigger] window_free(free, p, count)
    } else {
        first == len
    }
}

/// A window of free points lies inside one free range.
proof fn lemma_window_in_one_range(free: Seq<PointRange>, len: int, p: int, count: int) -> (k: int)
    requires
        free_list_wf(free, len),
        count > 0,
        window_free(|q: int| covered(free, q), p, count),
    ensures
        0 <= k < free.len(),
        free[k].first <= p,
        p + count <= free[k].end(),
{
    let f = |q: int| covered(free, q);
    assert(f(p));
    let k = choose|k: int| 0 <= k < free.len() && #[trigger] free[k].contains(p);
    if p + count > free[k].end() {
        let q = free[k].end();
        assert(p <= q < p + count);
        assert(f(q));
        let m = choose|m: int| 0 <= m < free.len() && #[trigger] free[m].contains(q);
        if m < k {
            assert(free[m].end() < free[k].first);
        } else if m > k {
            assert(free[k].end() < free[m].first);
        }
    }
    k
}

/// First-fit over a sorted, coalesced free list takes the lowest run of
/// enough free points, or appends when there is none.
proof fn lemma_first_fit_placed(free: Seq<PointRange>, len: int, count: u32)
    requires
        free_list_wf(free, len),
        count > 0,
    ensures
        match first_fit(free, count) {
            Some(i) => first_fit_placed(|q: int| covered(free, q), len, count as int, free[i].first as int),
            None => first_fit_placed(|q: int| covered(free, q), len, count as int, len),
        },
{
    let f = |q: int| covered(free, q);
    match first_fit(free, count) {
        Some(i) => {
            assert(is_first_fit(free, count, i)) by {
                assert(exists|j: int| is_first_fit(free, count, j));
            }
            let a = free[i].first as int;
            assert(window_free(f, a, count as int)) by {
                assert forall|q: int| a <= q < a + count implies #[trigger] f(q) by {
                    assert(free[i].contains(q));
                }
            }
            assert forall|p: int| 0 <= p < a implies !#[trigger] window_free(f, p, count as int) by {
                if window_free(f, p, count as int) {
                    let k = lemma_window_in_one_range(free, len, p, count as int);
                    if k < i {
                        assert(free[k].count < count);
                    } else if k > i {
                        assert(free[i].end() < free[k].first);
                    }
                }
            }
        },
        None => {
            assert forall|p: int| p >= 0 implies !#[trigger] window_free(f, p, count as int) by {
                if window_free(f, p, count as int) {
                    let k = lemma_window_in_one_range(free, len, p, count as int);
                    lemma_first_fit_exists(free, count, k);
                }
            }
        },
    }
}

/// Some range is large enough, so a first fit exists.
proof fn lemma_first_fit_exists(free: Seq<PointRange>, count: u32, k: int)
    requires
        0 <= k < free.len(),
        free[k].count >= count,
    ensures
        first_fit(free, count) is Some,
    decreases k,
{
    if forall|m: int| 0 <= m < k ==> #[trigger] free[m].count < count {
        assert(is_first_fit(free, count, k));
    } else {
        let m = choose|m: int| 0 <= m < k && #[trigger] free[m].count >= count;
        lemma_first_fit_exists(free, count, m);
    }
}

/// Point storage shared by cached contours.
pub struct PointArena {
    points: Vec<Point>,
    free: Vec<PointRange>,
}

impl PointArena {
    /// Stored points.
    pub closed spec fn stored(&self) -> Seq<Point> {
        self.points@
    }

    /// Free ranges, sorted and coalesced.
    pub closed spec fn free_ranges(&self) -> Seq<PointRange> {
        self.free@
    }

    /// The free points, as a predicate.
    pub open spec fn free_fn(&self) -> spec_fn(int) -> bool {
        |q: int| self.is_free(q)
    }

    /// Whether index `p` is free.
    pub open spec fn is_free(&self, p: int) -> bool {
        covered(self.free_ranges(), p)
    }

    /// Whether both arenas hold the same points and free ranges.
    pub open spec fn same(&self, other: Self) -> bool {
        self.stored() == other.stored() && self.free_ranges() == other.free_ranges()
    }

    /// The arena's invariant.
    pub open spec fn wf(&self) -> bool {
        &&& self.stored().len() <= u32::MAX
        &&& free_list_wf(self.free_ranges(), self.stored().len() as int)
    }

    /// An empty arena.
    pub fn new() -> (arena: Self)
        ensures
            arena.wf(),
            arena.stored().len() == 0,
            arena.free_ranges().len() == 0,
    {
        PointArena { points: Vec::new(), free: Vec::new() }
    }

    /// Number of stored points.
    pub fn len(&self) -> (n: usize)
        ensures
            n == self.stored().len(),
    {
        self.points.len()
    }

    /// Stored points.
    pub fn points(&self) -> (p: &Vec<Point>)
        ensures
            p@ == self.stored(),
    {
        &self.points
    }

    /// Reserves `count` points: from the first free range large enough, else
    /// by growing the storage with zero points.
    pub fn allocate(&mut self, count: u32) -> (res: Result<PointRange, Error>)
        requires
            old(self).wf(),
        ensures
            final(self).wf(),
            res matches Ok(r) ==> first_fit_placed(
                old(self).free_fn(),
                old(self).stored().len() as int,
                count as int,
                r.first as int,
            ),
            res matches Ok(r) ==> final(self).stored().len() == if r.end() > old(self).stored().len() {
                r.end()
            } else {
                old(self).stored().len() as int
            },
            count == 0 ==> res == Ok::<PointRange, Error>(PointRange { first: 0, count: 0 })
                && final(self).same(*old(self)),
            count > 0 ==> match first_fit(old(self).free_ranges(), count) {
                Some(i) => {
                    &&& res == Ok::<PointRange, Error>(
                        PointRange { first: old(self).free_ranges()[i].first, count },
                    )
                    &&& final(self).stored() == old(self).stored()
                    &&& final(self).free_ranges() == take_front(old(self).free_ranges(), i, count)
                },
                None => if old(self).stored().len() + count > u32::MAX {
                    &&& res == Err::<PointRange, Error>(Error::FrameTooLarge)
                    &&& final(self).same(*old(self))
                } else {
                    &&& res == Ok::<PointRange, Error>(
                        PointRange { first: old(self).stored().len() as u32, count },
                    )
                    &&& final(self).stored() == old(self).stored() + Seq::new(
                        count as nat,
                        |k: int| zero_point(),
                    )
                    &&& final(self).free_ranges() == old(self).free_ranges()
                },
            },
            // What this means for the sets of indices.
            res is Ok ==> {
                let r = res->Ok_0;
                &&& r.count == count
                &&& r.end() <= final(self).stored().len()
                &&& final(self).stored().len() >= old(self).stored().len()
                &&& forall|p: int| #[trigger]
                    final(self).is_free(p) <==> old(self).is_free(p) && !r.contains(p)
                &&& forall|p: int|
                    r.contains(p) ==> old(self).is_free(p) || old(self).stored().len() <= p
                &&& forall|p: int|
                    0 <= p < old(self).stored().len() && !r.contains(p)
                        ==> #[trigger] final(self).stored()[p] == old(self).stored()[p]
            },
    {
        if count == 0 {
            assert(window_free(self.free_fn(), 0, 0));
            return Ok(PointRange { first: 0, count: 0 });
        }
        let ghost free0 = self.free@;
        proof {
            lemma_first_fit_placed(free0, self.points@.len() as int, count);
            assert(self.free_fn() =~= (|q: int| covered(free0, q)));
        }
        let ghost points_init = self.points@;
        let n = self.free.len();
        let mut i: usize = 0;
        while i < n
            invariant
                n == free0.len(),
                count > 0,
                free0 == old(self).free@,
                points_init == old(self).points@,
                self.free@ == free0,
                self.points@ == points_init,
                points_init.len() <= u32::MAX,
                free_list_wf(free0, points_init.len() as int),
                0 <= i <= n,
                forall|k: int| 0 <= k < i ==> #[trigger] free0[k].count < count,
            decreases n - i,
        {
            if self.free[i].count >= count {
                let range = self.free[i];
                assert(range.end() <= points_init.len());
                proof {
                    lemma_first_fit_unique(free0, count, i as int);
                }
                if range.count == count {
                    self.free.remove(i);
                } else {
                    self.free.set(i, PointRange { first: range.first + count, count: range.count - count });
                }
                let r = PointRange { first: range.first, count };
                assert(self.free@ =~= take_front(free0, i as int, count));
                proof {
                    lemma_take_front(free0, i as int, count, self.points@.len() as int);
                    lemma_first_fit_unique(free0, count, i as int);
                    lemma_first_fit_placed(free0, points_init.len() as int, count);
                    assert(old(self).free_fn() =~= (|q: int| covered(free0, q)));
                    assert forall|p: int| r.contains(p) implies covered(free0, p) by {
                        assert(free0[i as int].contains(p));
                    }
                }
                return Ok(r);
            }
            i = i + 1;
        }
        proof {
            if exists|j: int| is_first_fit(free0, count, j) {
                let j = choose|j: int| is_first_fit(free0, count, j);
                assert(free0[j].count < count);
            }
        }
        let len = self.points.len();
        let first = len as u32;
        if first > u32::MAX - count {
            return Err(Error::FrameTooLarge);
        }
        let end = first + count;
        let ghost points0 = self.points@;
        let mut k: u32 = first;
        while k < end
            invariant
                first <= k <= end,
                self.points@.len() == k,
                self.points@ == points0 + Seq::new((k - first) as nat, |_j: int| zero_point()),
                points0.len() == first,
                self.free@ == free0,
            decreases end - k,
        {
            self.points.push(Point { x: 0, y: 0 });
            k = k + 1;
            assert(self.points@ =~= points0 + Seq::new((k - first) as nat, |_j: int| zero_point()));
        }
        proof {
            assert forall|p: int| #[trigger] covered(free0, p) implies p < first by {
                let q = choose|q: int| 0 <= q < free0.len() && #[trigger] free0[q].contains(p);
            }
        }
        Ok(PointRange { first, count })
    }
}

/// Taking `count` points from the front of free range `i` keeps the free list
/// well formed and frees exactly the indices outside the taken range.
proof fn lemma_take_front(free: Seq<PointRange>, i: int, count: u32, len: int)
    requires
        free_list_wf(free, len),
        len <= u32::MAX,
        0 <= i < free.len(),
        0 < count <= free[i].count,
    ensures
        free_list_wf(take_front(free, i, count), len),
        forall|p: int| #[trigger]
            covered(take_front(free, i, count), p) <==> covered(free, p) && !(free[i].first <= p
                < free[i].first + count),
{
    let t = take_front(free, i, count);
    let r = PointRange { first: free[i].first, count };
    if free[i].count == count {
        assert forall|a: int, b: int| #![trigger t[a], t[b]] 0 <= a < b < t.len() implies t[a].end()
            < t[b].first by {
            let a0 = if a < i { a } else { a + 1 };
            let b0 = if b < i { b } else { b + 1 };
            assert(free[a0].end() < free[b0].first);
        }
        assert forall|p: int| #[trigger] covered(t, p) <==> covered(free, p) && !r.contains(p) by {
            if covered(t, p) {
                let q = choose|q: int| 0 <= q < t.len() && #[trigger] t[q].contains(p);
                let q0 = if q < i { q } else { q + 1 };
                assert(free[q0].contains(p));
                if r.contains(p) {
                    if q0 < i {
                        assert(free[q0].end() < free[i].first);
                    } else {
                        assert(free[i].end() < free[q0].first);
                    }
                }
            }
            if covered(free, p) && !r.contains(p) {
                let q = choose|q: int| 0 <= q < free.len() && #[trigger] free[q].contains(p);
                assert(q != i);
                let q1 = if q < i { q } else { q - 1 };
                assert(t[q1].contains(p));
            }
        }
    } else {
        assert forall|a: int, b: int| #![trigger t[a], t[b]] 0 <= a < b < t.len() implies t[a].end()
            < t[b].first by {
            assert(free[a].end() < free[b].first);
            assert(t[a].end() == free[a].end());
            assert(t[b].first >= free[b].first);
        }
        assert forall|p: int| #[trigger] covered(t, p) <==> covered(free, p) && !r.contains(p) by {
            if covered(t, p) {
                let q = choose|q: int| 0 <= q < t.len() && #[trigger] t[q].contains(p);
                if q == i {
                    assert(t[q].first == free[i].first + count);
                }
                assert(free[q].contains(p));
                if r.contains(p) && q != i {
                    if q < i {
                        assert(free[q].end() < free[i].first);
                    } else {
                        assert(free[i].end() < free[q].first);
                    }
                }
            }
            if covered(free, p) && !r.contains(p) {
                let q = choose|q: int| 0 <= q < free.len() && #[trigger] free[q].contains(p);
                if q == i {
                    assert(t[q].first == free[i].first + count);
                }
                assert(t[q].contains(p));
            }
        }
    }
}


impl PointArena {
    /// Returns `range` to the free list, coalescing it with the free ranges
    /// that touch it. The result is the unique sorted, coalesced free list of
    /// the old free indices together with those of `range`.
    pub fn release(&mut self, range: PointRange)
        requires
            old(self).wf(),
            range.end() <= old(self).stored().len(),
            forall|p: int| range.contains(p) ==> !old(self).is_free(p),
        ensures
            final(self).wf(),
            final(self).stored() == old(self).stored(),
            forall|p: int| #[trigger]
                final(self).is_free(p) <==> old(self).is_free(p) || range.contains(p),
    {
        if range.count == 0 {
            return;
        }
        let ghost free0 = self.free@;
        let n = self.free.len();
        let mut p: usize = 0;
        while p < n && self.free[p].first < range.first
            invariant
                n == free0.len(),
                self.free@ == free0,
                0 <= p <= n,
                forall|k: int| 0 <= k < p ==> #[trigger] free0[k].first < range.first,
            decreases n - p,
        {
            p = p + 1;
        }
        proof {
            assert forall|k: int| p <= k < n implies #[trigger] free0[k].first >= range.first by {
                if k > p {
                    assert(free0[p as int].end() < free0[k].first);
                }
            }
        }
        let merge_left = p > 0 && self.free[p - 1].first + self.free[p - 1].count == range.first;
        let a: usize = if merge_left { p - 1 } else { p };
        let mut start = range.first;
        let mut count = range.count;
        if merge_left {
            start = self.free[p - 1].first;
            count = self.free[p - 1].count + count;
        }
        let mut b: usize = p;
        if p < n && range.first + range.count == self.free[p].first {
            proof {
                assert(free0[p as int].end() <= old(self).points@.len());
            }
            count = count + self.free[p].count;
            b = p + 1;
        }
        let merged = PointRange { first: start, count };
        let mut out: Vec<PointRange> = Vec::new();
        let mut k: usize = 0;
        while k < a
            invariant
                0 <= k <= a <= n,
                n == free0.len(),
                self.free@ == free0,
                out@ == free0.subrange(0, k as int),
            decreases a - k,
        {
            out.push(self.free[k]);
            k = k + 1;
            assert(out@ =~= free0.subrange(0, k as int));
        }
        out.push(merged);
        let mut k: usize = b;
        while k < n
            invariant
                b <= k <= n,
                a <= n,
                n == free0.len(),
                self.free@ == free0,
                out@ == free0.subrange(0, a as int) + seq![merged] + free0.subrange(b as int, k as int),
            decreases n - k,
        {
            out.push(self.free[k]);
            k = k + 1;
            assert(out@ =~= free0.subrange(0, a as int) + seq![merged] + free0.subrange(b as int, k as int));
        }
        proof {
            lemma_insert_coalesced(free0, old(self).points@.len() as int, range, p as int, a as int, b as int, merged);
        }
        self.free = out;
    }
}

/// Inserting a range into a well-formed free list at its sorted position,
/// merged with the neighbours that touch it, yields a well-formed free list
/// covering the old indices and the range's.
proof fn lemma_insert_coalesced(
    free: Seq<PointRange>,
    len: int,
    range: PointRange,
    p: int,
    a: int,
    b: int,
    merged: PointRange,
)
    requires
        free_list_wf(free, len),
        len <= u32::MAX,
        0 < range.count,
        range.end() <= len,
        forall|q: int| range.contains(q) ==> !covered(free, q),
        0 <= p <= free.len(),
        forall|k: int| 0 <= k < p ==> #[trigger] free[k].first < range.first,
        forall|k: int| p <= k < free.len() ==> #[trigger] free[k].first >= range.first,
        a == p - 1 || a == p,
        a == p - 1 <==> (p > 0 && free[p - 1].end() == range.first),
        b == p + 1 || b == p,
        b == p + 1 <==> (p < free.len() && range.end() == free[p].first),
        merged.first == (if a == p - 1 { free[p - 1].first as int } else { range.first as int }),
        merged.end() == (if b == p + 1 { free[p].end() } else { range.end() }),
    ensures
        free_list_wf(free.subrange(0, a) + seq![merged] + free.subrange(b, free.len() as int), len),
        forall|q: int| #[trigger]
            covered(free.subrange(0, a) + seq![merged] + free.subrange(b, free.len() as int), q)
                <==> covered(free, q) || range.contains(q),
{
    let out = free.subrange(0, a) + seq![merged] + free.subrange(b, free.len() as int);
    let n = free.len() as int;
    // Ranges before the insertion point end at or before `range`; those after
    // start at or after its end.
    assert forall|k: int| 0 <= k < p implies #[trigger] free[k].end() <= range.first by {
        if free[k].end() > range.first {
            assert(free[k].contains(range.first as int));
            assert(range.contains(range.first as int));
        }
    }
    assert forall|k: int| p <= k < n implies #[trigger] free[k].first >= range.end() by {
        if free[k].first < range.end() {
            assert(free[k].contains(free[k].first as int));
            assert(range.contains(free[k].first as int));
        }
    }
    assert(out.len() == a + 1 + (n - b));
    assert forall|k: int| 0 <= k < a implies #[trigger] out[k] == free[k] by {}
    assert(out[a] == merged);
    assert forall|k: int| a < k < out.len() implies #[trigger] out[k] == free[k - a - 1 + b] by {}
    // The merged range lies strictly between its neighbours.
    assert forall|k: int| 0 <= k < a implies #[trigger] free[k].end() < merged.first by {
        if a == p - 1 {
            assert(free[k].end() < free[p - 1].first);
        } else if k == p - 1 {
        } else {
            assert(free[k].end() < free[p - 1].first);
        }
    }
    assert forall|k: int| b <= k < n implies merged.end() < #[trigger] free[k].first by {
        if b == p + 1 {
            assert(free[p].end() < free[k].first);
        } else if k == p {
        } else {
            assert(free[p].end() < free[k].first);
        }
    }
    assert(0 < merged.count && merged.end() <= len) by {
        if b == p + 1 {
            assert(free[p].end() <= len);
        }
    }
    assert forall|i: int| 0 <= i < out.len() implies 0 < #[trigger] out[i].count && out[i].end() <= len by {
        if i < a {
            assert(out[i] == free[i]);
        } else if i > a {
            assert(out[i] == free[i - a - 1 + b]);
        }
    }
    assert forall|i: int, j: int| #![trigger out[i], out[j]] 0 <= i < j < out.len() implies out[i].end()
        < out[j].first by {
        if j < a {
            assert(free[i].end() < free[j].first);
        } else if j == a {
        } else if i < a {
            assert(out[j] == free[j - a - 1 + b]);
            assert(free[i].end() < merged.first);
            assert(merged.end() < free[j - a - 1 + b].first);
        } else if i == a {
            assert(out[j] == free[j - a - 1 + b]);
        } else {
            assert(free[i - a - 1 + b].end() < free[j - a - 1 + b].first);
        }
    }
    assert forall|q: int| #[trigger] covered(out, q) <==> covered(free, q) || range.contains(q) by {
        if covered(out, q) {
            let i = choose|i: int| 0 <= i < out.len() && #[trigger] out[i].contains(q);
            if i < a {
                assert(free[i].contains(q));
            } else if i > a {
                assert(free[i - a - 1 + b].contains(q));
            } else {
                if !range.contains(q) {
                    if q < range.first {
                        assert(a == p - 1);
                        assert(free[p - 1].contains(q));
                    } else {
                        assert(b == p + 1);
                        assert(free[p].contains(q));
                    }
                }
            }
        }
        if range.contains(q) {
            assert(out[a].contains(q));
        }
        if covered(free, q) {
            let i = choose|i: int| 0 <= i < n && #[trigger] free[i].contains(q);
            if i < a {
                assert(out[i].contains(q));
            } else if i >= b {
                assert(out[i + a + 1 - b].contains(q));
            } else {
                if i == p - 1 {
                    assert(a == p - 1);
                    assert(free[i].end() <= range.first);
                } else {
                    assert(i == p);
                }
                assert(out[a].contains(q));
            }
        }
    }
}


impl PointArena {
    /// Overwrites the points of `range` with `points`.
    pub fn write(&mut self, range: PointRange, points: &Vec<Point>) -> (res: Result<(), Error>)
        requires
            old(self).wf(),
        ensures
            final(self).wf(),
            final(self).free_ranges() == old(self).free_ranges(),
            res is Ok <==> range.end() <= old(self).stored().len() && points@.len() == range.count,
            res is Ok ==> final(self).stored() == old(self).stored().subrange(0, range.first as int)
                + points@ + old(self).stored().subrange(range.end(), old(self).stored().len() as int),
            res is Ok ==> final(self).stored().len() == old(self).stored().len(),
            res is Ok ==> final(self).stored().subrange(range.first as int, range.end()) == points@,
            res is Ok ==> forall|p: int| 0 <= p < old(self).stored().len() && !range.contains(p)
                ==> #[trigger] final(self).stored()[p] == old(self).stored()[p],
            res is Err ==> res == Err::<(), Error>(Error::FrameTooLarge) && final(self).same(*old(self)),
    {
        let start = range.first as usize;
        let count = range.count as usize;
        let end = match start.checked_add(count) {
            Some(end) => end,
            None => return Err(Error::FrameTooLarge),
        };
        if end > self.points.len() || points.len() != count {
            return Err(Error::FrameTooLarge);
        }
        let ghost old_points = self.points@;
        let mut k: usize = 0;
        while k < count
            invariant
                start + count == end,
                end <= old_points.len(),
                count == points@.len(),
                0 <= k <= count,
                self.free@ == old(self).free@,
                self.points@ == old_points.subrange(0, start as int) + points@.subrange(0, k as int)
                    + old_points.subrange(start + k, old_points.len() as int),
            decreases count - k,
        {
            self.points.set(start + k, points[k]);
            k = k + 1;
            assert(self.points@ =~= old_points.subrange(0, start as int) + points@.subrange(0, k as int)
                + old_points.subrange(start + k, old_points.len() as int));
        }
        assert(points@.subrange(0, count as int) =~= points@);
        assert(self.points@.subrange(start as int, end as int) =~= points@);
        Ok(())
    }
}

} // verus!
