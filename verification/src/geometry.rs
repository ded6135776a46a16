//! Retained contour geometry: reuse of resident points across frames.

use vstd::prelude::*;
use crate::arena::{first_fit_placed, Point, PointArena, PointRange};
use crate::error::Error;
use crate::frame::{GradientKind, RecordedCommand, RecordedContour, RecordedOp, Rule};
use crate::scene::{key_hash, lemma_key_hash_push, mix_key_word, KEY_SEED_A, KEY_SEED_B};
use crate::stats::{sat_add, CacheStats};

verus! {

/// Hash of a contour's closedness and point bits.
#[derive(Clone, Copy, Debug, PartialEq, Eq, Structural)]
pub struct GeometryKey {
    /// First hash lane.
    pub a: u64,
    /// Second hash lane.
    pub b: u64,
}

/// Coordinates of `points`, x then y, in order.
pub open spec fn point_words(points: Seq<Point>) -> Seq<u32>
    decreases points.len(),
{
    if points.len() == 0 {
        Seq::empty()
    } else {
        point_words(points.drop_last()) + seq![points.last().x, points.last().y]
    }
}

/// The words a geometry key hashes: the closed flag, then every coordinate.
pub open spec fn contour_key_words(contour: RecordedContour) -> Seq<u32> {
    seq![if contour.closed { 1u32 } else { 0u32 }] + point_words(contour.points@)
}

/// Key identifying a contour's exact geometry.
pub fn geometry_key(contour: &RecordedContour) -> (k: GeometryKey)
    ensures
        (k.a, k.b) == key_hash(contour_key_words(*contour)),
{
    let closed: u32 = if contour.closed { 1 } else { 0 };
    let mut state = mix_key_word(KEY_SEED_A, KEY_SEED_B, closed);
    proof {
        lemma_key_hash_push(Seq::empty(), closed);
        assert(Seq::<u32>::empty().push(closed) =~= seq![closed]);
    }
    let n = contour.points.len();
    let mut i: usize = 0;
    while i < n
        invariant
            0 <= i <= n,
            n == contour.points@.len(),
            state == key_hash(seq![closed] + point_words(contour.points@.subrange(0, i as int))),
            closed == (if contour.closed { 1u32 } else { 0u32 }),
        decreases n - i,
    {
        let p = contour.points[i];
        let ghost before = seq![closed] + point_words(contour.points@.subrange(0, i as int));
        state = mix_key_word(state.0, state.1, p.x);
        proof { lemma_key_hash_push(before, p.x); }
        state = mix_key_word(state.0, state.1, p.y);
        proof {
            lemma_key_hash_push(before.push(p.x), p.y);
            let sub = contour.points@.subrange(0, i as int + 1);
            assert(sub.drop_last() =~= contour.points@.subrange(0, i as int));
            assert(before.push(p.x).push(p.y) =~= seq![closed] + point_words(sub));
        }
        i = i + 1;
    }
    assert(contour.points@.subrange(0, n as int) =~= contour.points@);
    GeometryKey { a: state.0, b: state.1 }
}

/// A run of points that must be uploaded.
#[derive(Clone, Copy, Debug, PartialEq, Eq, Structural)]
pub struct DirtyRange {
    /// First point index.
    pub first_point: u32,
    /// Number of points.
    pub point_count: u32,
}

/// The upload list after marking `range` dirty: extends the last run when
/// `range` starts where it ends, otherwise starts a new run.
pub open spec fn pushed_dirty(dirty: Seq<DirtyRange>, range: PointRange) -> Seq<DirtyRange> {
    if range.count == 0 {
        dirty
    } else if dirty.len() > 0 && dirty.last().first_point + dirty.last().point_count == range.first {
        dirty.update(
            dirty.len() - 1,
            DirtyRange {
                first_point: dirty.last().first_point,
                point_count: sat_add(dirty.last().point_count, range.count),
            },
        )
    } else {
        dirty.push(DirtyRange { first_point: range.first, point_count: range.count })
    }
}

/// Marks `range` for upload, coalescing with the previous run when adjacent.
pub fn push_dirty(dirty: &mut Vec<DirtyRange>, range: PointRange)
    ensures
        final(dirty)@ == pushed_dirty(old(dirty)@, range),
{
    if range.count == 0 {
        return;
    }
    let n = dirty.len();
    if n > 0 {
        let last = dirty[n - 1];
        if last.first_point <= u32::MAX - last.point_count && last.first_point + last.point_count == range.first {
            let count = last.point_count.saturating_add(range.count);
            dirty.set(n - 1, DirtyRange { first_point: last.first_point, point_count: count });
            return;
        }
    }
    dirty.push(DirtyRange { first_point: range.first, point_count: range.count });
}

/// Bit patterns of the identity affine transform `[a, b, c, d, tx, ty]`.
pub open spec fn identity_transform() -> [u32; 6] {
    [0x3f80_0000u32, 0u32, 0u32, 0x3f80_0000u32, 0u32, 0u32]
}

fn identity_affine() -> (t: [u32; 6])
    ensures
        t == identity_transform(),
{
    [0x3f80_0000u32, 0u32, 0u32, 0x3f80_0000u32, 0u32, 0u32]
}

/// A contour retained between frames.
#[derive(Clone, Copy, Debug, PartialEq, Eq)]
pub struct CachedContour {
    /// Key of the geometry last seen for this slot.
    pub key: GeometryKey,
    /// Resident points.
    pub range: PointRange,
    /// Whether the contour is closed.
    pub closed: bool,
    /// Affine map from the resident points to the current ones, as
    /// single-precision bit patterns.
    pub transform: [u32; 6],
    /// Bounds of the current points, as single-precision bit patterns.
    pub bounds: [u32; 4],
}

/// What floating-point comparison of a frame contour with the resident
/// points of its slot found.
#[derive(Clone, Copy, Debug)]
pub struct ContourEvidence {
    /// Bounds of the contour's finite points.
    pub bounds: [u32; 4],
    /// The resident points under the cached transform match the new points.
    pub matches_cached: bool,
    /// A translation mapping the resident points exactly onto the new points.
    pub translation: Option<[u32; 6]>,
    /// A verified affine map of the resident points onto the new points.
    pub affine: Option<[u32; 6]>,
}

/// How a frame contour is stored.
#[derive(Clone, Copy, Debug, PartialEq, Eq)]
pub enum ContourAction {
    /// Same geometry: the resident points and transform stay.
    Reuse,
    /// The resident points are reused under a new translation.
    Translate([u32; 6]),
    /// The resident points are reused under a new affine map.
    Affine([u32; 6]),
    /// Same point count: the points are rewritten in place.
    Update,
    /// Different point count: the slot gets new storage.
    Reallocate,
    /// A new slot with new storage.
    Allocate,
}

impl ContourAction {
    /// The action writes the contour's points.
    pub open spec fn writes(self) -> bool {
        self is Update || self is Reallocate || self is Allocate
    }
}

/// Decision for a contour with key `key`, closedness `closed` and `count`
/// points, given the slot's previous contents and the comparison evidence.
pub open spec fn contour_action(
    existing: Option<CachedContour>,
    key: GeometryKey,
    closed: bool,
    count: u32,
    ev: ContourEvidence,
) -> ContourAction {
    match existing {
        None => ContourAction::Allocate,
        Some(old) => {
            let same_shape = old.closed == closed && old.range.count == count;
            if old.key == key && same_shape && ev.matches_cached {
                ContourAction::Reuse
            } else if same_shape && ev.translation is Some {
                ContourAction::Translate(ev.translation->0)
            } else if same_shape && ev.affine is Some {
                ContourAction::Affine(ev.affine->0)
            } else if old.range.count == count {
                ContourAction::Update
            } else {
                ContourAction::Reallocate
            }
        },
    }
}

/// The slot's new contents for `action`, given the storage `range` it ends
/// with.
pub open spec fn cached_after(
    action: ContourAction,
    existing: Option<CachedContour>,
    key: GeometryKey,
    closed: bool,
    bounds: [u32; 4],
    range: PointRange,
) -> CachedContour {
    match action {
        ContourAction::Reuse => CachedContour { key, bounds, ..existing->0 },
        ContourAction::Translate(t) => CachedContour { key, range, closed, transform: t, bounds },
        ContourAction::Affine(t) => CachedContour { key, range, closed, transform: t, bounds },
        _ => CachedContour { key, range, closed, transform: identity_transform(), bounds },
    }
}

/// Statistics after storing a contour of `count` points with `action`.
pub open spec fn tallied(stats: CacheStats, action: ContourAction, count: u32) -> CacheStats {
    match action {
        ContourAction::Reuse => CacheStats { reused_contours: sat_add(stats.reused_contours, 1), ..stats },
        ContourAction::Translate(_) => CacheStats {
            reused_contours: sat_add(stats.reused_contours, 1),
            translated_contours: sat_add(stats.translated_contours, 1),
            translated_points: sat_add(stats.translated_points, count),
            ..stats
        },
        ContourAction::Affine(_) => CacheStats {
            reused_contours: sat_add(stats.reused_contours, 1),
            affine_contours: sat_add(stats.affine_contours, 1),
            affine_points: sat_add(stats.affine_points, count),
            ..stats
        },
        ContourAction::Update => CacheStats { updated_contours: sat_add(stats.updated_contours, 1), ..stats },
        _ => CacheStats { allocated_contours: sat_add(stats.allocated_contours, 1), ..stats },
    }
}

/// No point index belongs to two slots.
pub open spec fn ranges_disjoint(cs: Seq<CachedContour>) -> bool {
    forall|i: int, j: int, p: int|
        #![trigger cs[i].range.contains(p), cs[j].range.contains(p)]
        0 <= i < cs.len() && 0 <= j < cs.len() && i != j && cs[i].range.contains(p) ==> !cs[j].range.contains(p)
}

/// Slots own disjoint, allocated runs of the arena.
pub open spec fn cache_wf(arena: PointArena, cs: Seq<CachedContour>) -> bool {
    &&& arena.wf()
    &&& forall|i: int| 0 <= i < cs.len() ==> #[trigger] cs[i].range.end() <= arena.stored().len()
    &&& ranges_disjoint(cs)
    &&& forall|i: int, p: int|
        #![trigger cs[i].range.contains(p)]
        0 <= i < cs.len() && cs[i].range.contains(p) ==> !arena.is_free(p)
}

/// Contours retained between frames and their point storage.
pub struct GeometryCache {
    arena: PointArena,
    contours: Vec<CachedContour>,
}

impl GeometryCache {
    /// The point storage.
    pub closed spec fn storage(&self) -> PointArena {
        self.arena
    }

    /// The retained slots.
    pub closed spec fn slots(&self) -> Seq<CachedContour> {
        self.contours@
    }

    /// The cache's invariant.
    pub open spec fn wf(&self) -> bool {
        cache_wf(self.storage(), self.slots())
    }

    /// An empty cache.
    pub fn new() -> (c: Self)
        ensures
            c.wf(),
            c.slots().len() == 0,
            c.storage().stored().len() == 0,
    {
        GeometryCache { arena: PointArena::new(), contours: Vec::new() }
    }

    /// The retained slots.
    pub fn contours(&self) -> (c: &Vec<CachedContour>)
        ensures
            c@ == self.slots(),
    {
        &self.contours
    }

    /// The point storage.
    pub fn arena(&self) -> (a: &PointArena)
        ensures
            *a == self.storage(),
    {
        &self.arena
    }

    /// `self` is `before` with `slot` stored at `index`, and no other slot's
    /// points changed.
    pub open spec fn stores_slot(&self, before: Self, index: int, slot: CachedContour) -> bool {
        &&& self.wf()
        &&& self.slots() == if index < before.slots().len() {
            before.slots().update(index, slot)
        } else {
            before.slots().push(slot)
        }
        &&& self.storage().stored().len() >= before.storage().stored().len()
        &&& forall|j: int, p: int|
            0 <= j < before.slots().len() && j != index && #[trigger] before.slots()[j].range.contains(p)
                ==> self.storage().stored()[p] == before.storage().stored()[p]
    }

    /// Rewrites the points of slot `index` in place.
    fn rewrite_slot(&mut self, index: usize, contour: &RecordedContour, key: GeometryKey, bounds: [u32; 4]) -> (range: PointRange)
        requires
            old(self).wf(),
            index < old(self).slots().len(),
            old(self).slots()[index as int].range.count == contour.points@.len(),
        ensures
            range == old(self).slots()[index as int].range,
            final(self).stores_slot(
                *old(self),
                index as int,
                CachedContour { key, range, closed: contour.closed, transform: identity_transform(), bounds },
            ),
            final(self).storage().stored().subrange(range.first as int, range.end()) == contour.points@,
            final(self).storage().stored().len() == old(self).storage().stored().len(),
            final(self).storage().free_ranges() == old(self).storage().free_ranges(),
    {
        let range = self.contours[index].range;
        let ghost cs0 = self.contours@;
        let ghost arena0 = self.arena;
        match self.arena.write(range, &contour.points) {
            Ok(()) => {},
            Err(e) => {
                assert(false);
            },
        }
        let slot = CachedContour { key, range, closed: contour.closed, transform: identity_affine(), bounds };
        proof {
            assert forall|j: int, p: int| 0 <= j < cs0.len() && j != index && #[trigger] cs0[j].range.contains(p)
                implies !self.arena.is_free(p) && !slot.range.contains(p) && self.arena.stored()[p] == arena0.stored()[p] by {
                assert(cs0[index as int].range.contains(p) ==> !cs0[j].range.contains(p));
                assert(!arena0.is_free(p));
            }
            assert forall|p: int| slot.range.contains(p) implies !self.arena.is_free(p) by {
                assert(cs0[index as int].range.contains(p));
            }
            lemma_wf_after_store(self.arena, cs0, index as int, slot);
        }
        self.contours.set(index, slot);
        range
    }

    /// Gives slot `index` (or a new slot when `index` is the slot count)
    /// fresh storage for the contour's points, returning the slot's old
    /// storage first. When no storage can be had, the old storage is already
    /// back in the free list, so the slot is left with an empty range: a slot
    /// never names free points, which a later frame would otherwise release
    /// a second time.
    fn allocate_slot(&mut self, index: usize, contour: &RecordedContour, key: GeometryKey, bounds: [u32; 4]) -> (res: Result<PointRange, Error>)
        requires
            old(self).wf(),
            index <= old(self).slots().len(),
            contour.points@.len() <= u32::MAX,
        ensures
            final(self).wf(),
            res is Err ==> res == Err::<PointRange, Error>(Error::FrameTooLarge),
            res is Err ==> old(self).storage().stored().len() + contour.points@.len() > u32::MAX,
            res is Ok ==> final(self).storage().stored().len() <= old(self).storage().stored().len()
                + contour.points@.len(),
            res is Ok ==> final(self).storage().stored().len() >= old(self).storage().stored().len(),
            res matches Ok(range) ==> {
                let released = released_range(old(self).slots(), index as int);
                &&& first_fit_placed(
                    freed_with(old(self).storage(), released),
                    old(self).storage().stored().len() as int,
                    contour.points@.len() as int,
                    range.first as int,
                )
                &&& forall|q: int| #[trigger] final(self).storage().is_free(q) <==> (old(self).storage().is_free(q)
                    || released.contains(q)) && !range.contains(q)
                &&& final(self).storage().stored().len() == if range.end() > old(self).storage().stored().len() {
                    range.end()
                } else {
                    old(self).storage().stored().len() as int
                }
            },
            res matches Ok(range) ==> {
                &&& range.count == contour.points@.len()
                &&& final(self).stores_slot(
                    *old(self),
                    index as int,
                    CachedContour { key, range, closed: contour.closed, transform: identity_transform(), bounds },
                )
                &&& final(self).storage().stored().subrange(range.first as int, range.end()) == contour.points@
            },
    {
        let point_count = contour.points.len() as u32;
        let ghost cs0 = self.contours@;
        let ghost arena0 = self.arena;
        if index < self.contours.len() {
            let prev = self.contours[index];
            self.arena.release(prev.range);
            proof {
                assert forall|j: int, p: int| 0 <= j < cs0.len() && j != index && #[trigger] cs0[j].range.contains(p)
                    implies !self.arena.is_free(p) by {
                    assert(cs0[index as int].range.contains(p) ==> !cs0[j].range.contains(p));
                }
            }
            let ghost arena1 = self.arena;
            proof {
                assert(arena1.free_fn() =~= freed_with(arena0, prev.range));
            }
            let range = match self.arena.allocate(point_count) {
                Ok(r) => r,
                Err(e) => {
                    let slot = CachedContour { range: PointRange { first: 0, count: 0 }, ..prev };
                    proof {
                        lemma_wf_after_store(self.arena, cs0, index as int, slot);
                    }
                    self.contours.set(index, slot);
                    return Err(e);
                },
            };
            let ghost arena2 = self.arena;
            let res = self.finish_slot(index, range, contour, key, bounds, Ghost(arena0), Ghost(cs0));
            proof {
                assert forall|q: int| #[trigger] self.storage().is_free(q) <==> (arena0.is_free(q)
                    || prev.range.contains(q)) && !range.contains(q) by {
                    assert(self.storage().is_free(q) == arena2.is_free(q));
                }
            }
            return res;
        }
        proof {
            assert(arena0.free_fn() =~= freed_with(arena0, PointRange { first: 0, count: 0 }));
        }
        let range = match self.arena.allocate(point_count) {
            Ok(r) => r,
            Err(e) => return Err(e),
        };
        let ghost arena2 = self.arena;
        let res = self.finish_slot(index, range, contour, key, bounds, Ghost(arena0), Ghost(cs0));
        proof {
            assert forall|q: int| #[trigger] self.storage().is_free(q) <==> (arena0.is_free(q)
                || PointRange { first: 0, count: 0 }.contains(q)) && !range.contains(q) by {
                assert(self.storage().is_free(q) == arena2.is_free(q));
            }
        }
        res
    }

    fn finish_slot(
        &mut self,
        index: usize,
        range: PointRange,
        contour: &RecordedContour,
        key: GeometryKey,
        bounds: [u32; 4],
        Ghost(arena0): Ghost<PointArena>,
        Ghost(cs0): Ghost<Seq<CachedContour>>,
    ) -> (res: Result<PointRange, Error>)
        requires
            old(self).storage().wf(),
            old(self).slots() == cs0,
            cache_wf(arena0, cs0),
            index <= cs0.len(),
            range.count == contour.points@.len(),
            range.end() <= old(self).storage().stored().len(),
            old(self).storage().stored().len() >= arena0.stored().len(),
            forall|p: int| range.contains(p) ==> !old(self).storage().is_free(p),
            forall|j: int, p: int| 0 <= j < cs0.len() && j != index && #[trigger] cs0[j].range.contains(p)
                ==> !old(self).storage().is_free(p) && !range.contains(p) && p < arena0.stored().len()
                    && old(self).storage().stored()[p] == arena0.stored()[p],
            forall|j: int| 0 <= j < cs0.len() ==> #[trigger] cs0[j].range.end() <= old(self).storage().stored().len(),
        ensures
            res == Ok::<PointRange, Error>(range),
            final(self).stores_slot(
                Self { arena: arena0, contours: old(self).contours },
                index as int,
                CachedContour { key, range, closed: contour.closed, transform: identity_transform(), bounds },
            ),
            final(self).storage().stored().subrange(range.first as int, range.end()) == contour.points@,
            final(self).storage().stored().len() == old(self).storage().stored().len(),
            final(self).storage().free_ranges() == old(self).storage().free_ranges(),
    {
        let ghost arena1 = self.arena;
        match self.arena.write(range, &contour.points) {
            Ok(()) => {},
            Err(e) => {
                assert(false);
            },
        }
        let slot = CachedContour { key, range, closed: contour.closed, transform: identity_affine(), bounds };
        proof {
            assert forall|j: int, p: int| 0 <= j < cs0.len() && j != index && #[trigger] cs0[j].range.contains(p)
                implies !self.arena.is_free(p) && !slot.range.contains(p) && self.arena.stored()[p] == arena0.stored()[p] by {
                assert(p < arena1.stored().len());
            }
            lemma_wf_after_store(self.arena, cs0, index as int, slot);
        }
        if index < self.contours.len() {
            self.contours.set(index, slot);
        } else {
            self.contours.push(slot);
        }
        Ok(range)
    }

    /// Stores frame contour `index` in its slot and counts what was done.
    fn prepare_contour(
        &mut self,
        index: usize,
        contour: &RecordedContour,
        ev: &ContourEvidence,
        dirty: &mut Vec<DirtyRange>,
        stats: &mut CacheStats,
    ) -> (res: Result<(), Error>)
        requires
            old(self).wf(),
            index <= old(self).slots().len(),
        ensures
            final(self).wf(),
            res is Err ==> res == Err::<(), Error>(Error::FrameTooLarge),
            res is Err ==> old(self).storage().stored().len() + contour.points@.len() > u32::MAX,
            res is Err ==> contour.points@.len() > u32::MAX || ({
                let existing = if index < old(self).slots().len() {
                    Some(old(self).slots()[index as int])
                } else {
                    None::<CachedContour>
                };
                let key = GeometryKey {
                    a: key_hash(contour_key_words(*contour)).0,
                    b: key_hash(contour_key_words(*contour)).1,
                };
                let action = contour_action(existing, key, contour.closed, contour.points@.len() as u32, *ev);
                action is Reallocate || action is Allocate
            }),
            res is Ok ==> final(self).storage().stored().len() <= old(self).storage().stored().len()
                + contour.points@.len(),
            res is Ok ==> final(self).storage().stored().len() >= old(self).storage().stored().len(),
            res is Ok ==> {
                let existing = if index < old(self).slots().len() {
                    Some(old(self).slots()[index as int])
                } else {
                    None::<CachedContour>
                };
                let key = GeometryKey {
                    a: key_hash(contour_key_words(*contour)).0,
                    b: key_hash(contour_key_words(*contour)).1,
                };
                let count = contour.points@.len() as u32;
                let action = contour_action(existing, key, contour.closed, count, *ev);
                let slot = final(self).slots()[index as int];
                &&& contour.points@.len() <= u32::MAX
                &&& final(self).stores_slot(*old(self), index as int, slot)
                &&& slot == cached_after(action, existing, key, contour.closed, ev.bounds, slot.range)
                &&& slot.range.count == count
                &&& !(action is Reallocate || action is Allocate) ==> slot.range == existing->0.range
                &&& action.writes() ==> final(self).storage().stored().subrange(slot.range.first as int, slot.range.end()) == contour.points@
                &&& !action.writes() ==> final(self).storage() == old(self).storage()
                &&& !(action is Reallocate || action is Allocate) ==> final(self).storage().stored().len()
                    == old(self).storage().stored().len()
                &&& !(action is Reallocate || action is Allocate) ==> final(self).storage().free_ranges()
                    == old(self).storage().free_ranges()
                &&& (action is Reallocate || action is Allocate) ==> {
                    let released = released_range(old(self).slots(), index as int);
                    &&& first_fit_placed(
                        freed_with(old(self).storage(), released),
                        old(self).storage().stored().len() as int,
                        count as int,
                        slot.range.first as int,
                    )
                    &&& forall|q: int| #[trigger] final(self).storage().is_free(q) <==> (old(self).storage().is_free(q)
                        || released.contains(q)) && !slot.range.contains(q)
                    &&& final(self).storage().stored().len() == if slot.range.end() > old(self).storage().stored().len() {
                        slot.range.end()
                    } else {
                        old(self).storage().stored().len() as int
                    }
                }
                &&& final(dirty)@ == if action.writes() { pushed_dirty(old(dirty)@, slot.range) } else { old(dirty)@ }
                &&& *final(stats) == tallied(*old(stats), action, count)
            },
    {
        if contour.points.len() > 0xffff_ffffusize {
            return Err(Error::FrameTooLarge);
        }
        let point_count = contour.points.len() as u32;
        let key = geometry_key(contour);
        let bounds = ev.bounds;
        if index < self.contours.len() {
            let prev = self.contours[index];
            let same_shape = prev.closed == contour.closed && prev.range.count == point_count;
            let mut kept: Option<CachedContour> = None;
            if prev.key == key && same_shape && ev.matches_cached {
                stats.reused_contours = stats.reused_contours.saturating_add(1);
                kept = Some(CachedContour { key, bounds, ..prev });
            } else if same_shape && ev.translation.is_some() {
                let transform = ev.translation.unwrap();
                stats.reused_contours = stats.reused_contours.saturating_add(1);
                stats.translated_contours = stats.translated_contours.saturating_add(1);
                stats.translated_points = stats.translated_points.saturating_add(prev.range.count);
                kept = Some(CachedContour { key, range: prev.range, closed: contour.closed, transform, bounds });
            } else if same_shape && ev.affine.is_some() {
                let transform = ev.affine.unwrap();
                stats.reused_contours = stats.reused_contours.saturating_add(1);
                stats.affine_contours = stats.affine_contours.saturating_add(1);
                stats.affine_points = stats.affine_points.saturating_add(prev.range.count);
                kept = Some(CachedContour { key, range: prev.range, closed: contour.closed, transform, bounds });
            }
            if let Some(slot) = kept {
                proof {
                    let cs0 = self.contours@;
                    lemma_wf_after_store(self.arena, cs0, index as int, slot);
                }
                self.contours.set(index, slot);
                return Ok(());
            }
            if prev.range.count == point_count {
                let range = self.rewrite_slot(index, contour, key, bounds);
                push_dirty(dirty, range);
                stats.updated_contours = stats.updated_contours.saturating_add(1);
                return Ok(());
            }
        }
        let range = match self.allocate_slot(index, contour, key, bounds) {
            Ok(r) => r,
            Err(e) => return Err(e),
        };
        push_dirty(dirty, range);
        stats.allocated_contours = stats.allocated_contours.saturating_add(1);
        Ok(())
    }
}

/// The free points of `arena` together with those of `released`.
pub open spec fn freed_with(arena: PointArena, released: PointRange) -> spec_fn(int) -> bool {
    |q: int| arena.is_free(q) || released.contains(q)
}

/// The storage slot `i` gives back before it is given new storage: its
/// range when it exists, else nothing.
pub open spec fn released_range(slots: Seq<CachedContour>, i: int) -> PointRange {
    if 0 <= i < slots.len() {
        slots[i].range
    } else {
        PointRange { first: 0, count: 0 }
    }
}

/// The previous contents of slot `i`, if it existed.
pub open spec fn existing_slot(slots: Seq<CachedContour>, i: int) -> Option<CachedContour> {
    if 0 <= i < slots.len() { Some(slots[i]) } else { None }
}

/// The geometry key of a contour.
pub open spec fn frame_key(contour: RecordedContour) -> GeometryKey {
    GeometryKey { a: key_hash(contour_key_words(contour)).0, b: key_hash(contour_key_words(contour)).1 }
}

/// Action for frame contour `i` against the slots of the previous frame.
pub open spec fn action_at(
    slots: Seq<CachedContour>,
    contours: Seq<RecordedContour>,
    evidence: Seq<ContourEvidence>,
    i: int,
) -> ContourAction {
    contour_action(
        existing_slot(slots, i),
        frame_key(contours[i]),
        contours[i].closed,
        contours[i].points@.len() as u32,
        evidence[i],
    )
}

/// `slot` is what frame contour `i` leaves in its slot.
pub open spec fn slot_prepared(
    slot: CachedContour,
    slots: Seq<CachedContour>,
    contours: Seq<RecordedContour>,
    evidence: Seq<ContourEvidence>,
    i: int,
) -> bool {
    let action = action_at(slots, contours, evidence, i);
    &&& slot == cached_after(
        action,
        existing_slot(slots, i),
        frame_key(contours[i]),
        contours[i].closed,
        evidence[i].bounds,
        slot.range,
    )
    &&& slot.range.count == contours[i].points@.len()
    &&& !(action is Reallocate || action is Allocate) ==> slot.range == slots[i].range
}

/// Upload runs of the first `n` frame contours, given the slots they ended in.
pub open spec fn dirty_upto(
    new_slots: Seq<CachedContour>,
    slots: Seq<CachedContour>,
    contours: Seq<RecordedContour>,
    evidence: Seq<ContourEvidence>,
    n: int,
) -> Seq<DirtyRange>
    decreases n,
{
    if n <= 0 {
        Seq::empty()
    } else {
        let d = dirty_upto(new_slots, slots, contours, evidence, n - 1);
        if action_at(slots, contours, evidence, n - 1).writes() {
            pushed_dirty(d, new_slots[n - 1].range)
        } else {
            d
        }
    }
}

/// Statistics after storing the first `n` frame contours.
pub open spec fn stats_upto(
    stats: CacheStats,
    slots: Seq<CachedContour>,
    contours: Seq<RecordedContour>,
    evidence: Seq<ContourEvidence>,
    n: int,
) -> CacheStats
    decreases n,
{
    if n <= 0 {
        stats
    } else {
        tallied(
            stats_upto(stats, slots, contours, evidence, n - 1),
            action_at(slots, contours, evidence, n - 1),
            contours[n - 1].points@.len() as u32,
        )
    }
}

/// After the frame, slot `i` holds the contour's points: written for the
/// actions that write, the resident ones otherwise.
pub open spec fn slot_contents_ok(
    stored: Seq<Point>,
    old_stored: Seq<Point>,
    slot: CachedContour,
    action: ContourAction,
    points: Seq<Point>,
) -> bool {
    if action.writes() {
        stored.subrange(slot.range.first as int, slot.range.end()) == points
    } else {
        forall|p: int| #[trigger] slot.range.contains(p) ==> stored[p] == old_stored[p]
    }
}

/// Points in the first `n` contours.
pub open spec fn points_upto(contours: Seq<RecordedContour>, n: int) -> int
    decreases n,
{
    if n <= 0 {
        0
    } else {
        points_upto(contours, n - 1) + contours[n - 1].points@.len()
    }
}

/// Frame contour `k` is given new storage (a new slot, or a slot whose
/// point count changed).
pub open spec fn takes_storage(
    slots: Seq<CachedContour>,
    contours: Seq<RecordedContour>,
    evidence: Seq<ContourEvidence>,
    k: int,
) -> bool {
    let action = action_at(slots, contours, evidence, k);
    action is Reallocate || action is Allocate
}

/// Whether point `q` is free just before frame contour `i` is stored,
/// given the storage `before` the frame and the slots `s1` the earlier
/// contours ended in: free before the frame or given back by an earlier
/// contour that took new storage, and not taken by one.
pub open spec fn free_before_step(
    before: PointArena,
    s0: Seq<CachedContour>,
    s1: Seq<CachedContour>,
    contours: Seq<RecordedContour>,
    evidence: Seq<ContourEvidence>,
    i: int,
    q: int,
) -> bool {
    &&& (before.is_free(q) || exists|k: int|
        0 <= k < i && takes_storage(s0, contours, evidence, k) && #[trigger] released_range(s0, k).contains(q))
    &&& !exists|k: int| 0 <= k < i && takes_storage(s0, contours, evidence, k) && #[trigger] s1[k].range.contains(q)
}

/// The free points frame contour `i` is placed among when it takes new
/// storage: those free just before it, with its own old storage given back.
pub open spec fn free_for_step(
    before: PointArena,
    s0: Seq<CachedContour>,
    s1: Seq<CachedContour>,
    contours: Seq<RecordedContour>,
    evidence: Seq<ContourEvidence>,
    i: int,
) -> spec_fn(int) -> bool {
    |q: int| free_before_step(before, s0, s1, contours, evidence, i, q) || released_range(s0, i).contains(q)
}

/// Stored length just before frame contour `i` is stored: the length
/// before the frame, extended by every earlier contour placed at the end.
pub open spec fn len_before_step(
    before_len: int,
    s0: Seq<CachedContour>,
    s1: Seq<CachedContour>,
    contours: Seq<RecordedContour>,
    evidence: Seq<ContourEvidence>,
    i: int,
) -> int
    decreases i,
{
    if i <= 0 {
        before_len
    } else {
        let l = len_before_step(before_len, s0, s1, contours, evidence, i - 1);
        if takes_storage(s0, contours, evidence, i - 1) && s1[i - 1].range.end() > l {
            s1[i - 1].range.end()
        } else {
            l
        }
    }
}

/// Every frame contour that took new storage was placed by first fit among
/// the points free at its turn.
pub open spec fn placed_first_fit(
    before: PointArena,
    s0: Seq<CachedContour>,
    s1: Seq<CachedContour>,
    contours: Seq<RecordedContour>,
    evidence: Seq<ContourEvidence>,
    n: int,
) -> bool {
    forall|i: int|
        0 <= i < n && #[trigger] takes_storage(s0, contours, evidence, i) ==> first_fit_placed(
            free_for_step(before, s0, s1, contours, evidence, i),
            len_before_step(before.stored().len() as int, s0, s1, contours, evidence, i),
            contours[i].points@.len() as int,
            s1[i].range.first as int,
        )
}

proof fn lemma_placement_step(
    a0: PointArena,
    s0: Seq<CachedContour>,
    contours: Seq<RecordedContour>,
    evidence: Seq<ContourEvidence>,
    i: int,
    before: GeometryCache,
    after: GeometryCache,
)
    requires
        0 <= i < contours.len(),
        evidence.len() == contours.len(),
        before.wf(),
        before.slots().len() == if i < s0.len() { s0.len() } else { i as nat },
        forall|k: int| i <= k < s0.len() ==> #[trigger] before.slots()[k] == s0[k],
        forall|q: int| #[trigger] before.storage().is_free(q) <==> free_before_step(a0, s0, before.slots(), contours, evidence, i, q),
        before.storage().stored().len() == len_before_step(a0.stored().len() as int, s0, before.slots(), contours, evidence, i),
        placed_first_fit(a0, s0, before.slots(), contours, evidence, i),
        ({
            let existing = if i < before.slots().len() { Some(before.slots()[i]) } else { None::<CachedContour> };
            let key = frame_key(contours[i]);
            let count = contours[i].points@.len() as u32;
            let action = contour_action(existing, key, contours[i].closed, count, evidence[i]);
            let slot = after.slots()[i];
            let released = released_range(before.slots(), i);
            &&& contours[i].points@.len() <= u32::MAX
            &&& after.slots() == if i < before.slots().len() {
                before.slots().update(i, slot)
            } else {
                before.slots().push(slot)
            }
            &&& !(action is Reallocate || action is Allocate) ==> after.storage().stored().len()
                == before.storage().stored().len()
            &&& !(action is Reallocate || action is Allocate) ==> after.storage().free_ranges()
                == before.storage().free_ranges()
            &&& (action is Reallocate || action is Allocate) ==> {
                &&& first_fit_placed(
                    freed_with(before.storage(), released),
                    before.storage().stored().len() as int,
                    count as int,
                    slot.range.first as int,
                )
                &&& forall|q: int| #[trigger] after.storage().is_free(q) <==> (before.storage().is_free(q)
                    || released.contains(q)) && !slot.range.contains(q)
                &&& after.storage().stored().len() == if slot.range.end() > before.storage().stored().len() {
                    slot.range.end()
                } else {
                    before.storage().stored().len() as int
                }
            }
        }),
    ensures
        forall|q: int| #[trigger] after.storage().is_free(q) <==> free_before_step(a0, s0, after.slots(), contours, evidence, i + 1, q),
        after.storage().stored().len() == len_before_step(a0.stored().len() as int, s0, after.slots(), contours, evidence, i + 1),
        placed_first_fit(a0, s0, after.slots(), contours, evidence, i + 1),
{
    let sb = before.slots();
    let sa = after.slots();
    let existing = if i < sb.len() { Some(sb[i]) } else { None::<CachedContour> };
    assert(existing == existing_slot(s0, i)) by {
        if i < s0.len() {
            assert(sb[i] == s0[i]);
        }
    }
    let takes = takes_storage(s0, contours, evidence, i);
    assert(released_range(sb, i) == released_range(s0, i)) by {
        if i < s0.len() {
            assert(sb[i] == s0[i]);
        }
    }
    assert forall|k: int| 0 <= k < i implies #[trigger] sa[k] == sb[k] by {}
    let rel = released_range(s0, i);
    // Points given back by contour `i` were not taken by an earlier contour.
    assert forall|q: int, k: int| 0 <= k < i && rel.contains(q) implies !(#[trigger] sb[k].range.contains(q)) by {
        assert(i < s0.len());
        assert(sb[i] == s0[i]);
        assert(sb[i].range.contains(q));
    }
    assert forall|q: int| #[trigger] after.storage().is_free(q) <==> free_before_step(a0, s0, sa, contours, evidence, i + 1, q) by {
        let old_free = free_before_step(a0, s0, sb, contours, evidence, i, q);
        assert(before.storage().is_free(q) == old_free);
        if exists|k: int| 0 <= k < i + 1 && takes_storage(s0, contours, evidence, k) && #[trigger] released_range(s0, k).contains(q) {
            let k = choose|k: int| 0 <= k < i + 1 && takes_storage(s0, contours, evidence, k) && #[trigger] released_range(s0, k).contains(q);
            if k < i {
                assert(0 <= k < i && takes_storage(s0, contours, evidence, k) && released_range(s0, k).contains(q));
            }
        }
        if exists|k: int| 0 <= k < i && takes_storage(s0, contours, evidence, k) && #[trigger] released_range(s0, k).contains(q) {
            let k = choose|k: int| 0 <= k < i && takes_storage(s0, contours, evidence, k) && #[trigger] released_range(s0, k).contains(q);
            assert(0 <= k < i + 1 && takes_storage(s0, contours, evidence, k) && released_range(s0, k).contains(q));
        }
        if exists|k: int| 0 <= k < i + 1 && takes_storage(s0, contours, evidence, k) && #[trigger] sa[k].range.contains(q) {
            let k = choose|k: int| 0 <= k < i + 1 && takes_storage(s0, contours, evidence, k) && #[trigger] sa[k].range.contains(q);
            if k < i {
                assert(sb[k].range.contains(q));
            }
        }
        if exists|k: int| 0 <= k < i && takes_storage(s0, contours, evidence, k) && #[trigger] sb[k].range.contains(q) {
            let k = choose|k: int| 0 <= k < i && takes_storage(s0, contours, evidence, k) && #[trigger] sb[k].range.contains(q);
            assert(sa[k].range.contains(q));
        }
        if takes {
            if rel.contains(q) {
                assert(0 <= i < i + 1 && takes_storage(s0, contours, evidence, i) && released_range(s0, i).contains(q));
            }
            if sa[i].range.contains(q) {
                assert(0 <= i < i + 1 && takes_storage(s0, contours, evidence, i) && sa[i].range.contains(q));
            }
        } else {
            assert(after.storage().is_free(q) == before.storage().is_free(q));
        }
    }
    lemma_len_before_congruent(a0.stored().len() as int, s0, sb, sa, contours, evidence, i);
    lemma_placed_congruent(a0, s0, sb, sa, contours, evidence, i);
    assert forall|j: int| 0 <= j < i + 1 && #[trigger] takes_storage(s0, contours, evidence, j) implies first_fit_placed(
        free_for_step(a0, s0, sa, contours, evidence, j),
        len_before_step(a0.stored().len() as int, s0, sa, contours, evidence, j),
        contours[j].points@.len() as int,
        sa[j].range.first as int,
    ) by {
        if j == i {
            assert(freed_with(before.storage(), released_range(sb, i)) =~= free_for_step(a0, s0, sa, contours, evidence, i)) by {
                assert forall|q: int| free_before_step(a0, s0, sb, contours, evidence, i, q) == free_before_step(
                    a0,
                    s0,
                    sa,
                    contours,
                    evidence,
                    i,
                    q,
                ) by {
                    if exists|k: int| 0 <= k < i && takes_storage(s0, contours, evidence, k) && #[trigger] sb[k].range.contains(q) {
                        let k = choose|k: int| 0 <= k < i && takes_storage(s0, contours, evidence, k) && #[trigger] sb[k].range.contains(q);
                        assert(sa[k].range.contains(q));
                    }
                    if exists|k: int| 0 <= k < i && takes_storage(s0, contours, evidence, k) && #[trigger] sa[k].range.contains(q) {
                        let k = choose|k: int| 0 <= k < i && takes_storage(s0, contours, evidence, k) && #[trigger] sa[k].range.contains(q);
                        assert(sb[k].range.contains(q));
                    }
                }
            }
        }
    }
}

proof fn lemma_len_before_congruent(
    before_len: int,
    s0: Seq<CachedContour>,
    a: Seq<CachedContour>,
    b: Seq<CachedContour>,
    contours: Seq<RecordedContour>,
    evidence: Seq<ContourEvidence>,
    i: int,
)
    requires
        forall|k: int| 0 <= k < i ==> #[trigger] a[k] == b[k],
    ensures
        len_before_step(before_len, s0, a, contours, evidence, i) == len_before_step(before_len, s0, b, contours, evidence, i),
    decreases i,
{
    if i > 0 {
        lemma_len_before_congruent(before_len, s0, a, b, contours, evidence, i - 1);
        assert(a[i - 1] == b[i - 1]);
    }
}

pub(crate) proof fn lemma_placed_congruent(
    before: PointArena,
    s0: Seq<CachedContour>,
    a: Seq<CachedContour>,
    b: Seq<CachedContour>,
    contours: Seq<RecordedContour>,
    evidence: Seq<ContourEvidence>,
    n: int,
)
    requires
        forall|k: int| 0 <= k < n ==> #[trigger] a[k] == b[k],
        placed_first_fit(before, s0, a, contours, evidence, n),
    ensures
        placed_first_fit(before, s0, b, contours, evidence, n),
{
    assert forall|i: int| 0 <= i < n && #[trigger] takes_storage(s0, contours, evidence, i) implies first_fit_placed(
        free_for_step(before, s0, b, contours, evidence, i),
        len_before_step(before.stored().len() as int, s0, b, contours, evidence, i),
        contours[i].points@.len() as int,
        b[i].range.first as int,
    ) by {
        lemma_len_before_congruent(before.stored().len() as int, s0, a, b, contours, evidence, i);
        assert(free_for_step(before, s0, a, contours, evidence, i) =~= free_for_step(before, s0, b, contours, evidence, i)) by {
            assert forall|q: int| free_before_step(before, s0, a, contours, evidence, i, q) == free_before_step(
                before,
                s0,
                b,
                contours,
                evidence,
                i,
                q,
            ) by {
                if exists|k: int| 0 <= k < i && takes_storage(s0, contours, evidence, k) && #[trigger] a[k].range.contains(q) {
                    let k = choose|k: int| 0 <= k < i && takes_storage(s0, contours, evidence, k) && #[trigger] a[k].range.contains(q);
                    assert(b[k].range.contains(q));
                }
                if exists|k: int| 0 <= k < i && takes_storage(s0, contours, evidence, k) && #[trigger] b[k].range.contains(q) {
                    let k = choose|k: int| 0 <= k < i && takes_storage(s0, contours, evidence, k) && #[trigger] b[k].range.contains(q);
                    assert(a[k].range.contains(q));
                }
            }
        }
        assert(a[i] == b[i]);
        assert(first_fit_placed(
            free_for_step(before, s0, a, contours, evidence, i),
            len_before_step(before.stored().len() as int, s0, a, contours, evidence, i),
            contours[i].points@.len() as int,
            a[i].range.first as int,
        ));
    }
}

/// Points frame contour `i` takes from new storage: all of them when it
/// gets new storage (or has too many points to count in 32 bits), none
/// when its slot's storage is kept.
pub open spec fn new_points_at(
    slots: Seq<CachedContour>,
    contours: Seq<RecordedContour>,
    evidence: Seq<ContourEvidence>,
    i: int,
) -> int {
    let len = contours[i].points@.len();
    let action = action_at(slots, contours, evidence, i);
    if len > u32::MAX || action is Reallocate || action is Allocate {
        len as int
    } else {
        0
    }
}

/// Points the first `n` frame contours take from new storage.
pub open spec fn new_points_upto(
    slots: Seq<CachedContour>,
    contours: Seq<RecordedContour>,
    evidence: Seq<ContourEvidence>,
    n: int,
) -> int
    decreases n,
{
    if n <= 0 {
        0
    } else {
        new_points_upto(slots, contours, evidence, n - 1) + new_points_at(slots, contours, evidence, n - 1)
    }
}

proof fn lemma_new_points_upto_monotone(
    slots: Seq<CachedContour>,
    contours: Seq<RecordedContour>,
    evidence: Seq<ContourEvidence>,
    m: int,
    n: int,
)
    requires
        0 <= m <= n,
    ensures
        new_points_upto(slots, contours, evidence, m) <= new_points_upto(slots, contours, evidence, n),
    decreases n - m,
{
    if m < n {
        lemma_new_points_upto_monotone(slots, contours, evidence, m, n - 1);
    }
}

proof fn lemma_points_upto_monotone(contours: Seq<RecordedContour>, m: int, n: int)
    requires
        0 <= m <= n,
    ensures
        points_upto(contours, m) <= points_upto(contours, n),
    decreases n - m,
{
    if m < n {
        lemma_points_upto_monotone(contours, m, n - 1);
    }
}

impl GeometryCache {
    /// Drops the slots from `n` on, returning their points to the free list.
    pub(crate) fn retire_slots(&mut self, n: usize)
        requires
            old(self).wf(),
        ensures
            final(self).wf(),
            final(self).slots() == if n < old(self).slots().len() {
                old(self).slots().subrange(0, n as int)
            } else {
                old(self).slots()
            },
            final(self).storage().stored() == old(self).storage().stored(),
            forall|p: int| #[trigger] final(self).storage().is_free(p) <==> old(self).storage().is_free(p)
                || exists|j: int| #![trigger old(self).slots()[j].range.contains(p)]
                    n <= j < old(self).slots().len() && old(self).slots()[j].range.contains(p),
    {
        let ghost s0 = self.contours@;
        let ghost a0 = self.arena;
        assert(self.contours@ =~= s0.subrange(0, s0.len() as int));
        while self.contours.len() > n
            invariant
                cache_wf(self.arena, self.contours@),
                self.contours@ == s0.subrange(0, self.contours@.len() as int),
                self.contours@.len() <= s0.len(),
                s0.len() <= n ==> self.contours@.len() == s0.len(),
                n < s0.len() ==> self.contours@.len() >= n,
                self.arena.stored() == a0.stored(),
                forall|p: int| #[trigger] self.arena.is_free(p) <==> a0.is_free(p)
                    || exists|j: int| #![trigger s0[j].range.contains(p)]
                        self.contours@.len() <= j < s0.len() && s0[j].range.contains(p),
                s0 == old(self).slots(),
                a0 == old(self).storage(),
            decreases self.contours@.len(),
        {
            let ghost cs = self.contours@;
            let ghost before = self.arena;
            let last = self.contours.pop().unwrap();
            let k = self.contours.len();
            proof {
                assert(cs[k as int] == last);
                assert(forall|p: int| last.range.contains(p) ==> !before.is_free(p));
            }
            self.arena.release(last.range);
            proof {
                assert(self.contours@ =~= cs.subrange(0, k as int));
                assert(self.contours@ =~= s0.subrange(0, k as int));
                assert(last == s0[k as int]);
                assert forall|p: int| #[trigger] self.arena.is_free(p) <==> a0.is_free(p)
                    || exists|j: int| #![trigger s0[j].range.contains(p)]
                        k <= j < s0.len() && s0[j].range.contains(p) by {
                    if self.arena.is_free(p) && !a0.is_free(p) && !before.is_free(p) {
                        assert(s0[k as int].range.contains(p));
                    }
                    if exists|j: int| #![trigger s0[j].range.contains(p)] k <= j < s0.len() && s0[j].range.contains(p) {
                        let j = choose|j: int| #![trigger s0[j].range.contains(p)] k <= j < s0.len() && s0[j].range.contains(p);
                        if j > k {
                            assert(before.is_free(p));
                        }
                    }
                }
                let cs1 = self.contours@;
                assert forall|i: int, j: int, p: int|
                    #![trigger cs1[i].range.contains(p), cs1[j].range.contains(p)]
                    0 <= i < cs1.len() && 0 <= j < cs1.len() && i != j && cs1[i].range.contains(p)
                    implies !cs1[j].range.contains(p) by {
                    assert(cs1[i] == cs[i] && cs1[j] == cs[j]);
                }
                assert forall|i: int, p: int| #![trigger cs1[i].range.contains(p)]
                    0 <= i < cs1.len() && cs1[i].range.contains(p) implies !self.arena.is_free(p) by {
                    assert(cs1[i] == cs[i]);
                    assert(cs[k as int].range.contains(p) ==> !cs[i].range.contains(p));
                }
                assert forall|i: int| 0 <= i < cs1.len() implies #[trigger] cs1[i].range.end() <= self.arena.stored().len() by {
                    assert(cs1[i] == cs[i]);
                }
            }
        }
        proof {
            if n >= s0.len() {
                assert(self.contours@ =~= s0);
            } else {
                assert(self.contours@.len() == n);
            }
        }
    }

    pub(crate) fn store_contours(
        &mut self,
        contours: &Vec<RecordedContour>,
        evidence: &Vec<ContourEvidence>,
        dirty: &mut Vec<DirtyRange>,
        stats: &mut CacheStats,
    ) -> (res: Result<(), Error>)
        requires
            old(self).wf(),
            evidence@.len() == contours@.len(),
            old(dirty)@.len() == 0,
        ensures
            final(self).wf(),
            res is Err ==> res == Err::<(), Error>(Error::FrameTooLarge),
            res is Err ==> old(self).storage().stored().len() + points_upto(contours@, contours@.len() as int) > u32::MAX,
            res is Err ==> old(self).storage().stored().len() + new_points_upto(
                old(self).slots(),
                contours@,
                evidence@,
                contours@.len() as int,
            ) > u32::MAX,
            res is Ok ==> old(self).storage().stored().len() <= final(self).storage().stored().len()
                <= old(self).storage().stored().len() + new_points_upto(
                old(self).slots(),
                contours@,
                evidence@,
                contours@.len() as int,
            ),
            res is Ok ==> {
                let s0 = old(self).slots();
                let s1 = final(self).slots();
                let n = contours@.len() as int;
                &&& s1.len() == if n < s0.len() { s0.len() } else { n as nat }
                &&& forall|i: int| 0 <= i < n ==> #[trigger] slot_prepared(s1[i], s0, contours@, evidence@, i)
                &&& forall|i: int| 0 <= i < n ==> #[trigger] slot_contents_ok(
                    final(self).storage().stored(),
                    old(self).storage().stored(),
                    s1[i],
                    action_at(s0, contours@, evidence@, i),
                    contours@[i].points@,
                )
                &&& forall|i: int| n <= i < s0.len() ==> #[trigger] s1[i] == s0[i]
                &&& forall|i: int, p: int| n <= i < s0.len() && #[trigger] s0[i].range.contains(p)
                    ==> final(self).storage().stored()[p] == old(self).storage().stored()[p]
                &&& final(dirty)@ == dirty_upto(s1, s0, contours@, evidence@, n)
                &&& *final(stats) == stats_upto(*old(stats), s0, contours@, evidence@, n)
                &&& placed_first_fit(old(self).storage(), s0, s1, contours@, evidence@, n)
            },
    {
        let ghost s0 = self.contours@;
        let ghost stored0 = self.arena.stored();
        let ghost a0 = self.arena;
        let n = contours.len();
        let mut i: usize = 0;
        while i < n
            invariant
                0 <= i <= n,
                n == contours@.len(),
                evidence@.len() == n,
                s0 == old(self).slots(),
                stored0 == old(self).storage().stored(),
                self.wf(),
                self.slots().len() == if i < s0.len() { s0.len() } else { i as nat },
                forall|k: int| 0 <= k < i ==> #[trigger] slot_prepared(self.slots()[k], s0, contours@, evidence@, k),
                forall|k: int| 0 <= k < i ==> #[trigger] slot_contents_ok(
                    self.storage().stored(),
                    stored0,
                    self.slots()[k],
                    action_at(s0, contours@, evidence@, k),
                    contours@[k].points@,
                ),
                forall|k: int| i <= k < s0.len() ==> #[trigger] self.slots()[k] == s0[k],
                forall|k: int, p: int| i <= k < s0.len() && #[trigger] s0[k].range.contains(p)
                    ==> self.storage().stored()[p] == stored0[p],
                dirty@ == dirty_upto(self.slots(), s0, contours@, evidence@, i as int),
                *stats == stats_upto(*old(stats), s0, contours@, evidence@, i as int),
                self.storage().stored().len() <= stored0.len() + points_upto(contours@, i as int),
                stored0.len() <= self.storage().stored().len() <= stored0.len() + new_points_upto(
                    s0,
                    contours@,
                    evidence@,
                    i as int,
                ),
                a0 == old(self).storage(),
                forall|q: int| #[trigger] self.storage().is_free(q) <==> free_before_step(a0, s0, self.slots(), contours@, evidence@, i as int, q),
                self.storage().stored().len() == len_before_step(a0.stored().len() as int, s0, self.slots(), contours@, evidence@, i as int),
                placed_first_fit(a0, s0, self.slots(), contours@, evidence@, i as int),
            decreases n - i,
        {
            let ghost before = *self;
            let ghost dirty_before = dirty@;
            match self.prepare_contour(i, &contours[i], &evidence[i], dirty, stats) {
                Ok(()) => {},
                Err(e) => {
                    proof {
                        lemma_points_upto_monotone(contours@, i as int + 1, n as int);
                        lemma_new_points_upto_monotone(s0, contours@, evidence@, i as int + 1, n as int);
                        assert(existing_slot(s0, i as int) == (if (i as int) < before.slots().len() {
                            Some(before.slots()[i as int])
                        } else {
                            None::<CachedContour>
                        }));
                    }
                    return Err(e);
                },
            }
            proof {
                lemma_store_step(before, *self, s0, stored0, contours@, evidence@, i as int, dirty_before, dirty@);
                lemma_placement_step(a0, s0, contours@, evidence@, i as int, before, *self);
                assert(existing_slot(s0, i as int) == (if (i as int) < before.slots().len() {
                    Some(before.slots()[i as int])
                } else {
                    None::<CachedContour>
                }));
            }
            i = i + 1;
        }
        Ok(())
    }
}

proof fn lemma_store_step(
    before: GeometryCache,
    after: GeometryCache,
    s0: Seq<CachedContour>,
    stored0: Seq<Point>,
    contours: Seq<RecordedContour>,
    evidence: Seq<ContourEvidence>,
    i: int,
    dirty_before: Seq<DirtyRange>,
    dirty_after: Seq<DirtyRange>,
)
    requires
        0 <= i < contours.len(),
        evidence.len() == contours.len(),
        before.wf(),
        before.slots().len() == if i < s0.len() { s0.len() } else { i as nat },
        forall|k: int| 0 <= k < i ==> #[trigger] slot_prepared(before.slots()[k], s0, contours, evidence, k),
        forall|k: int| 0 <= k < i ==> #[trigger] slot_contents_ok(
            before.storage().stored(),
            stored0,
            before.slots()[k],
            action_at(s0, contours, evidence, k),
            contours[k].points@,
        ),
        forall|k: int| i <= k < s0.len() ==> #[trigger] before.slots()[k] == s0[k],
        forall|k: int, p: int| i <= k < s0.len() && #[trigger] s0[k].range.contains(p)
            ==> before.storage().stored()[p] == stored0[p],
        dirty_before == dirty_upto(before.slots(), s0, contours, evidence, i),
        ({
            let existing = if i < before.slots().len() { Some(before.slots()[i]) } else { None::<CachedContour> };
            let key = frame_key(contours[i]);
            let count = contours[i].points@.len() as u32;
            let action = contour_action(existing, key, contours[i].closed, count, evidence[i]);
            let slot = after.slots()[i];
            &&& contours[i].points@.len() <= u32::MAX
            &&& after.stores_slot(before, i, slot)
            &&& slot == cached_after(action, existing, key, contours[i].closed, evidence[i].bounds, slot.range)
            &&& slot.range.count == count
            &&& !(action is Reallocate || action is Allocate) ==> slot.range == existing->0.range
            &&& action.writes() ==> after.storage().stored().subrange(slot.range.first as int, slot.range.end()) == contours[i].points@
            &&& !action.writes() ==> after.storage() == before.storage()
            &&& dirty_after == if action.writes() { pushed_dirty(dirty_before, slot.range) } else { dirty_before }
        }),
    ensures
        after.slots().len() == if i + 1 < s0.len() { s0.len() } else { (i + 1) as nat },
        forall|k: int| 0 <= k < i + 1 ==> #[trigger] slot_prepared(after.slots()[k], s0, contours, evidence, k),
        forall|k: int| 0 <= k < i + 1 ==> #[trigger] slot_contents_ok(
            after.storage().stored(),
            stored0,
            after.slots()[k],
            action_at(s0, contours, evidence, k),
            contours[k].points@,
        ),
        forall|k: int| i + 1 <= k < s0.len() ==> #[trigger] after.slots()[k] == s0[k],
        forall|k: int, p: int| i + 1 <= k < s0.len() && #[trigger] s0[k].range.contains(p)
            ==> after.storage().stored()[p] == stored0[p],
        dirty_after == dirty_upto(after.slots(), s0, contours, evidence, i + 1),
{
    let s_before = before.slots();
    let s_after = after.slots();
    let existing = if i < s_before.len() { Some(s_before[i]) } else { None::<CachedContour> };
    assert(existing == existing_slot(s0, i)) by {
        if i < s0.len() {
            assert(s_before[i] == s0[i]);
        }
    }
    assert forall|k: int| 0 <= k < i implies #[trigger] s_after[k] == s_before[k] by {}
    assert forall|k: int| 0 <= k < i + 1 implies #[trigger] slot_prepared(s_after[k], s0, contours, evidence, k) by {
        if k < i {
            assert(slot_prepared(s_before[k], s0, contours, evidence, k));
        } else {
            if !(action_at(s0, contours, evidence, i) is Reallocate || action_at(s0, contours, evidence, i) is Allocate) {
                assert(s_before[i] == s0[i]);
            }
        }
    }
    assert forall|k: int| 0 <= k < i + 1 implies #[trigger] slot_contents_ok(
        after.storage().stored(),
        stored0,
        s_after[k],
        action_at(s0, contours, evidence, k),
        contours[k].points@,
    ) by {
        if k < i {
            assert(slot_contents_ok(before.storage().stored(), stored0, s_before[k], action_at(s0, contours, evidence, k), contours[k].points@));
            let r = s_before[k].range;
            assert(r.end() <= before.storage().stored().len());
            if action_at(s0, contours, evidence, k).writes() {
                assert forall|p: int| #[trigger] r.contains(p) implies after.storage().stored()[p]
                    == before.storage().stored()[p] by {
                    assert(s_before[k].range.contains(p));
                }
                assert forall|q: int| 0 <= q < r.count implies #[trigger] after.storage().stored().subrange(r.first as int, r.end())[q]
                    == before.storage().stored().subrange(r.first as int, r.end())[q] by {
                    assert(r.contains(r.first + q));
                }
                assert(after.storage().stored().subrange(r.first as int, r.end()) =~= before.storage().stored().subrange(r.first as int, r.end()));
            } else {
                assert forall|p: int| #[trigger] s_after[k].range.contains(p) implies after.storage().stored()[p] == stored0[p] by {
                    assert(s_before[k].range.contains(p));
                }
            }
        } else {
            if !action_at(s0, contours, evidence, i).writes() {
                assert forall|p: int| #[trigger] s_after[i].range.contains(p) implies after.storage().stored()[p] == stored0[p] by {
                    assert(s0[i].range.contains(p));
                    assert(s_before[i] == s0[i]);
                }
            }
        }
    }
    assert forall|k: int, p: int| i + 1 <= k < s0.len() && #[trigger] s0[k].range.contains(p)
        implies after.storage().stored()[p] == stored0[p] by {
        assert(s_before[k] == s0[k]);
        assert(s_before[k].range.contains(p));
    }
    assert(dirty_upto(s_after, s0, contours, evidence, i) == dirty_upto(s_before, s0, contours, evidence, i)) by {
        lemma_dirty_upto_prefix(s_before, s_after, s0, contours, evidence, i);
    }
}

pub(crate) proof fn lemma_dirty_upto_prefix(
    a: Seq<CachedContour>,
    b: Seq<CachedContour>,
    s0: Seq<CachedContour>,
    contours: Seq<RecordedContour>,
    evidence: Seq<ContourEvidence>,
    n: int,
)
    requires
        0 <= n <= a.len(),
        n <= b.len(),
        forall|k: int| 0 <= k < n ==> #[trigger] a[k] == b[k],
    ensures
        dirty_upto(a, s0, contours, evidence, n) == dirty_upto(b, s0, contours, evidence, n),
    decreases n,
{
    if n > 0 {
        lemma_dirty_upto_prefix(a, b, s0, contours, evidence, n - 1);
        assert(a[n - 1] == b[n - 1]);
    }
}

/// Each upload run of a frame holds at least one point.
pub(crate) proof fn lemma_dirty_upto_len(
    new_slots: Seq<CachedContour>,
    slots: Seq<CachedContour>,
    contours: Seq<RecordedContour>,
    evidence: Seq<ContourEvidence>,
    n: int,
)
    requires
        0 <= n <= contours.len(),
        n <= new_slots.len(),
        forall|i: int| 0 <= i < n ==> #[trigger] slot_prepared(new_slots[i], slots, contours, evidence, i),
    ensures
        dirty_upto(new_slots, slots, contours, evidence, n).len() <= points_upto(contours, n),
    decreases n,
{
    if n > 0 {
        lemma_dirty_upto_len(new_slots, slots, contours, evidence, n - 1);
        assert(slot_prepared(new_slots[n - 1], slots, contours, evidence, n - 1));
    }
}

/// Storing `slot` at `index` (or appending it) keeps the slots well formed
/// when it owns allocated storage that no other slot touches.
proof fn lemma_wf_after_store(arena: PointArena, cs: Seq<CachedContour>, index: int, slot: CachedContour)
    requires
        arena.wf(),
        0 <= index <= cs.len(),
        ranges_disjoint(cs),
        forall|j: int| 0 <= j < cs.len() && j != index ==> #[trigger] cs[j].range.end() <= arena.stored().len(),
        forall|j: int, p: int| 0 <= j < cs.len() && j != index && #[trigger] cs[j].range.contains(p)
            ==> !arena.is_free(p) && !slot.range.contains(p),
        slot.range.end() <= arena.stored().len(),
        forall|p: int| slot.range.contains(p) ==> !arena.is_free(p),
    ensures
        cache_wf(arena, if index < cs.len() { cs.update(index, slot) } else { cs.push(slot) }),
{
    let cs1 = if index < cs.len() { cs.update(index, slot) } else { cs.push(slot) };
    assert forall|i: int| 0 <= i < cs1.len() implies #[trigger] cs1[i].range.end() <= arena.stored().len() by {
        if i != index {
            assert(cs1[i] == cs[i]);
        }
    }
    assert forall|i: int, j: int, p: int|
        #![trigger cs1[i].range.contains(p), cs1[j].range.contains(p)]
        0 <= i < cs1.len() && 0 <= j < cs1.len() && i != j && cs1[i].range.contains(p) implies !cs1[j].range.contains(p) by {
        if i == index {
            assert(cs1[j] == cs[j]);
            if cs[j].range.contains(p) {
                assert(!slot.range.contains(p));
            }
        } else if j == index {
            assert(cs1[i] == cs[i]);
            assert(!slot.range.contains(p));
        } else {
            assert(cs1[i] == cs[i]);
            assert(cs1[j] == cs[j]);
        }
    }
    assert forall|i: int, p: int| #![trigger cs1[i].range.contains(p)]
        0 <= i < cs1.len() && cs1[i].range.contains(p) implies !arena.is_free(p) by {
        if i != index {
            assert(cs1[i] == cs[i]);
        }
    }
}

/// Draw parameters of one contour.
#[derive(Clone, Copy, Debug, PartialEq, Eq)]
pub struct ContourDrawData {
    /// First resident point.
    pub point_offset: u32,
    /// Number of points.
    pub point_count: u32,
    /// Vertices of the triangle fan.
    pub vertex_count: u32,
    /// Paint drawn with.
    pub paint_index: u32,
    /// Bit 0: closed; bit 1: even-odd; bit 2: gradient.
    pub flags: u32,
    /// Color of the paint.
    pub argb: u32,
    /// Affine map applied to the resident points.
    pub transform: [u32; 6],
}

/// Arguments of one indirect draw.
#[derive(Clone, Copy, Debug, PartialEq, Eq, Structural)]
pub struct DrawIndirect {
    /// Vertices drawn.
    pub vertex_count: u32,
    /// Instances drawn.
    pub instance_count: u32,
    /// First vertex.
    pub first_vertex: u32,
    /// First instance, the index of the contour's draw data.
    pub first_instance: u32,
}

/// GPU record of one paint command.
#[derive(Clone, Copy, Debug, PartialEq, Eq)]
pub struct PreparedPaint {
    /// First contour.
    pub contour_start: u32,
    /// Number of contours.
    pub contour_count: u32,
    /// 1 for even-odd, 0 for nonzero.
    pub rule: u32,
    /// Color or packed operation parameters.
    pub argb: u32,
    /// 0 solid, 1 gradient, 2 begin layer, 3 end layer, 4 begin matte,
    /// 5 begin matte target, 6 end matte, 7 mask.
    pub paint_kind: u32,
    /// 0 linear, 1 radial, 2 focal.
    pub gradient_kind: u32,
    /// First word of the gradient's lookup table.
    pub lut_word_offset: u32,
    /// Inverse transform `[a, b, c, d]`.
    pub inverse0: [u32; 4],
    /// Inverse transform `[tx, ty, 0, 0]`.
    pub inverse1: [u32; 4],
    /// Gradient parameters.
    pub params0: [u32; 4],
    /// More gradient parameters.
    pub params1: [u32; 4],
    /// Bounds of the paint's contours.
    pub bounds: [u32; 4],
}

/// Bit pattern of an unbounded paint region `[-inf, -inf, inf, inf]`.
pub open spec fn unbounded() -> [u32; 4] {
    [0xff80_0000u32, 0xff80_0000u32, 0x7f80_0000u32, 0x7f80_0000u32]
}

/// Paint kind of an operation.
pub open spec fn op_paint_kind(op: RecordedOp) -> u32 {
    match op {
        RecordedOp::Solid(_) => 0,
        RecordedOp::Gradient(_) => 1,
        RecordedOp::BeginLayer => 2,
        RecordedOp::EndLayer { .. } => 3,
        RecordedOp::BeginMatte => 4,
        RecordedOp::BeginMatteTarget => 5,
        RecordedOp::EndMatte { .. } => 6,
        RecordedOp::Mask { .. } => 7,
    }
}

/// Whether an operation fills with the even-odd rule.
pub open spec fn op_even_odd(op: RecordedOp) -> bool {
    match op {
        RecordedOp::Solid(solid) => solid.rule == Rule::EvenOdd,
        RecordedOp::Gradient(gradient) => gradient.rule == Rule::EvenOdd,
        _ => false,
    }
}

/// Color word of an operation: the solid color, or packed parameters of the
/// layer, matte and mask operations.
pub open spec fn op_argb(op: RecordedOp) -> u32 {
    match op {
        RecordedOp::Solid(solid) => solid.rgba,
        RecordedOp::EndLayer { opacity } => (opacity * 0x100_0000) as u32,
        RecordedOp::EndMatte { kind, opacity, source_opacity } => (opacity * 0x100_0000 + source_opacity * 0x100 + kind) as u32,
        RecordedOp::Mask { mode, inverted, opacity, first, last } => (mode + (if inverted { 0x100int } else { 0 })
            + (if first { 0x200int } else { 0 }) + (if last { 0x400int } else { 0 }) + opacity * 0x100_0000) as u32,
        _ => 0,
    }
}

/// The GPU record of command `command`, given its lookup-table offset and
/// the bounds of its contours.
pub open spec fn prepared_paint(command: RecordedCommand, lut_word_offset: u32, bounds: [u32; 4]) -> PreparedPaint {
    let op = command.op;
    let base = PreparedPaint {
        contour_start: command.start as u32,
        contour_count: (if command.end >= command.start { command.end - command.start } else { 0 }) as u32,
        rule: if op_even_odd(op) { 1 } else { 0 },
        argb: op_argb(op),
        paint_kind: op_paint_kind(op),
        gradient_kind: 0,
        lut_word_offset: 0,
        inverse0: [0u32, 0u32, 0u32, 0u32],
        inverse1: [0u32, 0u32, 0u32, 0u32],
        params0: [0u32, 0u32, 0u32, 0u32],
        params1: [0u32, 0u32, 0u32, 0u32],
        bounds: if op_paint_kind(op) < 2 { bounds } else { unbounded() },
    };
    match op {
        RecordedOp::Gradient(g) => {
            let t = g.transform;
            let with_transform = PreparedPaint {
                lut_word_offset,
                inverse0: [t.a, t.b, t.c, t.d],
                inverse1: [t.tx, t.ty, 0u32, 0u32],
                ..base
            };
            match g.kind {
                GradientKind::Linear { sx, sy, dx, dy, inv_len_sq } => PreparedPaint {
                    params0: [sx, sy, dx, dy],
                    params1: [inv_len_sq, 0u32, 0u32, 0u32],
                    ..with_transform
                },
                GradientKind::Radial { sx, sy, inv_r } => PreparedPaint {
                    gradient_kind: 1,
                    params0: [sx, sy, inv_r, 0u32],
                    ..with_transform
                },
                GradientKind::Focal { fx, fy, dx, dy, a, r } => PreparedPaint {
                    gradient_kind: 2,
                    params0: [fx, fy, dx, dy],
                    params1: [a, r, 0u32, 0u32],
                    ..with_transform
                },
            }
        },
        _ => base,
    }
}

/// Draw of slot `slot` for paint `paint_index` with flags and color.
pub open spec fn contour_draw(slot: CachedContour, paint_index: u32, even_odd: bool, gradient: bool, argb: u32) -> ContourDrawData {
    ContourDrawData {
        point_offset: slot.range.first,
        point_count: slot.range.count,
        vertex_count: ((slot.range.count - 2) * 3) as u32,
        paint_index,
        flags: ((if slot.closed { 1int } else { 0 }) + (if even_odd { 2int } else { 0 }) + (if gradient { 4int } else { 0 })) as u32,
        argb,
        transform: slot.transform,
    }
}

/// Draws of the slots `from..to` of one command: slots that exist and have
/// at least three points.
pub open spec fn span_draws(
    slots: Seq<CachedContour>,
    from: int,
    to: int,
    paint_index: u32,
    even_odd: bool,
    gradient: bool,
    argb: u32,
) -> Seq<ContourDrawData>
    decreases to - from,
{
    if to <= from {
        Seq::empty()
    } else {
        let rest = span_draws(slots, from, to - 1, paint_index, even_odd, gradient, argb);
        if to - 1 < slots.len() && slots[to - 1].range.count >= 3 {
            rest.push(contour_draw(slots[to - 1], paint_index, even_odd, gradient, argb))
        } else {
            rest
        }
    }
}

/// Draws of the first `n` commands.
pub open spec fn draws_upto(slots: Seq<CachedContour>, commands: Seq<RecordedCommand>, n: int) -> Seq<ContourDrawData>
    decreases n,
{
    if n <= 0 {
        Seq::empty()
    } else {
        let c = commands[n - 1];
        draws_upto(slots, commands, n - 1) + span_draws(
            slots,
            c.start as int,
            c.end as int,
            (n - 1) as u32,
            op_even_odd(c.op),
            op_paint_kind(c.op) == 1,
            op_argb(c.op),
        )
    }
}

/// Indirect triangle draws of `draws`, one per draw, in order.
pub open spec fn triangle_commands(draws: Seq<ContourDrawData>) -> Seq<DrawIndirect> {
    Seq::new(draws.len(), |j: int| DrawIndirect { vertex_count: draws[j].vertex_count, instance_count: 1, first_vertex: 0, first_instance: j as u32 })
}

/// Indirect fan draws of `draws`, one per draw, in order.
pub open spec fn fan_commands(draws: Seq<ContourDrawData>) -> Seq<DrawIndirect> {
    Seq::new(draws.len(), |j: int| DrawIndirect { vertex_count: draws[j].point_count, instance_count: 1, first_vertex: 0, first_instance: j as u32 })
}

/// Number of draws in `draws` that are gradient (or solid) fills, clamped.
pub open spec fn count_draws(draws: Seq<ContourDrawData>, gradient: bool, start: u32) -> u32
    decreases draws.len(),
{
    if draws.len() == 0 {
        start
    } else {
        let prev = count_draws(draws.drop_last(), gradient, start);
        if (draws.last().flags >= 4) == gradient { sat_add(prev, 1) } else { prev }
    }
}

/// Geometry and paints prepared for one frame.
pub struct PreparedGeometry {
    /// Point runs to upload.
    pub dirty: Vec<DirtyRange>,
    /// Per-contour draw data.
    pub draw_data: Vec<ContourDrawData>,
    /// Per-command paint records.
    pub paints: Vec<PreparedPaint>,
    /// Deduplicated gradient lookup tables.
    pub gradient_luts: Vec<u32>,
    /// Indirect triangle draws.
    pub indirect: Vec<DrawIndirect>,
    /// Indirect fan draws.
    pub fan_indirect: Vec<DrawIndirect>,
    /// Statistics.
    pub stats: CacheStats,
}

fn pack_op_argb(op: &RecordedOp) -> (argb: u32)
    ensures
        argb == op_argb(*op),
{
    match op {
        RecordedOp::Solid(solid) => solid.rgba,
        RecordedOp::EndLayer { opacity } => {
            let o = *opacity;
            let v = (o as u32) << 24u32;
            assert(v == o * 0x100_0000) by (bit_vector)
                requires v == (o as u32) << 24u32;
            v
        },
        RecordedOp::EndMatte { kind, opacity, source_opacity } => {
            let (k, o, so) = (*kind, *opacity, *source_opacity);
            let v = ((o as u32) << 24u32) | ((so as u32) << 8u32) | (k as u32);
            assert(v == o * 0x100_0000 + so * 0x100 + k) by (bit_vector)
                requires v == ((o as u32) << 24u32) | ((so as u32) << 8u32) | (k as u32);
            v
        },
        RecordedOp::Mask { mode, inverted, opacity, first, last } => {
            let m = *mode;
            let o = *opacity;
            let i: u32 = if *inverted { 1 } else { 0 };
            let f: u32 = if *first { 1 } else { 0 };
            let l: u32 = if *last { 1 } else { 0 };
            let v = (m as u32) | (i << 8u32) | (f << 9u32) | (l << 10u32) | ((o as u32) << 24u32);
            assert(v == m + i * 0x100 + f * 0x200 + l * 0x400 + o * 0x100_0000) by (bit_vector)
                requires
                    v == (m as u32) | (i << 8u32) | (f << 9u32) | (l << 10u32) | ((o as u32) << 24u32),
                    i <= 1,
                    f <= 1,
                    l <= 1;
            v
        },
        _ => 0,
    }
}

pub(crate) fn paint_header(command: &RecordedCommand, lut_word_offset: u32, bounds: [u32; 4]) -> (res: Result<PreparedPaint, Error>)
    ensures
        res is Ok <==> command.start <= u32::MAX && (if command.end >= command.start { command.end - command.start } else { 0int }) <= u32::MAX,
        res is Err ==> res == Err::<PreparedPaint, Error>(Error::FrameTooLarge),
        res matches Ok(p) ==> p == prepared_paint(*command, lut_word_offset, bounds),
{
    if command.start > 0xffff_ffffusize {
        return Err(Error::FrameTooLarge);
    }
    let span = if command.end >= command.start { command.end - command.start } else { 0 };
    if span > 0xffff_ffffusize {
        return Err(Error::FrameTooLarge);
    }
    let even_odd = match &command.op {
        RecordedOp::Solid(solid) => solid.rule == Rule::EvenOdd,
        RecordedOp::Gradient(gradient) => gradient.rule == Rule::EvenOdd,
        _ => false,
    };
    let kind: u32 = match &command.op {
        RecordedOp::Solid(_) => 0,
        RecordedOp::Gradient(_) => 1,
        RecordedOp::BeginLayer => 2,
        RecordedOp::EndLayer { .. } => 3,
        RecordedOp::BeginMatte => 4,
        RecordedOp::BeginMatteTarget => 5,
        RecordedOp::EndMatte { .. } => 6,
        RecordedOp::Mask { .. } => 7,
    };
    let base = PreparedPaint {
        contour_start: command.start as u32,
        contour_count: span as u32,
        rule: if even_odd { 1 } else { 0 },
        argb: pack_op_argb(&command.op),
        paint_kind: kind,
        gradient_kind: 0,
        lut_word_offset: 0,
        inverse0: [0u32, 0u32, 0u32, 0u32],
        inverse1: [0u32, 0u32, 0u32, 0u32],
        params0: [0u32, 0u32, 0u32, 0u32],
        params1: [0u32, 0u32, 0u32, 0u32],
        bounds: if kind < 2 { bounds } else { [0xff80_0000u32, 0xff80_0000u32, 0x7f80_0000u32, 0x7f80_0000u32] },
    };
    match &command.op {
        RecordedOp::Gradient(g) => {
            let t = g.transform;
            let with_transform = PreparedPaint {
                lut_word_offset,
                inverse0: [t.a, t.b, t.c, t.d],
                inverse1: [t.tx, t.ty, 0u32, 0u32],
                ..base
            };
            match g.kind {
                GradientKind::Linear { sx, sy, dx, dy, inv_len_sq } => Ok(PreparedPaint {
                    params0: [sx, sy, dx, dy],
                    params1: [inv_len_sq, 0u32, 0u32, 0u32],
                    ..with_transform
                }),
                GradientKind::Radial { sx, sy, inv_r } => Ok(PreparedPaint {
                    gradient_kind: 1,
                    params0: [sx, sy, inv_r, 0u32],
                    ..with_transform
                }),
                GradientKind::Focal { fx, fy, dx, dy, a, r } => Ok(PreparedPaint {
                    gradient_kind: 2,
                    params0: [fx, fy, dx, dy],
                    params1: [a, r, 0u32, 0u32],
                    ..with_transform
                }),
            }
        },
        _ => Ok(base),
    }
}

/// Marking two runs that follow each other records the same as marking
/// their union at once: adjacent runs coalesce, whatever was recorded
/// before, as long as the coalesced run's count does not saturate.
pub proof fn law_adjacent_dirty_runs_coalesce(dirty: Seq<DirtyRange>, first: PointRange, second: PointRange)
    requires
        first.count > 0,
        second.count > 0,
        second.first == first.end(),
        first.count + second.count <= u32::MAX,
        dirty.len() > 0 ==> dirty.last().point_count + first.count + second.count <= u32::MAX,
    ensures
        pushed_dirty(pushed_dirty(dirty, first), second) == pushed_dirty(
            dirty,
            PointRange { first: first.first, count: (first.count + second.count) as u32 },
        ),
{
    let once = pushed_dirty(dirty, first);
    assert(once.len() > 0);
    assert(once.last().first_point + once.last().point_count == second.first);
}

/// The upload runs recorded by marking `ranges` dirty, in order, starting
/// from no runs.
pub open spec fn dirty_of(ranges: Seq<PointRange>) -> Seq<DirtyRange>
    decreases ranges.len(),
{
    if ranges.len() == 0 {
        Seq::empty()
    } else {
        pushed_dirty(dirty_of(ranges.drop_last()), ranges.last())
    }
}

/// Some run of `d` includes point `p`.
pub open spec fn dirty_covers(d: Seq<DirtyRange>, p: int) -> bool {
    exists|j: int| 0 <= j < d.len() && #[trigger] run_covers(d[j], p)
}

/// Some range of `ranges` includes point `p`.
pub open spec fn ranges_cover(ranges: Seq<PointRange>, p: int) -> bool {
    exists|i: int| 0 <= i < ranges.len() && #[trigger] ranges[i].contains(p)
}

/// Whether run `d` includes point `p`.
pub open spec fn run_covers(d: DirtyRange, p: int) -> bool {
    d.first_point <= p < d.first_point + d.point_count
}

/// Points in the runs, summed.
pub open spec fn run_points(d: Seq<DirtyRange>) -> int
    decreases d.len(),
{
    if d.len() == 0 {
        0
    } else {
        run_points(d.drop_last()) + d.last().point_count
    }
}

/// Points in the ranges, summed.
pub open spec fn range_points(ranges: Seq<PointRange>) -> int
    decreases ranges.len(),
{
    if ranges.len() == 0 {
        0
    } else {
        range_points(ranges.drop_last()) + ranges.last().count
    }
}

proof fn lemma_last_run_bounded(d: Seq<DirtyRange>)
    requires
        d.len() > 0,
    ensures
        d.last().point_count <= run_points(d),
{
    lemma_run_points_nonneg(d.drop_last());
}

proof fn lemma_run_points_nonneg(d: Seq<DirtyRange>)
    ensures
        run_points(d) >= 0,
    decreases d.len(),
{
    if d.len() > 0 {
        lemma_run_points_nonneg(d.drop_last());
    }
}

proof fn lemma_range_points_nonneg(r: Seq<PointRange>)
    ensures
        range_points(r) >= 0,
    decreases r.len(),
{
    if r.len() > 0 {
        lemma_range_points_nonneg(r.drop_last());
    }
}

/// Any sequence of dirty marks records its points exactly: the runs cover
/// precisely the points of the marked ranges and hold as many points as
/// were marked, no run is empty, and no run ends where the next one starts
/// (such runs are always merged). This holds as long as the marked ranges
/// and their total count stay within 32 bits.
pub proof fn law_dirty_runs_record_marks(ranges: Seq<PointRange>)
    requires
        forall|i: int| 0 <= i < ranges.len() ==> (#[trigger] ranges[i]).first + ranges[i].count <= u32::MAX,
        range_points(ranges) <= u32::MAX,
    ensures
        ({
            let d = dirty_of(ranges);
            &&& forall|p: int| #![trigger dirty_covers(d, p)] #![trigger ranges_cover(ranges, p)]
                dirty_covers(d, p) <==> ranges_cover(ranges, p)
            &&& run_points(d) == range_points(ranges)
            &&& forall|j: int| 0 <= j < d.len() ==> (#[trigger] d[j]).point_count > 0
            &&& forall|j: int| 0 <= j < d.len() - 1 ==> #[trigger] d[j].first_point + d[j].point_count != d[j + 1].first_point
        }),
    decreases ranges.len(),
{
    if ranges.len() == 0 {
        return;
    }
    let prev = ranges.drop_last();
    let r = ranges.last();
    let last = ranges.len() - 1;
    lemma_range_points_nonneg(prev);
    assert forall|i: int| 0 <= i < prev.len() implies (#[trigger] prev[i]).first + prev[i].count <= u32::MAX by {
        assert(prev[i] == ranges[i]);
    }
    law_dirty_runs_record_marks(prev);
    let d0 = dirty_of(prev);
    let d = dirty_of(ranges);
    assert(d == pushed_dirty(d0, r));
    assert forall|i: int| 0 <= i < prev.len() implies #[trigger] prev[i] == ranges[i] by {}
    // A point is in some marked range iff it is in an earlier one or in `r`.
    assert forall|p: int| #[trigger] ranges_cover(ranges, p) <==> ranges_cover(prev, p) || r.contains(p) by {
        if ranges_cover(ranges, p) {
            let i = choose|i: int| 0 <= i < ranges.len() && #[trigger] ranges[i].contains(p);
            if i < prev.len() {
                assert(prev[i].contains(p));
            }
        }
        if ranges_cover(prev, p) {
            let i = choose|i: int| 0 <= i < prev.len() && #[trigger] prev[i].contains(p);
            assert(ranges[i].contains(p));
        }
        if r.contains(p) {
            assert(ranges[last].contains(p));
        }
    }
    if r.count == 0 {
        assert(d == d0);
        assert forall|p: int| #![trigger dirty_covers(d, p)] dirty_covers(d, p) <==> ranges_cover(ranges, p) by {
            assert(ranges_cover(ranges, p) <==> ranges_cover(prev, p) || r.contains(p));
            assert(dirty_covers(d0, p) <==> ranges_cover(prev, p));
        }
    } else if d0.len() > 0 && d0.last().first_point + d0.last().point_count == r.first {
        let k = d0.len() - 1;
        lemma_last_run_bounded(d0);
        let merged = DirtyRange { first_point: d0.last().first_point, point_count: (d0.last().point_count + r.count) as u32 };
        assert(d == d0.update(k, merged));
        assert(d.drop_last() =~= d0.drop_last());
        assert(d0.drop_last().len() == k);
        assert forall|p: int| #![trigger dirty_covers(d, p)] dirty_covers(d, p) <==> ranges_cover(ranges, p) by {
            assert(ranges_cover(ranges, p) <==> ranges_cover(prev, p) || r.contains(p));
            assert(dirty_covers(d0, p) <==> ranges_cover(prev, p));
            if dirty_covers(d0, p) {
                let j = choose|j: int| 0 <= j < d0.len() && #[trigger] run_covers(d0[j], p);
                if j == k {
                    assert(run_covers(d[k], p));
                } else {
                    assert(d[j] == d0[j]);
                    assert(run_covers(d[j], p));
                }
            }
            if r.contains(p) {
                assert(run_covers(d[k], p));
            }
            if dirty_covers(d, p) {
                let j = choose|j: int| 0 <= j < d.len() && #[trigger] run_covers(d[j], p);
                if j == k {
                    if !run_covers(d0[k], p) {
                        assert(r.contains(p));
                    }
                } else {
                    assert(d[j] == d0[j]);
                    assert(run_covers(d0[j], p));
                }
            }
        }
        assert forall|j: int| 0 <= j < d.len() - 1 implies #[trigger] d[j].first_point + d[j].point_count != d[j + 1].first_point by {
            assert(d[j] == d0[j]);
            assert(d[j + 1].first_point == d0[j + 1].first_point);
        }
    } else {
        let added = DirtyRange { first_point: r.first, point_count: r.count };
        assert(d == d0.push(added));
        assert(d.drop_last() =~= d0);
        let k = d0.len() as int;
        assert forall|p: int| #![trigger dirty_covers(d, p)] dirty_covers(d, p) <==> ranges_cover(ranges, p) by {
            assert(ranges_cover(ranges, p) <==> ranges_cover(prev, p) || r.contains(p));
            assert(dirty_covers(d0, p) <==> ranges_cover(prev, p));
            if dirty_covers(d0, p) {
                let j = choose|j: int| 0 <= j < d0.len() && #[trigger] run_covers(d0[j], p);
                assert(d[j] == d0[j]);
                assert(run_covers(d[j], p));
            }
            if r.contains(p) {
                assert(run_covers(d[k], p));
            }
            if dirty_covers(d, p) {
                let j = choose|j: int| 0 <= j < d.len() && #[trigger] run_covers(d[j], p);
                if j < k {
                    assert(d[j] == d0[j]);
                    assert(run_covers(d0[j], p));
                }
            }
        }
        assert forall|j: int| 0 <= j < d.len() - 1 implies #[trigger] d[j].first_point + d[j].point_count != d[j + 1].first_point by {
            assert(d[j] == d0[j]);
            if j + 1 < d0.len() {
                assert(d[j + 1] == d0[j + 1]);
            }
        }
    }
}

} // verus!
