//! Placement of the scene sections in the shared storage buffer.

use vstd::prelude::*;
use crate::error::Error;

verus! {

broadcast use vstd::array::group_array_axioms;

/// Number of scene sections.
pub const SCENE_SECTION_COUNT: usize = 8;
/// Section of packed point coordinates.
pub const POINT_SECTION: usize = 0;
/// Section of contour records.
pub const CONTOUR_SECTION: usize = 1;
/// Section of paint records.
pub const PAINT_SECTION: usize = 2;
/// Section of gradient lookup tables.
pub const LUT_SECTION: usize = 3;
/// Section of tile records.
pub const TILE_SECTION: usize = 4;
/// Section of per-tile paint indices.
pub const TILE_INDEX_SECTION: usize = 5;
/// Section of edge-bin records.
pub const EDGE_BIN_SECTION: usize = 6;
/// Section of binned edges.
pub const EDGE_SECTION: usize = 7;

/// The smallest power of two that is at least `n`, searching upward from `c`.
pub open spec fn pow2_at_least(n: int, c: int) -> int
    decreases (if 1 <= c < n { n - c } else { 0 }),
{
    if c < 1 || c >= n {
        c
    } else {
        pow2_at_least(n, 2 * c)
    }
}

/// Capacity reserved for a section needing `needed` words: the smallest
/// power of two that is at least `needed` and at least one.
pub open spec fn section_capacity(needed: int) -> int {
    pow2_at_least(if needed < 1 { 1 } else { needed }, 1)
}

/// `c` is a power of two.
pub open spec fn is_pow2(c: int) -> bool {
    exists|k: nat| vstd::arithmetic::power2::pow2(k) == c
}

proof fn lemma_pow2_at_least(n: int, c: int, k: nat)
    requires
        1 <= c,
        c == vstd::arithmetic::power2::pow2(k),
        c == 1 || c < 2 * n,
    ensures
        pow2_at_least(n, c) >= n,
        pow2_at_least(n, c) >= c,
        pow2_at_least(n, c) == 1 || pow2_at_least(n, c) < 2 * n,
        is_pow2(pow2_at_least(n, c)),
    decreases (if c < n { n - c } else { 0 }),
{
    if c < n {
        vstd::arithmetic::power2::lemma_pow2_unfold(k + 1);
        lemma_pow2_at_least(n, 2 * c, k + 1);
    }
}

/// Capacity of a scene section: `needed` rounded up to a power of two, at
/// least one word.
pub fn scene_section_capacity(needed: u32) -> (res: Result<u32, Error>)
    ensures
        needed <= 0x8000_0000 ==> res == Ok::<u32, Error>(section_capacity(needed as int) as u32),
        needed > 0x8000_0000 ==> res == Err::<u32, Error>(Error::FrameTooLarge),
        res matches Ok(c) ==> c == section_capacity(needed as int) && c >= needed && c >= 1 && (c == 1 || c < 2 * needed) && is_pow2(c as int),
{
    if needed > 0x8000_0000u32 {
        return Err(Error::FrameTooLarge);
    }
    let n: u32 = if needed < 1 { 1 } else { needed };
    let mut c: u32 = 1;
    let ghost mut k: nat = 0;
    proof {
        vstd::arithmetic::power2::lemma2_to64();
    }
    while c < n
        invariant
            1 <= n <= 0x8000_0000,
            1 <= c,
            c == vstd::arithmetic::power2::pow2(k),
            pow2_at_least(n as int, c as int) == pow2_at_least(n as int, 1),
            c == 1 || c < 2 * n,
        decreases 0x1_0000_0000 - c,
    {
        proof {
            vstd::arithmetic::power2::lemma_pow2_unfold(k + 1);
        }
        c = c * 2;
        proof {
            k = k + 1;
        }
    }
    proof {
        lemma_pow2_at_least(n as int, c as int, k);
    }
    Ok(c)
}

/// Sum of the first `i` values of `s`.
pub open spec fn prefix_sum(s: Seq<int>, i: int) -> int
    decreases i,
{
    if i <= 0 {
        0
    } else {
        prefix_sum(s, i - 1) + s[i - 1]
    }
}

/// Capacities reserved for sections of the given lengths.
pub open spec fn capacities_for(lengths: Seq<usize>) -> Seq<int> {
    lengths.map(|_i: int, n: usize| section_capacity(n as int))
}

/// Word placement of the output image and the scene sections in the shared
/// storage buffer.
#[derive(Clone, Copy, Debug, PartialEq, Eq)]
pub struct SceneLayout {
    /// Words of the output image at the start of the buffer.
    pub output_words: u32,
    /// First word of each section.
    pub offsets: [u32; 8],
    /// Words reserved for each section.
    pub capacities: [u32; 8],
    /// Total words spanned by the layout.
    pub total_words: u32,
}

impl SceneLayout {
    /// The empty layout.
    pub fn default() -> (layout: Self)
        ensures
            layout.output_words == 0,
            layout.total_words == 0,
            forall|i: int| 0 <= i < 8 ==> layout.offsets@[i] == 0 && layout.capacities@[i] == 0,
    {
        SceneLayout { output_words: 0, offsets: [0u32; 8], capacities: [0u32; 8], total_words: 0 }
    }

    /// The current layout cannot hold sections of these lengths after
    /// `output_words` output words.
    pub open spec fn needs_rebuild(self, output_words: u32, lengths: Seq<usize>) -> bool {
        ||| self.total_words == 0
        ||| self.output_words != output_words
        ||| exists|i: int| 0 <= i < 8 && lengths[i] > #[trigger] self.capacities@[i]
    }

    /// A fresh layout for these lengths fits in 32-bit word offsets.
    pub open spec fn rebuild_fits(output_words: u32, lengths: Seq<usize>) -> bool {
        &&& forall|i: int| 0 <= i < 8 ==> #[trigger] lengths[i] <= 0x8000_0000
        &&& output_words + prefix_sum(capacities_for(lengths), 8) <= u32::MAX
    }

    /// Section `i` is placed as a fresh layout for `lengths` places it.
    pub open spec fn section_rebuilt(self, output_words: u32, lengths: Seq<usize>, i: int) -> bool {
        &&& self.offsets@[i] == output_words + prefix_sum(capacities_for(lengths), i)
        &&& self.capacities@[i] == capacities_for(lengths)[i]
    }

    /// Sections before `j` are placed as a fresh layout places them; the
    /// others are as in `previous`.
    pub open spec fn rebuilt_before(self, previous: Self, output_words: u32, lengths: Seq<usize>, j: int) -> bool {
        &&& 0 <= j <= 8
        &&& forall|i: int| 0 <= i < j ==> #[trigger] self.section_rebuilt(output_words, lengths, i)
        &&& forall|i: int| j <= i < 8 ==> #[trigger] self.section_kept(previous, i)
    }

    /// Capacities of the sections, in order.
    pub open spec fn capacity_seq(self) -> Seq<int> {
        Seq::new(8, |i: int| self.capacities@[i] as int)
    }

    /// The sections sit back to back after the output words, in order, each
    /// with a power-of-two capacity, and the layout ends after the last one.
    pub open spec fn packed(self) -> bool {
        &&& forall|i: int| 0 <= i < 8 ==> is_pow2(#[trigger] self.capacities@[i] as int)
        &&& forall|i: int| 0 <= i < 8 ==> #[trigger] self.offsets@[i] == self.output_words + prefix_sum(self.capacity_seq(), i)
        &&& self.total_words == self.output_words + prefix_sum(self.capacity_seq(), 8)
    }

    /// Section `i` is placed as in `previous`.
    pub open spec fn section_kept(self, previous: Self, i: int) -> bool {
        self.offsets@[i] == previous.offsets@[i] && self.capacities@[i] == previous.capacities@[i]
    }

    /// `after` is what ensuring room for sections of `lengths` after
    /// `output_words` output words makes of `before`, and `ok` whether it
    /// succeeded: a length over 32 bits fails and changes nothing; a layout
    /// that still holds every section after the same output is kept; else a
    /// fresh layout is packed, which fails, half done, when it does not fit
    /// in 32-bit word offsets.
    pub open spec fn ensured(before: Self, output_words: u32, lengths: Seq<usize>, ok: bool, after: Self) -> bool {
        if exists|i: int| 0 <= i < 8 && #[trigger] lengths[i] > u32::MAX {
            !ok && after == before
        } else if !before.needs_rebuild(output_words, lengths) {
            ok && after == before
        } else if SceneLayout::rebuild_fits(output_words, lengths) {
            &&& ok
            &&& after.output_words == output_words
            &&& after.total_words == output_words + prefix_sum(capacities_for(lengths), 8)
            &&& forall|i: int| 0 <= i < 8 ==> #[trigger] after.section_rebuilt(output_words, lengths, i)
        } else {
            &&& !ok
            &&& after.output_words == before.output_words
            &&& after.total_words == before.total_words
            &&& exists|j: int| #[trigger] after.rebuilt_before(before, output_words, lengths, j)
        }
    }

    /// Reuses the layout while every section fits its capacity and the output
    /// size is unchanged; otherwise packs power-of-two capacities after the
    /// output words, in section order.
    pub fn ensure(&mut self, output_words: u32, lengths: [usize; 8]) -> (res: Result<(), Error>)
        ensures
            SceneLayout::ensured(*old(self), output_words, lengths@, res is Ok, *final(self)),
            res is Err ==> res == Err::<(), Error>(Error::FrameTooLarge),
    {
        let mut required = [0u32; 8];
        let mut i: usize = 0;
        while i < 8
            invariant
                0 <= i <= 8,
                *self == *old(self),
                forall|k: int| 0 <= k < i ==> #[trigger] required@[k] == lengths@[k],
                forall|k: int| 0 <= k < i ==> #[trigger] lengths@[k] <= u32::MAX,
            decreases 8 - i,
        {
            if lengths[i] > 0xffff_ffffusize {
                return Err(Error::FrameTooLarge);
            }
            required[i] = lengths[i] as u32;
            i = i + 1;
        }
        let mut rebuild = self.total_words == 0 || self.output_words != output_words;
        let mut i: usize = 0;
        while i < 8
            invariant
                0 <= i <= 8,
                *self == *old(self),
                forall|k: int| 0 <= k < 8 ==> #[trigger] required@[k] == lengths@[k],
                forall|k: int| 0 <= k < 8 ==> #[trigger] lengths@[k] <= u32::MAX,
                rebuild == (self.total_words == 0 || self.output_words != output_words
                    || exists|k: int| 0 <= k < i && lengths@[k] > #[trigger] self.capacities@[k]),
            decreases 8 - i,
        {
            if required[i] > self.capacities[i] {
                rebuild = true;
            }
            i = i + 1;
        }
        if !rebuild {
            return Ok(());
        }
        let ghost caps = capacities_for(lengths@);
        proof {
            assert(caps.len() == 8);
            assert forall|k: int| 0 <= k < 8 implies #[trigger] caps[k] >= 1 by {
                let n = if lengths@[k] < 1 { 1int } else { lengths@[k] as int };
                vstd::arithmetic::power2::lemma2_to64();
                lemma_pow2_at_least(n, 1, 0);
            }
        }
        let ghost orig = *self;
        let mut offsets = self.offsets;
        let mut capacities = self.capacities;
        let mut cursor: u32 = output_words;
        let mut index: usize = 0;
        while index < 8
            invariant
                0 <= index <= 8,
                forall|k: int| 0 <= k < 8 ==> #[trigger] required@[k] == lengths@[k],
                caps == capacities_for(lengths@),
                forall|k: int| 0 <= k < 8 ==> #[trigger] lengths@[k] <= u32::MAX,
                orig == *old(self),
                *self == orig,
                orig.needs_rebuild(output_words, lengths@),
                caps.len() == 8,
                forall|k: int| 0 <= k < 8 ==> #[trigger] caps[k] >= 1,
                cursor == output_words + prefix_sum(caps, index as int),
                forall|k: int| 0 <= k < index ==> #[trigger] lengths@[k] <= 0x8000_0000,
                (SceneLayout { offsets, capacities, ..orig }).rebuilt_before(orig, output_words, lengths@, index as int),
            decreases 8 - index,
        {
            let capacity = match scene_section_capacity(required[index]) {
                Ok(c) => c,
                Err(e) => {
                    self.offsets = offsets;
                    self.capacities = capacities;
                    return Err(e);
                },
            };
            let ghost before = SceneLayout { offsets, capacities, ..orig };
            offsets[index] = cursor;
            capacities[index] = capacity;
            let ghost after = SceneLayout { offsets, capacities, ..orig };
            assert(after.offsets@ == before.offsets@.update(index as int, cursor));
            assert(after.capacities@ == before.capacities@.update(index as int, capacity));
            assert(capacity == section_capacity(required@[index as int] as int));
            assert(caps[index as int] == section_capacity(lengths@[index as int] as int));
            assert forall|k: int| 0 <= k < index + 1 implies #[trigger] after.section_rebuilt(output_words, lengths@, k) by {
                if k < index {
                    assert(before.section_rebuilt(output_words, lengths@, k));
                }
            }
            let ghost j: int = index as int + 1;
            assert forall|i: int| j <= i < 8 implies #[trigger] after.section_kept(orig, i) by {
                assert(before.section_kept(orig, i));
            }
            assert(after.rebuilt_before(orig, output_words, lengths@, j));
            if cursor > u32::MAX - capacity {
                proof {
                    lemma_prefix_sum_grows(caps, index as int + 1, 8);
                }
                self.offsets = offsets;
                self.capacities = capacities;
                return Err(Error::FrameTooLarge);
            }
            cursor = cursor + capacity;
            index = index + 1;
        }
        let ghost fin = SceneLayout { offsets, capacities, ..orig };
        self.offsets = offsets;
        self.capacities = capacities;
        self.output_words = output_words;
        self.total_words = cursor;
        assert forall|i: int| 0 <= i < 8 implies #[trigger] self.section_rebuilt(output_words, lengths@, i) by {
            assert(fin.section_rebuilt(output_words, lengths@, i));
        }
        Ok(())
    }

    /// First word of section `section`.
    pub fn offset(&self, section: usize) -> (res: Result<u32, Error>)
        ensures
            section < 8 ==> res == Ok::<u32, Error>(self.offsets@[section as int]),
            section >= 8 ==> res == Err::<u32, Error>(Error::FrameTooLarge),
    {
        if section < 8 {
            Ok(self.offsets[section])
        } else {
            Err(Error::FrameTooLarge)
        }
    }
}

proof fn lemma_capacity_holds(n: int)
    requires
        0 <= n,
    ensures
        section_capacity(n) >= n,
        section_capacity(n) >= 1,
        is_pow2(section_capacity(n)),
{
    let m = if n < 1 { 1int } else { n };
    vstd::arithmetic::power2::lemma2_to64();
    lemma_pow2_at_least(m, 1, 0);
}

/// A layout made to hold sections of some lengths keeps holding sections
/// no longer than those after the same output: ensuring room for them again
/// succeeds and changes nothing.
pub proof fn law_layout_kept_while_sections_fit(
    before: SceneLayout,
    output_words: u32,
    lengths: Seq<usize>,
    after: SceneLayout,
    smaller: Seq<usize>,
    ok: bool,
    again: SceneLayout,
)
    requires
        lengths.len() == 8,
        smaller.len() == 8,
        SceneLayout::ensured(before, output_words, lengths, true, after),
        forall|i: int| 0 <= i < 8 ==> #[trigger] smaller[i] <= lengths[i],
        SceneLayout::ensured(after, output_words, smaller, ok, again),
    ensures
        ok,
        again == after,
{
    assert forall|i: int| 0 <= i < 8 implies #[trigger] lengths[i] <= after.capacities@[i] by {
        if before.needs_rebuild(output_words, lengths) {
            assert(after.section_rebuilt(output_words, lengths, i));
            lemma_capacity_holds(lengths[i] as int);
        } else {
            assert(!(lengths[i] > before.capacities@[i]));
        }
    }
    if before.needs_rebuild(output_words, lengths) {
        let caps = capacities_for(lengths);
        assert forall|k: int| 0 <= k < 8 implies #[trigger] caps[k] >= 0 by {
            lemma_capacity_holds(lengths[k] as int);
        }
        lemma_prefix_sum_grows(caps, 0, 8);
        assert(after.section_rebuilt(output_words, lengths, 0));
        lemma_capacity_holds(lengths[0] as int);
        lemma_prefix_sum_grows(caps, 1, 8);
        assert(prefix_sum(caps, 1) == caps[0]);
    }
    assert(after.total_words != 0);
    assert forall|i: int| 0 <= i < 8 implies !(#[trigger] smaller[i] > u32::MAX) by {
        assert(smaller[i] <= lengths[i]);
    }
    assert(!after.needs_rebuild(output_words, smaller)) by {
        assert forall|i: int| 0 <= i < 8 implies !(smaller[i] > #[trigger] after.capacities@[i]) by {
            assert(smaller[i] <= lengths[i]);
        }
    }
}

proof fn lemma_prefix_sum_grows(s: Seq<int>, i: int, j: int)
    requires
        0 <= i <= j <= s.len(),
        forall|k: int| 0 <= k < s.len() ==> #[trigger] s[k] >= 0,
    ensures
        prefix_sum(s, i) <= prefix_sum(s, j),
    decreases j - i,
{
    if i < j {
        lemma_prefix_sum_grows(s, i, j - 1);
    }
}

/// Ensuring room keeps a layout packed: starting from the empty layout or a
/// packed one, every successful `ensure` leaves the sections back to back
/// after the output, with power-of-two capacities that hold the requested
/// lengths.
pub proof fn law_layout_stays_packed(before: SceneLayout, output_words: u32, lengths: Seq<usize>, after: SceneLayout)
    requires
        lengths.len() == 8,
        before.packed() || before.total_words == 0,
        SceneLayout::ensured(before, output_words, lengths, true, after),
    ensures
        after.packed(),
        forall|i: int| 0 <= i < 8 ==> #[trigger] lengths[i] <= after.capacities@[i],
{
    if before.needs_rebuild(output_words, lengths) {
        let caps = capacities_for(lengths);
        assert forall|i: int| 0 <= i < 8 implies lengths[i] <= #[trigger] after.capacities@[i]
            && is_pow2(after.capacities@[i] as int) by {
            assert(after.section_rebuilt(output_words, lengths, i));
            lemma_capacity_holds(lengths[i] as int);
        }
        assert(after.capacity_seq() =~= caps) by {
            assert forall|i: int| 0 <= i < 8 implies after.capacity_seq()[i] == caps[i] by {
                assert(after.section_rebuilt(output_words, lengths, i));
            }
        }
        assert forall|i: int| 0 <= i < 8 implies #[trigger] after.offsets@[i] == after.output_words + prefix_sum(
            after.capacity_seq(),
            i,
        ) by {
            assert(after.section_rebuilt(output_words, lengths, i));
        }
    } else {
        assert forall|i: int| 0 <= i < 8 implies #[trigger] lengths[i] <= after.capacities@[i] by {
            assert(!(lengths[i] > before.capacities@[i]));
        }
    }
}

/// A successful `ensure` places every section after the output image it was
/// asked for, gives each at least the room requested, and keeps sections
/// apart: the layout's output size is the requested one, each section
/// starts at or after the output words and ends where the next begins (the
/// last where the layout ends). This holds from the empty layout and from
/// any layout an earlier `ensure` left.
pub proof fn law_ensured_layout_fits_request(before: SceneLayout, output_words: u32, lengths: Seq<usize>, after: SceneLayout)
    requires
        lengths.len() == 8,
        before.packed() || before.total_words == 0,
        SceneLayout::ensured(before, output_words, lengths, true, after),
    ensures
        after.output_words == output_words,
        forall|i: int| 0 <= i < 8 ==> output_words <= #[trigger] after.offsets@[i],
        forall|i: int| 0 <= i < 8 ==> #[trigger] lengths[i] <= after.capacities@[i],
        forall|i: int| 0 <= i < 7 ==> #[trigger] after.offsets@[i] + after.capacities@[i] == after.offsets@[i + 1],
        after.offsets@[7] + after.capacities@[7] == after.total_words,
{
    law_layout_stays_packed(before, output_words, lengths, after);
    let caps = after.capacity_seq();
    assert forall|k: int| 0 <= k < 8 implies #[trigger] caps[k] >= 0 by {}
    assert forall|i: int| 0 <= i < 8 implies output_words <= #[trigger] after.offsets@[i] by {
        lemma_prefix_sum_grows(caps, 0, i);
    }
    assert forall|i: int| 0 <= i < 7 implies #[trigger] after.offsets@[i] + after.capacities@[i] == after.offsets@[i + 1] by {
        assert(prefix_sum(caps, i + 1) == prefix_sum(caps, i) + caps[i]);
    }
    assert(prefix_sum(caps, 8) == prefix_sum(caps, 7) + caps[7]);
}

} // verus!
