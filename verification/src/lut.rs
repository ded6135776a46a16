//! Deduplication of gradient lookup tables in the upload payload.

use vstd::prelude::*;
use std::collections::HashMap;
use crate::error::Error;

verus! {

broadcast use vstd::std_specs::hash::group_hash_axioms;

/// Entries in one gradient lookup table.
pub const LUT_WORDS: usize = 1024;
/// Starting value of the 64-bit FNV-1a hash.
pub const FNV_OFFSET: u64 = 0xcbf2_9ce4_8422_2325;
/// Multiplier of the 64-bit FNV-1a hash.
pub const FNV_PRIME: u64 = 0x0000_0100_0000_01b3;

/// 64-bit FNV-1a hash of a word sequence, one step per word.
pub open spec fn lut_hash(words: Seq<u32>) -> u64
    decreases words.len(),
{
    if words.len() == 0 {
        FNV_OFFSET
    } else {
        vstd::wrapping::u64_specs::wrapping_mul(lut_hash(words.drop_last()) ^ (words.last() as u64), FNV_PRIME)
    }
}

/// Whether the table `lut` is stored at `offset` in `words`.
pub open spec fn lut_at(words: Seq<u32>, offset: int, lut: Seq<u32>) -> bool {
    offset + lut.len() <= words.len() && words.subrange(offset, offset + lut.len()) == lut
}

/// What scanning the candidate offsets in order finds.
pub enum LutLookup {
    /// The first candidate holding the table.
    Found(u32),
    /// No candidate holds the table.
    Missing,
    /// A candidate before any match cannot be addressed.
    Overflow,
}

/// Scans `candidates` in order for an offset holding `lut`.
pub open spec fn lookup_lut(candidates: Seq<u32>, words: Seq<u32>, lut: Seq<u32>) -> LutLookup
    decreases candidates.len(),
{
    if candidates.len() == 0 {
        LutLookup::Missing
    } else if candidates[0] + LUT_WORDS > usize::MAX {
        LutLookup::Overflow
    } else if lut_at(words, candidates[0] as int, lut) {
        LutLookup::Found(candidates[0])
    } else {
        lookup_lut(candidates.drop_first(), words, lut)
    }
}

/// Offsets recorded for tables with hash `hash`.
pub open spec fn candidates_for(offsets: Map<u64, Vec<u32>>, hash: u64) -> Seq<u32> {
    if offsets.contains_key(hash) {
        offsets[hash]@
    } else {
        Seq::empty()
    }
}

/// Every recorded offset addresses a whole table inside `words`.
pub open spec fn lut_index_wf(words: Seq<u32>, offsets: Map<u64, Vec<u32>>) -> bool {
    forall|h: u64, i: int|
        offsets.contains_key(h) && 0 <= i < offsets[h]@.len() ==> #[trigger] offsets[h]@[i] + LUT_WORDS
            <= words.len()
}

/// `res`, `words` and `offsets` are what interning `lut` into `words0` and
/// `offsets0` gives: the first recorded candidate holding the table, else the
/// table appended and its offset recorded under its hash.
pub open spec fn interned(
    words0: Seq<u32>,
    offsets0: Map<u64, Vec<u32>>,
    lut: Seq<u32>,
    res: Result<u32, Error>,
    words: Seq<u32>,
    offsets: Map<u64, Vec<u32>>,
) -> bool {
    let h = lut_hash(lut);
    let candidates = candidates_for(offsets0, h);
    match lookup_lut(candidates, words0, lut) {
        LutLookup::Found(c) => res == Ok::<u32, Error>(c) && words == words0 && offsets == offsets0,
        LutLookup::Overflow => res == Err::<u32, Error>(Error::FrameTooLarge) && words == words0 && offsets
            == offsets0,
        LutLookup::Missing => if words0.len() > u32::MAX {
            res == Err::<u32, Error>(Error::FrameTooLarge) && words == words0 && offsets == offsets0
        } else {
            &&& res == Ok::<u32, Error>(words0.len() as u32)
            &&& words == words0 + lut
            &&& offsets.dom() == offsets0.dom().insert(h)
            &&& offsets[h]@ == candidates.push(words0.len() as u32)
            &&& forall|k: u64| k != h && offsets0.contains_key(k) ==> #[trigger] offsets[k] == offsets0[k]
        },
    }
}

fn lut_hash_exec(lut: &[u32; 1024]) -> (h: u64)
    ensures
        h == lut_hash(lut@),
{
    let mut state: u64 = FNV_OFFSET;
    let mut i: usize = 0;
    while i < LUT_WORDS
        invariant
            0 <= i <= LUT_WORDS,
            lut@.len() == LUT_WORDS,
            state == lut_hash(lut@.subrange(0, i as int)),
        decreases LUT_WORDS - i,
    {
        assert(lut@.subrange(0, i as int + 1).drop_last() =~= lut@.subrange(0, i as int));
        state = (state ^ (lut[i] as u64)).wrapping_mul(FNV_PRIME);
        i = i + 1;
    }
    assert(lut@.subrange(0, LUT_WORDS as int) =~= lut@);
    state
}

fn lut_matches(words: &Vec<u32>, start: usize, lut: &[u32; 1024]) -> (m: bool)
    requires
        start + LUT_WORDS <= usize::MAX,
    ensures
        m == lut_at(words@, start as int, lut@),
{
    if start + LUT_WORDS > words.len() {
        return false;
    }
    let mut i: usize = 0;
    while i < LUT_WORDS
        invariant
            0 <= i <= LUT_WORDS,
            lut@.len() == LUT_WORDS,
            start + LUT_WORDS <= words@.len(),
            start + LUT_WORDS <= usize::MAX,
            forall|k: int| 0 <= k < i ==> words@[start + k] == #[trigger] lut@[k],
        decreases LUT_WORDS - i,
    {
        if words[start + i] != lut[i] {
            assert(words@.subrange(start as int, start + LUT_WORDS)[i as int] != lut@[i as int]);
            return false;
        }
        i = i + 1;
    }
    assert(words@.subrange(start as int, start + LUT_WORDS) =~= lut@);
    true
}

/// Places a gradient lookup table in the shared payload, reusing an identical
/// table recorded under the same hash; returns the table's word offset.
pub fn intern_gradient_lut(words: &mut Vec<u32>, offsets: &mut HashMap<u64, Vec<u32>>, lut: &[u32; 1024]) -> (res: Result<u32, Error>)
    requires
        old(words)@.len() + LUT_WORDS <= usize::MAX,
    ensures
        interned(old(words)@, old(offsets)@, lut@, res, final(words)@, final(offsets)@),
        res matches Ok(offset) ==> lut_at(final(words)@, offset as int, lut@),
        lut_index_wf(old(words)@, old(offsets)@) ==> lut_index_wf(final(words)@, final(offsets)@),
{
    let hash = lut_hash_exec(lut);
    let ghost candidates = candidates_for(offsets@, hash);
    match offsets.get(&hash) {
        Some(list) => {
            assert(list@ == candidates);
            let n = list.len();
            assert(candidates.subrange(0, n as int) =~= candidates);
            let mut k: usize = 0;
            while k < n
                invariant
                    0 <= k <= n,
                    n == candidates.len(),
                    list@ == candidates,
                    candidates == candidates_for(old(offsets)@, hash),
                    hash == lut_hash(lut@),
                    words@ == old(words)@,
                    offsets@ == old(offsets)@,
                    lookup_lut(candidates, words@, lut@) == lookup_lut(candidates.subrange(k as int, n as int), words@, lut@),
                decreases n - k,
            {
                let offset = list[k];
                assert(candidates.subrange(k as int, n as int)[0] == offset);
                assert(candidates.subrange(k as int, n as int).drop_first() =~= candidates.subrange(k as int + 1, n as int));
                let start = offset as usize;
                if start > usize::MAX - LUT_WORDS {
                    return Err(Error::FrameTooLarge);
                }
                if lut_matches(words, start, lut) {
                    return Ok(offset);
                }
                k = k + 1;
            }
            assert(candidates.subrange(n as int, n as int).len() == 0);
        },
        None => {
            assert(candidates.len() == 0);
        },
    }
    let len = words.len();
    if len > 0xffff_ffffusize {
        return Err(Error::FrameTooLarge);
    }
    let offset = len as u32;
    let ghost old_words = words@;
    words.extend_from_slice(lut);
    assert(words@ =~= old_words + lut@) by {
        assert forall|i: int| 0 <= i < words@.len() implies words@[i] == (old_words + lut@)[i] by {
            if i >= old_words.len() {
                assert(vstd::pervasive::cloned::<u32>(lut@[i - old_words.len()], words@[i]));
            }
        }
    }
    let mut list = match offsets.remove(&hash) {
        Some(v) => v,
        None => Vec::new(),
    };
    assert(list@ == candidates);
    list.push(offset);
    offsets.insert(hash, list);
    proof {
        assert(words@.subrange(old_words.len() as int, old_words.len() + LUT_WORDS) =~= lut@);
        assert(offsets@.dom() =~= old(offsets)@.dom().insert(hash));
        assert(lookup_lut(candidates, old(words)@, lut@) == LutLookup::Missing);
    }
    Ok(offset)
}

proof fn lemma_lookup_after_append(candidates: Seq<u32>, words0: Seq<u32>, lut: Seq<u32>)
    requires
        lookup_lut(candidates, words0, lut) == LutLookup::Missing,
        lut.len() == LUT_WORDS,
        words0.len() + LUT_WORDS <= usize::MAX,
        words0.len() <= u32::MAX,
        forall|i: int| 0 <= i < candidates.len() ==> #[trigger] candidates[i] + LUT_WORDS <= words0.len(),
    ensures
        lookup_lut(candidates.push(words0.len() as u32), words0 + lut, lut) == LutLookup::Found(
            words0.len() as u32,
        ),
    decreases candidates.len(),
{
    let w1 = words0 + lut;
    let x = words0.len() as u32;
    if candidates.len() == 0 {
        assert(candidates.push(x) =~= seq![x]);
        assert(w1.subrange(words0.len() as int, words0.len() + LUT_WORDS) =~= lut);
        assert(seq![x].drop_first().len() == 0);
    } else {
        let c = candidates[0];
        assert(c + LUT_WORDS <= words0.len());
        assert(w1.subrange(c as int, c + LUT_WORDS) =~= words0.subrange(c as int, c + LUT_WORDS));
        assert(candidates.push(x)[0] == c);
        assert(candidates.push(x).drop_first() =~= candidates.drop_first().push(x));
        assert forall|i: int| 0 <= i < candidates.drop_first().len() implies #[trigger] candidates.drop_first()[i]
            + LUT_WORDS <= words0.len() by {
            assert(candidates.drop_first()[i] == candidates[i + 1]);
        }
        lemma_lookup_after_append(candidates.drop_first(), words0, lut);
    }
}

/// `tables` with each table kept at its first occurrence.
pub open spec fn first_occurrences(tables: Seq<Seq<u32>>) -> Seq<Seq<u32>>
    decreases tables.len(),
{
    if tables.len() == 0 {
        Seq::empty()
    } else {
        let d = first_occurrences(tables.drop_last());
        if d.contains(tables.last()) { d } else { d.push(tables.last()) }
    }
}

/// The tables of `d` laid out one after another.
pub open spec fn concat_tables(d: Seq<Seq<u32>>) -> Seq<u32>
    decreases d.len(),
{
    if d.len() == 0 {
        Seq::empty()
    } else {
        concat_tables(d.drop_last()) + d.last()
    }
}

/// Word offsets, in order, of the tables of `d` whose hash is `h`.
pub open spec fn offsets_with_hash(d: Seq<Seq<u32>>, h: u64) -> Seq<u32>
    decreases d.len(),
{
    if d.len() == 0 {
        Seq::empty()
    } else {
        let rest = offsets_with_hash(d.drop_last(), h);
        if lut_hash(d.last()) == h {
            rest.push((LUT_WORDS * (d.len() - 1)) as u32)
        } else {
            rest
        }
    }
}

/// Position of `lut` in the distinct tables `d`.
pub open spec fn table_index(d: Seq<Seq<u32>>, lut: Seq<u32>) -> int {
    choose|k: int| 0 <= k < d.len() && d[k] == lut
}

/// The payload `words` holds exactly the distinct tables `d`, one after
/// another, and `offsets` records each table's offset under its hash.
pub open spec fn payload_holds(words: Seq<u32>, offsets: Map<u64, Vec<u32>>, d: Seq<Seq<u32>>) -> bool {
    &&& words == concat_tables(d)
    &&& d.no_duplicates()
    &&& forall|k: int| 0 <= k < d.len() ==> (#[trigger] d[k]).len() == LUT_WORDS
    &&& LUT_WORDS * d.len() <= u32::MAX + LUT_WORDS
    &&& forall|h: u64| #[trigger] candidates_for(offsets, h) == offsets_with_hash(d, h)
}

pub(crate) proof fn lemma_concat_tables(d: Seq<Seq<u32>>)
    requires
        forall|k: int| 0 <= k < d.len() ==> (#[trigger] d[k]).len() == LUT_WORDS,
    ensures
        concat_tables(d).len() == LUT_WORDS * d.len(),
        forall|k: int| 0 <= k < d.len() ==> concat_tables(d).subrange(LUT_WORDS * k, LUT_WORDS * k + LUT_WORDS)
            == #[trigger] d[k],
    decreases d.len(),
{
    if d.len() > 0 {
        let p = d.drop_last();
        assert forall|k: int| 0 <= k < p.len() implies (#[trigger] p[k]).len() == LUT_WORDS by {
            assert(p[k] == d[k]);
        }
        lemma_concat_tables(p);
        let c = concat_tables(d);
        assert forall|k: int| 0 <= k < d.len() implies c.subrange(LUT_WORDS * k, LUT_WORDS * k + LUT_WORDS)
            == #[trigger] d[k] by {
            if k < p.len() {
                assert(p[k] == d[k]);
                assert(c.subrange(LUT_WORDS * k, LUT_WORDS * k + LUT_WORDS)
                    =~= concat_tables(p).subrange(LUT_WORDS * k, LUT_WORDS * k + LUT_WORDS));
            } else {
                assert(c.subrange(LUT_WORDS * k, LUT_WORDS * k + LUT_WORDS) =~= d.last());
            }
        }
    }
}

proof fn lemma_offsets_valid(d: Seq<Seq<u32>>, h: u64)
    requires
        LUT_WORDS * d.len() <= u32::MAX + LUT_WORDS,
    ensures
        forall|j: int| 0 <= j < offsets_with_hash(d, h).len() ==> {
            let o = #[trigger] offsets_with_hash(d, h)[j];
            &&& o % (LUT_WORDS as u32) == 0
            &&& o / (LUT_WORDS as u32) < d.len()
            &&& lut_hash(d[(o / (LUT_WORDS as u32)) as int]) == h
        },
    decreases d.len(),
{
    if d.len() > 0 {
        let p = d.drop_last();
        lemma_offsets_valid(p, h);
        let rest = offsets_with_hash(p, h);
        let all = offsets_with_hash(d, h);
        assert forall|j: int| 0 <= j < all.len() implies {
            let o = #[trigger] all[j];
            &&& o % (LUT_WORDS as u32) == 0
            &&& o / (LUT_WORDS as u32) < d.len()
            &&& lut_hash(d[(o / (LUT_WORDS as u32)) as int]) == h
        } by {
            if j < rest.len() {
                let o = rest[j];
                assert(all[j] == o);
                assert(p[(o / (LUT_WORDS as u32)) as int] == d[(o / (LUT_WORDS as u32)) as int]);
            } else {
                let m = d.len() - 1;
                let o = (LUT_WORDS * m) as u32;
                assert(all[j] == o);
                assert(o == LUT_WORDS * m);
                assert(o % (LUT_WORDS as u32) == 0 && o / (LUT_WORDS as u32) == m) by (nonlinear_arith)
                    requires o == LUT_WORDS * m, m >= 0;
            }
        }
    }
}

proof fn lemma_offsets_complete(d: Seq<Seq<u32>>, k: int)
    requires
        0 <= k < d.len(),
    ensures
        offsets_with_hash(d, lut_hash(d[k])).contains((LUT_WORDS * k) as u32),
    decreases d.len(),
{
    let h = lut_hash(d[k]);
    let p = d.drop_last();
    if k < p.len() {
        assert(p[k] == d[k]);
        lemma_offsets_complete(p, k);
        let j = choose|j: int| 0 <= j < offsets_with_hash(p, h).len() && offsets_with_hash(p, h)[j] == (LUT_WORDS * k) as u32;
        assert(offsets_with_hash(d, h)[j] == (LUT_WORDS * k) as u32);
    } else {
        let all = offsets_with_hash(d, h);
        assert(all[all.len() - 1] == (LUT_WORDS * k) as u32);
    }
}

proof fn lemma_lookup_distinct(cands: Seq<u32>, d: Seq<Seq<u32>>, lut: Seq<u32>)
    requires
        forall|k: int| 0 <= k < d.len() ==> (#[trigger] d[k]).len() == LUT_WORDS,
        d.no_duplicates(),
        lut.len() == LUT_WORDS,
        LUT_WORDS * d.len() <= usize::MAX,
        LUT_WORDS * d.len() <= u32::MAX + LUT_WORDS,
        forall|j: int| 0 <= j < cands.len() ==> {
            let o = #[trigger] cands[j];
            &&& o % (LUT_WORDS as u32) == 0
            &&& o / (LUT_WORDS as u32) < d.len()
        },
    ensures
        !d.contains(lut) ==> lookup_lut(cands, concat_tables(d), lut) == LutLookup::Missing,
        d.contains(lut) && cands.contains((LUT_WORDS * table_index(d, lut)) as u32) ==> lookup_lut(
            cands,
            concat_tables(d),
            lut,
        ) == LutLookup::Found((LUT_WORDS * table_index(d, lut)) as u32),
    decreases cands.len(),
{
    lemma_concat_tables(d);
    if cands.len() > 0 {
        let rest = cands.drop_first();
        assert forall|j: int| 0 <= j < rest.len() implies {
            let o = #[trigger] rest[j];
            &&& o % (LUT_WORDS as u32) == 0
            &&& o / (LUT_WORDS as u32) < d.len()
        } by {
            assert(rest[j] == cands[j + 1]);
        }
        lemma_lookup_distinct(rest, d, lut);
        let c = cands[0];
        let k = (c / (LUT_WORDS as u32)) as int;
        assert(c == LUT_WORDS * k) by (nonlinear_arith)
            requires c % (LUT_WORDS as u32) == 0, k == c / (LUT_WORDS as u32);
        assert(LUT_WORDS * k + LUT_WORDS <= LUT_WORDS * d.len()) by (nonlinear_arith)
            requires k < d.len(), k >= 0;
        assert(lut_at(concat_tables(d), c as int, lut) == (d[k] == lut));
        if d.contains(lut) {
            let t = table_index(d, lut);
            assert(0 <= t < d.len() && d[t] == lut);
            if cands.contains((LUT_WORDS * t) as u32) {
                if d[k] == lut {
                    assert(k == t);
                } else {
                    assert(LUT_WORDS * t <= u32::MAX) by (nonlinear_arith)
                        requires t < d.len(), LUT_WORDS * d.len() <= u32::MAX + LUT_WORDS;
                    assert(k != t);
                    assert(c != (LUT_WORDS * t) as u32);
                    let j = choose|j: int| 0 <= j < cands.len() && cands[j] == (LUT_WORDS * t) as u32;
                    assert(j != 0);
                    assert(rest[j - 1] == (LUT_WORDS * t) as u32);
                }
            }
        } else {
            assert(d[k] != lut);
        }
    }
}

/// Interning into a payload holding the distinct tables `d` finds a table
/// already in `d` at its position; a new table is appended after them.
pub(crate) proof fn lemma_intern_distinct(
    words0: Seq<u32>,
    offsets0: Map<u64, Vec<u32>>,
    d: Seq<Seq<u32>>,
    lut: Seq<u32>,
    res: Result<u32, Error>,
    words1: Seq<u32>,
    offsets1: Map<u64, Vec<u32>>,
)
    requires
        payload_holds(words0, offsets0, d),
        lut.len() == LUT_WORDS,
        words0.len() + LUT_WORDS <= usize::MAX,
        interned(words0, offsets0, lut, res, words1, offsets1),
    ensures
        d.contains(lut) ==> res == Ok::<u32, Error>((LUT_WORDS * table_index(d, lut)) as u32) && words1 == words0
            && offsets1 == offsets0,
        !d.contains(lut) && LUT_WORDS * d.len() > u32::MAX ==> res == Err::<u32, Error>(Error::FrameTooLarge),
        !d.contains(lut) && LUT_WORDS * d.len() <= u32::MAX ==> res == Ok::<u32, Error>((LUT_WORDS * d.len()) as u32)
            && payload_holds(words1, offsets1, d.push(lut)),
{
    lemma_concat_tables(d);
    let h = lut_hash(lut);
    let cands = candidates_for(offsets0, h);
    lemma_offsets_valid(d, h);
    lemma_lookup_distinct(cands, d, lut);
    if d.contains(lut) {
        let t = table_index(d, lut);
        assert(0 <= t < d.len() && d[t] == lut);
        lemma_offsets_complete(d, t);
    } else if LUT_WORDS * d.len() <= u32::MAX {
        let d1 = d.push(lut);
        assert(d1.drop_last() =~= d);
        assert(concat_tables(d1) == words0 + lut);
        assert forall|k: int| 0 <= k < d1.len() implies (#[trigger] d1[k]).len() == LUT_WORDS by {
            if k < d.len() {
                assert(d1[k] == d[k]);
            }
        }
        assert forall|i: int, j: int| 0 <= i < d1.len() && 0 <= j < d1.len() && i != j implies d1[i] != d1[j] by {
            if i < d.len() && j < d.len() {
                assert(d1[i] == d[i] && d1[j] == d[j]);
            } else if i < d.len() {
                assert(d1[i] == d[i]);
                assert(d.contains(d[i]));
            } else {
                assert(d1[j] == d[j]);
                assert(d.contains(d[j]));
            }
        }
        assert forall|g: u64| #[trigger] candidates_for(offsets1, g) == offsets_with_hash(d1, g) by {
            assert(offsets_with_hash(d1, g) == if lut_hash(lut) == g {
                offsets_with_hash(d, g).push((LUT_WORDS * d.len()) as u32)
            } else {
                offsets_with_hash(d, g)
            });
            assert(candidates_for(offsets0, g) == offsets_with_hash(d, g));
            if g != h && offsets0.contains_key(g) {
                assert(offsets1[g] == offsets0[g]);
            }
        }
    }
}

/// An empty payload and index are well formed. Since interning keeps them
/// well formed, every payload built by interning alone meets the
/// requirement of the sharing law below.
pub proof fn law_empty_lut_index_wf()
    ensures
        lut_index_wf(Seq::empty(), Map::empty()),
{
}

/// Interning a table twice finds the first interning's offset: identical
/// gradient tables share one payload and the payload does not grow.
pub proof fn law_intern_twice_shares_payload(
    words0: Seq<u32>,
    offsets0: Map<u64, Vec<u32>>,
    lut: Seq<u32>,
    offset: u32,
    words1: Seq<u32>,
    offsets1: Map<u64, Vec<u32>>,
)
    requires
        lut.len() == LUT_WORDS,
        lut_index_wf(words0, offsets0),
        words0.len() + LUT_WORDS <= usize::MAX,
        interned(words0, offsets0, lut, Ok::<u32, Error>(offset), words1, offsets1),
    ensures
        lookup_lut(candidates_for(offsets1, lut_hash(lut)), words1, lut) == LutLookup::Found(offset),
        forall|res: Result<u32, Error>, words2: Seq<u32>, offsets2: Map<u64, Vec<u32>>|
            interned(words1, offsets1, lut, res, words2, offsets2) ==> res == Ok::<u32, Error>(offset)
                && words2 == words1 && offsets2 == offsets1,
{
    let h = lut_hash(lut);
    let candidates = candidates_for(offsets0, h);
    match lookup_lut(candidates, words0, lut) {
        LutLookup::Found(c) => {},
        LutLookup::Overflow => {},
        LutLookup::Missing => {
            assert forall|i: int| 0 <= i < candidates.len() implies #[trigger] candidates[i] + LUT_WORDS
                <= words0.len() by {
                if offsets0.contains_key(h) {
                    assert(offsets0[h]@[i] == candidates[i]);
                }
            }
            lemma_lookup_after_append(candidates, words0, lut);
            assert(candidates_for(offsets1, h) == candidates.push(words0.len() as u32));
        },
    }
}

} // verus!
