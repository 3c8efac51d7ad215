//! The order of binary32 words.

use vstd::prelude::*;

verus! {

/// The sign bit of a word.
pub const SIGN_BIT: u32 = 0x8000_0000;

/// All bits of a word but the sign bit.
pub const MAGNITUDE_MASK: u32 = 0x7fff_ffff;

/// The word of positive infinity; every larger magnitude is not a number.
pub const INFINITY: u32 = 0x7f80_0000;

/// The word with its sign bit cleared.
pub open spec fn magnitude(w: u32) -> u32 {
    w & MAGNITUDE_MASK
}

/// Whether the word is not a number: its magnitude lies above infinity's.
pub open spec fn is_nan(w: u32) -> bool {
    magnitude(w) > INFINITY
}

/// The place of a word that is a number on the integer line: its magnitude,
/// negated where the sign bit is set. Both zeros have place 0.
pub open spec fn rank(w: u32) -> int {
    if w & SIGN_BIT == 0 {
        magnitude(w) as int
    } else {
        -(magnitude(w) as int)
    }
}

/// `a < b` as binary32 values: false where either is not a number.
pub open spec fn less(a: u32, b: u32) -> bool {
    !is_nan(a) && !is_nan(b) && rank(a) < rank(b)
}

/// Whether position `i` holds the least number of `ds`, and is the first
/// position to hold it. Words that are not numbers are never the least.
pub open spec fn first_least(ds: Seq<u32>, i: int) -> bool {
    &&& 0 <= i < ds.len()
    &&& !is_nan(ds[i])
    &&& forall|j: int| 0 <= j < ds.len() ==> !less(#[trigger] ds[j], ds[i])
    &&& forall|j: int| 0 <= j < i ==> is_nan(#[trigger] ds[j]) || less(ds[i], ds[j])
}

/// What a scan for the least number finds in `ds`: the first position of
/// the least number, nothing where no word of `ds` is a number.
pub open spec fn least_of(ds: Seq<u32>, found: Option<int>) -> bool {
    match found {
        Some(i) => first_least(ds, i),
        None => forall|j: int| 0 <= j < ds.len() ==> is_nan(#[trigger] ds[j]),
    }
}

/// Where a scan for the least number ends when it must end somewhere: at
/// what `least_of` finds, or at position 0 where no word of `ds` is a number.
pub open spec fn least_or_first(ds: Seq<u32>, i: int) -> bool {
    least_of(ds, Some(i)) || (i == 0 && least_of(ds, None))
}

/// What a scan for the nearest finds in a non-empty `ds` when it starts from
/// the first word: position 0 if that word is not a number (nothing compares
/// below it), else the first position of the least number.
pub open spec fn nearest_of(ds: Seq<u32>, i: int) -> bool {
    if is_nan(ds[0]) {
        i == 0
    } else {
        first_least(ds, i)
    }
}

/// Whether the word is not a number.
pub fn word_is_nan(w: u32) -> (r: bool)
    ensures
        r == is_nan(w),
{
    (w & MAGNITUDE_MASK) > INFINITY
}

/// Compares two words as binary32 values.
pub fn word_less(a: u32, b: u32) -> (r: bool)
    ensures
        r == less(a, b),
{
    if word_is_nan(a) || word_is_nan(b) {
        return false;
    }
    let ma: u32 = a & MAGNITUDE_MASK;
    let mb: u32 = b & MAGNITUDE_MASK;
    let a_negative: bool = a & SIGN_BIT != 0;
    let b_negative: bool = b & SIGN_BIT != 0;
    if a_negative {
        if b_negative {
            mb < ma
        } else {
            ma != 0 || mb != 0
        }
    } else {
        if b_negative {
            false
        } else {
            ma < mb
        }
    }
}

/// At most one position is the first least of a sequence.
pub proof fn lemma_first_least_unique(ds: Seq<u32>, i: int, j: int)
    requires
        first_least(ds, i),
        first_least(ds, j),
    ensures
        i == j,
{
    if i < j {
        assert(is_nan(ds[i]) || less(ds[j], ds[i]));
        assert(!less(ds[j], ds[i]));
    } else if j < i {
        assert(is_nan(ds[j]) || less(ds[i], ds[j]));
        assert(!less(ds[i], ds[j]));
    }
}

/// A scan for the least number has one outcome.
pub proof fn lemma_least_unique(ds: Seq<u32>, a: Option<int>, b: Option<int>)
    requires
        least_of(ds, a),
        least_of(ds, b),
    ensures
        a == b,
{
    match (a, b) {
        (Some(i), Some(j)) => {
            lemma_first_least_unique(ds, i, j);
        },
        (Some(i), None) => {
            assert(is_nan(ds[i]));
        },
        (None, Some(j)) => {
            assert(is_nan(ds[j]));
        },
        (None, None) => {},
    }
}

/// A scan for the nearest from the first word ends at one position.
pub proof fn lemma_nearest_unique(ds: Seq<u32>, i: int, j: int)
    requires
        nearest_of(ds, i),
        nearest_of(ds, j),
    ensures
        i == j,
{
    if !is_nan(ds[0]) {
        lemma_first_least_unique(ds, i, j);
    }
}

/// Scans `ds` for the least number; the first position to hold it wins, and
/// words that are not numbers are passed over.
pub fn least(ds: &Vec<u32>) -> (found: Option<usize>)
    ensures
        least_of(
            ds@,
            match found {
                Some(i) => Some(i as int),
                None => None,
            },
        ),
{
    let mut best: u32 = 0;
    let mut found: Option<usize> = None;
    let mut j: usize = 0;
    while j < ds.len()
        invariant
            0 <= j <= ds.len(),
            match found {
                Some(i) => {
                    &&& i < j
                    &&& best == ds@[i as int]
                    &&& !is_nan(best)
                    &&& forall|p: int| 0 <= p < j ==> !less(#[trigger] ds@[p], best)
                    &&& forall|p: int|
                        0 <= p < i ==> is_nan(#[trigger] ds@[p]) || less(best, ds@[p])
                },
                None => forall|p: int| 0 <= p < j ==> is_nan(#[trigger] ds@[p]),
            },
        decreases ds.len() - j,
    {
        let d: u32 = ds[j];
        let wins: bool = match found {
            Some(_) => word_less(d, best),
            None => !word_is_nan(d),
        };
        if wins {
            proof {
                assert forall|p: int| 0 <= p < j implies is_nan(#[trigger] ds@[p]) || less(
                    d,
                    ds@[p],
                ) by {
                    if found is Some {
                        assert(!less(ds@[p], best));
                    }
                }
                assert forall|p: int| 0 <= p < j + 1 implies !less(#[trigger] ds@[p], d) by {
                    if p < j && found is Some {
                        assert(!less(ds@[p], best));
                    }
                }
            }
            best = d;
            found = Some(j);
        }
        j += 1;
    }
    found
}

/// Scans a non-empty `ds` for the nearest, starting from its first word; a
/// later word wins only where it compares below the best so far.
pub fn nearest(ds: &Vec<u32>) -> (i: usize)
    requires
        ds.len() > 0,
    ensures
        i < ds.len(),
        nearest_of(ds@, i as int),
{
    let mut best: u32 = ds[0];
    let mut i: usize = 0;
    let mut j: usize = 1;
    while j < ds.len()
        invariant
            1 <= j <= ds.len(),
            i < j,
            best == ds@[i as int],
            is_nan(ds@[0]) ==> i == 0,
            !is_nan(ds@[0]) ==> {
                &&& !is_nan(best)
                &&& forall|p: int| 0 <= p < j ==> !less(#[trigger] ds@[p], best)
                &&& forall|p: int| 0 <= p < i ==> is_nan(#[trigger] ds@[p]) || less(best, ds@[p])
            },
        decreases ds.len() - j,
    {
        let d: u32 = ds[j];
        if word_less(d, best) {
            proof {
                assert forall|p: int| 0 <= p < j implies is_nan(#[trigger] ds@[p]) || less(
                    d,
                    ds@[p],
                ) by {
                    assert(!less(ds@[p], best));
                }
            }
            best = d;
            i = j;
        }
        j += 1;
    }
    i
}

} // verus!
