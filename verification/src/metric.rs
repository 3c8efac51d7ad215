//! What the library takes from its caller: a distance between two coordinate
//! lists and an average of a list of words.
//!
//! Neither function is looked into. A contract that speaks of a distance or
//! of an average speaks of a word that the function may give for those
//! arguments.

use vstd::prelude::*;

verus! {

/// A relation between two coordinate lists and a word: the word is a
/// distance between the two.
pub type Measure = spec_fn(Seq<u32>, Seq<u32>, u32) -> bool;

/// A relation between a list of words and a word: the word is an average of
/// the list.
pub type Average = spec_fn(Seq<u32>, u32) -> bool;

/// The distances that `distance` measures: `d` is one from `a` to `b` where
/// `distance` may give `d` for two vectors with these coordinates.
pub open spec fn measure_of<F: Fn(&Vec<u32>, &Vec<u32>) -> u32>(distance: &F) -> Measure {
    |a: Seq<u32>, b: Seq<u32>, d: u32|
        exists|x: &Vec<u32>, y: &Vec<u32>|
            x@ == a && y@ == b && #[trigger] call_ensures(*distance, (x, y), d)
}

/// Whether `distance` takes every two coordinate lists of one length.
pub open spec fn takes_pairs<F: Fn(&Vec<u32>, &Vec<u32>) -> u32>(distance: &F) -> bool {
    forall|x: &Vec<u32>, y: &Vec<u32>| x@.len() == y@.len() ==> call_requires(*distance, (x, y))
}

/// Whether `average` takes every non-empty list of words.
pub open spec fn takes_columns<M: Fn(&Vec<u32>) -> u32>(average: &M) -> bool {
    forall|col: &Vec<u32>| col@.len() > 0 ==> call_requires(*average, (col,))
}

/// The averages that `average` takes: `m` is one of `col` where `average`
/// may give `m` for a list of these words.
pub open spec fn average_of<M: Fn(&Vec<u32>) -> u32>(average: &M) -> Average {
    |col: Seq<u32>, m: u32|
        exists|x: &Vec<u32>| x@ == col && #[trigger] call_ensures(*average, (x,), m)
}

} // verus!
