//! Full and reduced vectors.

use crate::metric::{measure_of, takes_pairs};
use vstd::prelude::*;

verus! {

/// How many leading coordinates a reduced view keeps.
pub const REDUCED_DIM: usize = 2;

/// A vector at full precision: its coordinates as binary32 words.
#[derive(Debug)]
pub struct DenseVector {
    pub elements: Vec<u32>,
}

/// The reduced view of a vector: its leading coordinates.
#[derive(Debug)]
pub struct QuantizedVector {
    pub elements: Vec<u32>,
}

impl View for DenseVector {
    type V = Seq<u32>;

    open spec fn view(&self) -> Seq<u32> {
        self.elements@
    }
}

impl View for QuantizedVector {
    type V = Seq<u32>;

    open spec fn view(&self) -> Seq<u32> {
        self.elements@
    }
}

impl Clone for DenseVector {
    fn clone(&self) -> (copy: Self)
        ensures
            copy@ == self@,
    {
        DenseVector { elements: self.elements.clone() }
    }
}

impl Clone for QuantizedVector {
    fn clone(&self) -> (copy: Self)
        ensures
            copy@ == self@,
    {
        QuantizedVector { elements: self.elements.clone() }
    }
}

/// What a distance can be measured between: a value with coordinates.
pub trait Distances {
    /// The coordinates of the value.
    spec fn coordinates(&self) -> Seq<u32>;

    /// A distance from this value to `other`, as `metric` measures it.
    fn distance<F: Fn(&Vec<u32>, &Vec<u32>) -> u32>(&self, other: &Self, metric: &F) -> (d: u32)
        requires
            self.coordinates().len() == other.coordinates().len(),
            takes_pairs(metric),
        ensures
            measure_of(metric)(self.coordinates(), other.coordinates(), d),
    ;
}

impl Distances for DenseVector {
    open spec fn coordinates(&self) -> Seq<u32> {
        self@
    }

    fn distance<F: Fn(&Vec<u32>, &Vec<u32>) -> u32>(&self, other: &Self, metric: &F) -> (d: u32) {
        metric(&self.elements, &other.elements)
    }
}

impl Distances for QuantizedVector {
    open spec fn coordinates(&self) -> Seq<u32> {
        self@
    }

    fn distance<F: Fn(&Vec<u32>, &Vec<u32>) -> u32>(&self, other: &Self, metric: &F) -> (d: u32) {
        metric(&self.elements, &other.elements)
    }
}

/// The leading `REDUCED_DIM` coordinates of `v`, or all of `v` where it is
/// shorter.
pub open spec fn reduced(v: Seq<u32>) -> Seq<u32> {
    if v.len() <= REDUCED_DIM {
        v
    } else {
        v.subrange(0, REDUCED_DIM as int)
    }
}

impl DenseVector {
    /// The reduced view of this vector.
    pub fn quantize(&self) -> (q: QuantizedVector)
        ensures
            q@ == reduced(self@),
    {
        let mut elements: Vec<u32> = Vec::new();
        let mut i: usize = 0;
        while i < self.elements.len() && i < REDUCED_DIM
            invariant
                i <= self.elements.len(),
                i <= REDUCED_DIM,
                elements@ == self.elements@.subrange(0, i as int),
            decreases self.elements.len() - i,
        {
            elements.push(self.elements[i]);
            i += 1;
            proof {
                assert(elements@ =~= self.elements@.subrange(0, i as int));
            }
        }
        proof {
            assert(elements@ =~= reduced(self@));
        }
        QuantizedVector { elements }
    }
}

} // verus!
