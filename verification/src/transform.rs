//! The transform snapshot that a script reports for its entity.

use vstd::prelude::*;

verus! {

/// Number of elements in a 4x4 matrix.
pub const TRANSFORM_LEN: usize = 16;

/// A 4x4 spatial transform, read from a script and applied within one tick.
///
/// The sixteen elements are single-precision numbers, each held as its
/// IEEE 754 bit pattern, in column-major order: element `4 * c + r` is row `r`
/// of column `c`. The elements are carried from the script to the store as
/// they are and never interpreted on the way.
#[derive(Clone, Copy, Debug, PartialEq, Eq)]
pub struct Transform {
    pub elements: [u32; TRANSFORM_LEN],
}

impl View for Transform {
    type V = Seq<u32>;

    open spec fn view(&self) -> Seq<u32> {
        self.elements@
    }
}

impl Transform {
    /// The transform whose elements are exactly `elements`.
    pub open spec fn of(elements: Seq<u32>) -> Transform {
        choose|t: Transform| t@ == elements
    }

    /// A transform is determined by its elements.
    pub proof fn lemma_of_view(self)
        ensures
            Transform::of(self@) == self,
            self@.len() == TRANSFORM_LEN,
    {
        assert(Transform::of(self@).elements =~= self.elements);
    }

    /// An array whose first `n` elements are those of `elements`.
    proof fn lemma_array_of(elements: Seq<u32>, n: nat) -> (array: [u32; TRANSFORM_LEN])
        requires
            elements.len() == TRANSFORM_LEN,
            n <= TRANSFORM_LEN,
        ensures
            forall|i: int| 0 <= i < n ==> array@[i] == elements[i],
        decreases n,
    {
        if n == 0 {
            arbitrary()
        } else {
            let shorter = Self::lemma_array_of(elements, (n - 1) as nat);
            vstd::array::spec_array_update(shorter, n - 1, elements[n - 1])
        }
    }

    /// Any sixteen elements make up a transform.
    pub proof fn lemma_of_elements(elements: Seq<u32>)
        requires
            elements.len() == TRANSFORM_LEN,
        ensures
            Transform::of(elements)@ == elements,
    {
        let array = Self::lemma_array_of(elements, TRANSFORM_LEN as nat);
        let t = Transform { elements: array };
        assert(t@ =~= elements);
    }

    /// Accepts `raw` as a transform if it has exactly sixteen elements.
    ///
    /// Nothing is padded, cut or reordered: a sequence of any other length is
    /// refused as a whole.
    pub fn from_elements(raw: &Vec<u32>) -> (r: Option<Transform>)
        ensures
            r == (if raw@.len() == TRANSFORM_LEN {
                Some(Transform::of(raw@))
            } else {
                None
            }),
            r matches Some(t) ==> t@ == raw@,
    {
        if raw.len() != TRANSFORM_LEN {
            return None;
        }
        let mut elements: [u32; TRANSFORM_LEN] = [0u32; TRANSFORM_LEN];
        let mut i: usize = 0;
        while i < TRANSFORM_LEN
            invariant
                i <= TRANSFORM_LEN,
                raw@.len() == TRANSFORM_LEN,
                forall|j: int| 0 <= j < i ==> elements@[j] == raw@[j],
            decreases TRANSFORM_LEN - i,
        {
            elements[i] = raw[i];
            i = i + 1;
        }
        let t = Transform { elements };
        proof {
            assert(t@ =~= raw@);
            t.lemma_of_view();
        }
        Some(t)
    }
}

} // verus!
