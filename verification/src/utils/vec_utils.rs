//! Searches in a vector.

use vstd::prelude::*;
use vstd::std_specs::cmp::PartialEqSpec;

verus! {

/// The first of the indices, in their order, at which `items` holds an
/// element equal to `needle`; none where no index is such, and none from
/// the first index on that is outside `items`.
pub open spec fn first_hit<T: PartialEq>(items: Seq<T>, needle: T, indices: Seq<usize>) -> Option<
    usize,
>
    decreases indices.len(),
{
    if indices.len() == 0 {
        None
    } else if indices[0] >= items.len() {
        None
    } else if items[indices[0] as int].eq_spec(&needle) {
        Some(indices[0])
    } else {
        first_hit(items, needle, indices.skip(1))
    }
}

/// Searches for an element in a vector. What the searches find is stated
/// for element types whose `==` is the equality of their specification.
pub trait VecUtils<T: PartialEq>: View<V = Seq<T>> {
    /// The first of the given indices at which the element equals `needle`.
    /// An index outside the vector ends the search without a find.
    fn find_within_indices(&self, needle: &T, indices: &[usize]) -> (found: Option<usize>)
        ensures
            T::obeys_eq_spec() ==> found == first_hit(self@, *needle, indices@),
    ;

    /// The first index from `starting_offset` on at which the element
    /// equals `needle`.
    fn find_index(&self, needle: &T, starting_offset: usize) -> (found: Option<usize>)
        ensures
            T::obeys_eq_spec() ==> match found {
                Some(at) => {
                    &&& starting_offset <= at < self@.len()
                    &&& self@[at as int].eq_spec(needle)
                    &&& forall|i: int| starting_offset <= i < at ==> !self@[i].eq_spec(needle)
                },
                None => forall|i: int|
                    starting_offset <= i < self@.len() ==> !self@[i].eq_spec(needle),
            },
    ;

    /// The last index before `starting_offset` at which the element equals
    /// `needle`; none where `starting_offset` is beyond the vector's end.
    fn find_index_backwards(&self, needle: &T, starting_offset: usize) -> (found: Option<usize>)
        ensures
            T::obeys_eq_spec() ==> match found {
                Some(at) => {
                    &&& at < starting_offset <= self@.len()
                    &&& self@[at as int].eq_spec(needle)
                    &&& forall|i: int| at < i < starting_offset ==> !self@[i].eq_spec(needle)
                },
                None => starting_offset > self@.len() || forall|i: int|
                    0 <= i < starting_offset ==> !self@[i].eq_spec(needle),
            },
    ;
}

impl<T: PartialEq> VecUtils<T> for Vec<T> {
    fn find_within_indices(&self, needle: &T, indices: &[usize]) -> (found: Option<usize>) {
        let mut k: usize = 0;
        assert(indices@.skip(0) =~= indices@);
        while k < indices.len()
            invariant
                k <= indices.len(),
                T::obeys_eq_spec() ==> first_hit(self@, *needle, indices@) == first_hit(
                    self@,
                    *needle,
                    indices@.skip(k as int),
                ),
            decreases indices.len() - k,
        {
            let i = indices[k];
            proof {
                assert(indices@.skip(k as int)[0] == i);
                assert(indices@.skip(k as int).skip(1) =~= indices@.skip(k + 1));
            }
            if i >= self.len() {
                return None;
            }
            if self[i] == *needle {
                return Some(i);
            }
            k += 1;
        }
        None
    }

    fn find_index(&self, needle: &T, starting_offset: usize) -> (found: Option<usize>) {
        let mut i: usize = starting_offset;
        while i < self.len()
            invariant
                starting_offset <= i,
                T::obeys_eq_spec() ==> forall|j: int|
                    starting_offset <= j < i && j < self@.len() ==> !self@[j].eq_spec(needle),
            decreases self.len() - i,
        {
            if self[i] == *needle {
                return Some(i);
            }
            i += 1;
        }
        None
    }

    fn find_index_backwards(&self, needle: &T, starting_offset: usize) -> (found: Option<usize>) {
        if starting_offset > self.len() {
            return None;
        }
        let mut i: usize = starting_offset;
        while i > 0
            invariant
                i <= starting_offset <= self@.len(),
                T::obeys_eq_spec() ==> forall|j: int|
                    i <= j < starting_offset ==> !self@[j].eq_spec(needle),
            decreases i,
        {
            i -= 1;
            if self[i] == *needle {
                return Some(i);
            }
        }
        None
    }
}

} // verus!
