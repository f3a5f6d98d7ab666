//! Fusing neighbours in a sequence.

use vstd::prelude::*;

verus! {

/// Whether `output` is what `before` becomes with `item` behind it: the
/// item alone after nothing; else what the fuser makes of the last element
/// and the item in place of that element, or, where it makes nothing of
/// them, the item as one more element.
pub open spec fn fused_step<T, F: Fn(&T, &T) -> Option<T>>(
    fuser: F,
    before: Seq<T>,
    item: T,
    output: Seq<T>,
) -> bool {
    if before.len() == 0 {
        output == seq![item]
    } else {
        exists|made: Option<T>|
            (#[trigger] fuser.ensures((&before.last(), &item), made)) && output == (match made {
                Some(fused) => before.drop_last().push(fused),
                None => before.push(item),
            })
    }
}

/// Whether `stages` are what the items become one by one: nothing at
/// first, and after each item what the stage before it becomes with that
/// item behind it.
pub open spec fn fused_stages<T, F: Fn(&T, &T) -> Option<T>>(
    fuser: F,
    items: Seq<T>,
    stages: Seq<Seq<T>>,
) -> bool {
    &&& stages.len() == items.len() + 1
    &&& stages[0].len() == 0
    &&& forall|k: int|
        0 <= k < items.len() ==> fused_step(fuser, #[trigger] stages[k], items[k], stages[k + 1])
}

/// Whether `output` is what the items become when each in turn is put
/// behind what the items before it became.
pub open spec fn fused<T, F: Fn(&T, &T) -> Option<T>>(fuser: F, items: Seq<T>, output: Seq<T>) -> bool {
    exists|stages: Seq<Seq<T>>| #[trigger]
        fused_stages(fuser, items, stages) && stages.last() == output
}

/// Fusing of neighbours.
pub trait IterUtils<T>: Sized + View<V = Seq<T>> {
    /// Collects the items, each fused with the one collected last where the
    /// fuser makes one item of the two.
    fn fuse_to_vec<F: Fn(&T, &T) -> Option<T>>(self, fuser: F) -> (output: Vec<T>)
        requires
            forall|a: &T, b: &T| #[trigger] fuser.requires((a, b)),
        ensures
            fused(fuser, self@, output@),
    ;
}

impl<T> IterUtils<T> for Vec<T> {
    fn fuse_to_vec<F: Fn(&T, &T) -> Option<T>>(self, fuser: F) -> (output: Vec<T>) {
        let ghost items = self@;
        let ghost mut stages: Seq<Seq<T>> = seq![Seq::<T>::empty()];
        let mut fused_items: Vec<T> = Vec::new();
        for item in it: self
            invariant
                it.seq() == items,
                forall|a: &T, b: &T| #[trigger] fuser.requires((a, b)),
                stages.len() == it.index() + 1,
                stages[0].len() == 0,
                stages.last() == fused_items@,
                forall|k: int|
                    0 <= k < it.index() ==> fused_step(
                        fuser,
                        #[trigger] stages[k],
                        items[k],
                        stages[k + 1],
                    ),
        {
            let ghost before = fused_items@;
            let ghost earlier = stages;
            if fused_items.len() == 0 {
                fused_items.push(item);
                assert(fused_items@ =~= seq![item]);
            } else {
                let made = fuser(&fused_items[fused_items.len() - 1], &item);
                let ghost outcome = made;
                match made {
                    Some(fused_item) => {
                        fused_items.pop();
                        fused_items.push(fused_item);
                    },
                    None => {
                        fused_items.push(item);
                    },
                }
                proof {
                    assert(fuser.ensures((&before.last(), &item), outcome));
                    assert(fused_items@ =~= match outcome {
                        Some(fused_item) => before.drop_last().push(fused_item),
                        None => before.push(item),
                    });
                }
            }
            proof {
                assert(fused_step(fuser, before, item, fused_items@));
                stages = stages.push(fused_items@);
                assert forall|k: int| 0 <= k < it.index() + 1 implies fused_step(
                    fuser,
                    #[trigger] stages[k],
                    items[k],
                    stages[k + 1],
                ) by {
                    if k < it.index() {
                        assert(stages[k] == earlier[k]);
                        assert(stages[k + 1] == earlier[k + 1]);
                    }
                }
            }
        }
        assert(fused_stages(fuser, items, stages));
        fused_items
    }
}

} // verus!
