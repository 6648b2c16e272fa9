//! Small helpers on collections.
use vstd::prelude::*;
use vstd::std_specs::cmp::PartialEqSpec;

verus! {

/// Removes the first element of `list` equal to `value`, if there is one.
pub fn remove_from<T: PartialEq>(list: &mut Vec<T>, value: T)
    requires
        T::obeys_eq_spec(),
    ensures
        (forall|i: int| 0 <= i < old(list)@.len() ==> !(#[trigger] old(list)@[i]).eq_spec(&value))
            ==> final(list)@ == old(list)@,
        forall|k: int|
            0 <= k < old(list)@.len() && old(list)@[k].eq_spec(&value) && (forall|i: int|
                0 <= i < k ==> !(#[trigger] old(list)@[i]).eq_spec(&value)) ==> final(list)@
                == old(list)@.remove(k),
{
    let mut i: usize = 0;
    while i < list.len()
        invariant
            T::obeys_eq_spec(),
            i <= list@.len(),
            list@ == old(list)@,
            forall|j: int| 0 <= j < i ==> !(#[trigger] list@[j]).eq_spec(&value),
        decreases list@.len() - i,
    {
        if list[i] == value {
            list.remove(i);
            return;
        }
        i = i + 1;
    }
}

} // verus!
