//! Copying vectors and lists.

use vstd::prelude::*;

verus! {

/// A copy of `items`.
pub(crate) fn copy_of<T: Copy>(items: &[T]) -> (copy: Vec<T>)
    ensures
        copy@ == items@,
{
    let mut copy: Vec<T> = Vec::new();
    let mut i: usize = 0;
    while i < items.len()
        invariant
            i <= items.len(),
            copy@ == items@.take(i as int),
        decreases items.len() - i,
    {
        copy.push(items[i]);
        i += 1;
    }
    copy
}

} // verus!
