use vstd::prelude::*;

verus! {

/// Removes and returns the first element of `vec`, shifting the rest down.
pub fn pop_front<T>(vec: &mut Vec<T>) -> (r: Option<T>)
    ensures
        old(vec)@.len() == 0 ==> r is None && final(vec)@ == old(vec)@,
        old(vec)@.len() > 0 ==> r == Some(old(vec)@[0]) && final(vec)@ == old(vec)@.drop_first(),
{
    if vec.len() == 0 {
        None
    } else {
        let first = vec.remove(0);
        proof {
            assert(vec@ =~= old(vec)@.drop_first());
        }
        Some(first)
    }
}

} // verus!
