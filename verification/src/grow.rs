use vstd::prelude::*;

verus! {

/// Sets the length of `v` to `new_len`: a longer vector is cut back, a
/// shorter one is padded with copies of `value`.
pub fn resize_with_value<T: Copy>(v: &mut Vec<T>, new_len: usize, value: T)
    ensures
        final(v)@.len() == new_len,
        forall|i: int|
            0 <= i < new_len ==> #[trigger] final(v)@[i] == if i < old(v)@.len() {
                old(v)@[i]
            } else {
                value
            },
{
    if new_len <= v.len() {
        v.truncate(new_len);
    } else {
        while v.len() < new_len
            invariant
                old(v)@.len() <= v@.len() <= new_len,
                forall|i: int|
                    0 <= i < v@.len() ==> #[trigger] v@[i] == if i < old(v)@.len() {
                        old(v)@[i]
                    } else {
                        value
                    },
            decreases new_len - v@.len(),
        {
            v.push(value);
        }
    }
}

} // verus!
