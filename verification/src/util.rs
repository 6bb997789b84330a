//! Small helpers on byte vectors.

use vstd::prelude::*;

verus! {

/// Appends every byte of `other` to `buf`.
pub fn extend_bytes(buf: &mut Vec<u8>, other: &[u8])
    ensures
        final(buf)@ == old(buf)@ + other@,
{
    let mut i: usize = 0;
    while i < other.len()
        invariant
            i <= other@.len(),
            buf@ == old(buf)@ + other@.subrange(0, i as int),
        decreases other@.len() - i,
    {
        let ghost prev = buf@;
        buf.push(other[i]);
        i = i + 1;
        assert(buf@ =~= old(buf)@ + other@.subrange(0, i as int));
    }
    assert(buf@ =~= old(buf)@ + other@);
}

/// The bytes of `src` from `from` (inclusive) to `to` (exclusive), as a
/// fresh vector.
pub fn copy_range(src: &[u8], from: usize, to: usize) -> (out: Vec<u8>)
    requires
        from <= to <= src@.len(),
    ensures
        out@ == src@.subrange(from as int, to as int),
{
    let sub = vstd::slice::slice_subrange(src, from, to);
    vstd::slice::slice_to_vec(sub)
}

} // verus!
