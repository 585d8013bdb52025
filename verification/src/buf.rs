//! Byte-buffer helpers shared by the encoder and the decoder.

use vstd::prelude::*;

verus! {

/// Appends every byte of `bytes` to the end of `out`.
pub fn append_bytes(out: &mut Vec<u8>, bytes: &[u8])
    ensures
        final(out)@ == old(out)@ + bytes@,
{
    let mut i: usize = 0;
    while i < bytes.len()
        invariant
            i <= bytes@.len(),
            out@ == old(out)@ + bytes@.subrange(0, i as int),
        decreases bytes@.len() - i,
    {
        out.push(bytes[i]);
        i = i + 1;
        assert(bytes@.subrange(0, i as int) == bytes@.subrange(0, (i - 1) as int).push(bytes@[i - 1]));
    }
    assert(bytes@.subrange(0, i as int) == bytes@);
}


/// The `N` bytes of `s` that start at `pos`, as an array.
pub fn copy_to_array<const N: usize>(s: &[u8], pos: usize) -> (r: [u8; N])
    requires
        pos + N <= s@.len(),
    ensures
        r@ == s@.subrange(pos as int, pos + N),
{
    let mut r = [0u8; N];
    let mut i: usize = 0;
    while i < N
        invariant
            i <= N,
            pos + N <= s.len(),
            r@.len() == N,
            forall|j: int| 0 <= j < i ==> r@[j] == s@[pos + j],
        decreases N - i,
    {
        r[i] = s[pos + i];
        i = i + 1;
    }
    assert(r@ =~= s@.subrange(pos as int, pos + N));
    r
}

/// Whether two 32-byte arrays hold the same bytes.
pub fn same_bytes(a: &[u8; 32], b: &[u8; 32]) -> (r: bool)
    ensures
        r == (a@ == b@),
{
    let mut i: usize = 0;
    while i < 32
        invariant
            i <= 32,
            a@.len() == 32,
            b@.len() == 32,
            forall|j: int| 0 <= j < i ==> a@[j] == b@[j],
        decreases 32 - i,
    {
        if a[i] != b[i] {
            return false;
        }
        i = i + 1;
    }
    assert(a@ =~= b@);
    true
}

} // verus!
