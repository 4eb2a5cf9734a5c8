//! Byte-level helpers shared by the wire codecs.
use vstd::prelude::*;

verus! {

/// Append every byte of `src` to the end of `dst`.
pub fn append_bytes(dst: &mut Vec<u8>, src: &[u8])
    ensures
        final(dst)@ == old(dst)@ + src@,
{
    let ghost before = dst@;
    let mut i: usize = 0;
    while i < src.len()
        invariant
            i <= src@.len(),
            dst@ == before + src@.subrange(0, i as int),
        decreases src@.len() - i,
    {
        dst.push(src[i]);
        i = i + 1;
        proof {
            assert(src@.subrange(0, i as int) == src@.subrange(0, i - 1) + seq![src@[i - 1]]);
        }
    }
    proof {
        assert(src@.subrange(0, src@.len() as int) == src@);
    }
}

} // verus!

verus! {

/// Overwrite the whole of `a` with the bytes of `s`.
pub fn fill_array<const N: usize>(a: &mut [u8; N], s: &[u8])
    requires
        s@.len() == N,
    ensures
        final(a)@ == s@,
{
    let mut i: usize = 0;
    while i < N
        invariant
            i <= N,
            s@.len() == N,
            a@.len() == N,
            forall|j: int| 0 <= j < i ==> a@[j] == s@[j],
        decreases N - i,
    {
        a[i] = s[i];
        i = i + 1;
    }
    proof {
        assert(a@ =~= s@);
    }
}

/// Byte-wise equality of two byte strings.
pub fn bytes_eq(a: &[u8], b: &[u8]) -> (r: bool)
    ensures
        r == (a@ == b@),
{
    if a.len() != b.len() {
        return false;
    }
    let mut i: usize = 0;
    while i < a.len()
        invariant
            i <= a@.len(),
            a@.len() == b@.len(),
            forall|j: int| 0 <= j < i ==> a@[j] == b@[j],
        decreases a@.len() - i,
    {
        if a[i] != b[i] {
            return false;
        }
        i = i + 1;
    }
    proof {
        assert(a@ =~= b@);
    }
    true
}

/// Whether every byte of `s` is zero.
pub open spec fn all_zero(s: Seq<u8>) -> bool {
    forall|i: int| 0 <= i < s.len() ==> s[i] == 0
}

/// `n` zero bytes.
pub open spec fn zeros(n: nat) -> Seq<u8> {
    Seq::new(n, |i: int| 0u8)
}

/// A vector of `n` zero bytes.
pub fn zero_vec(n: usize) -> (v: Vec<u8>)
    ensures
        v@ == zeros(n as nat),
{
    let mut v: Vec<u8> = Vec::new();
    let mut i: usize = 0;
    while i < n
        invariant
            i <= n,
            v@ == zeros(i as nat),
        decreases n - i,
    {
        v.push(0u8);
        i = i + 1;
        proof {
            assert(v@ =~= zeros(i as nat));
        }
    }
    v
}

/// Copy of the bytes `s[start..end]` into a fresh vector.
pub fn copy_range(s: &[u8], start: usize, end: usize) -> (v: Vec<u8>)
    requires
        start <= end <= s@.len(),
    ensures
        v@ == s@.subrange(start as int, end as int),
{
    let mut v: Vec<u8> = Vec::new();
    let mut i: usize = start;
    while i < end
        invariant
            start <= i <= end,
            end <= s@.len(),
            v@ == s@.subrange(start as int, i as int),
        decreases end - i,
    {
        v.push(s[i]);
        i = i + 1;
        proof {
            assert(v@ =~= s@.subrange(start as int, i as int));
        }
    }
    v
}


/// `x` reduced modulo 2^32, as a `u32`.
pub open spec fn trunc32(x: int) -> u32 {
    (x % 0x1_0000_0000) as u32
}

/// The low 32 bits of a `usize`.
pub fn low32(x: usize) -> (r: u32)
    ensures
        r == trunc32(x as int),
{
    ((x as u64) % 0x1_0000_0000) as u32
}

/// The low 16 bits of a number.
pub open spec fn trunc16(x: int) -> u16 {
    (x % 0x1_0000) as u16
}

/// The low 16 bits of a `usize`.
pub fn low16(x: usize) -> (r: u16)
    ensures
        r == trunc16(x as int),
{
    ((x as u64) % 0x1_0000) as u16
}

} // verus!
