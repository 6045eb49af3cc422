//! Little-endian integer codecs and byte-region helpers. Every on-disk
//! structure of the save format is read and written through these.

use vstd::prelude::*;

verus! {

/// The value of the four little-endian bytes of `s` starting at `i`.
pub open spec fn le32(s: Seq<u8>, i: int) -> int {
    s[i] + s[i + 1] * 0x100 + s[i + 2] * 0x10000 + s[i + 3] * 0x1000000
}

/// The value of the eight little-endian bytes of `s` starting at `i`.
pub open spec fn le64(s: Seq<u8>, i: int) -> int {
    le32(s, i) + le32(s, i + 4) * 0x1_0000_0000
}

/// Read a little-endian u32 at `pos`.
pub fn read_u32_le(b: &Vec<u8>, pos: usize) -> (r: u32)
    requires
        pos + 4 <= b@.len(),
    ensures
        r == le32(b@, pos as int),
{
    let _len: usize = b.len();
    let b0 = b[pos] as u32;
    let b1 = b[pos + 1] as u32;
    let b2 = b[pos + 2] as u32;
    let b3 = b[pos + 3] as u32;
    b0 + b1 * 0x100 + b2 * 0x10000 + b3 * 0x1000000
}

/// Read a little-endian u64 at `pos`.
pub fn read_u64_le(b: &Vec<u8>, pos: usize) -> (r: u64)
    requires
        pos + 8 <= b@.len(),
    ensures
        r == le64(b@, pos as int),
{
    let _len: usize = b.len();
    let lo = read_u32_le(b, pos) as u64;
    let hi = read_u32_le(b, pos + 4) as u64;
    lo + hi * 0x1_0000_0000
}

/// Write `v` as four little-endian bytes at `pos`.
pub fn write_u32_le(b: &mut Vec<u8>, pos: usize, v: u32)
    requires
        pos + 4 <= old(b)@.len(),
    ensures
        final(b)@.len() == old(b)@.len(),
        le32(final(b)@, pos as int) == v,
        forall|i: int| 0 <= i < old(b)@.len() && !(pos <= i < pos + 4) ==> final(b)@[i] == old(b)@[i],
{
    let _len: usize = b.len();
    proof {
        assert((v & 0xff) < 0x100 && ((v >> 8) & 0xff) < 0x100 && ((v >> 16) & 0xff) < 0x100
            && ((v >> 24) & 0xff) < 0x100
            && (v & 0xff) + ((v >> 8) & 0xff) * 0x100 + ((v >> 16) & 0xff) * 0x10000 + ((v
            >> 24) & 0xff) * 0x1000000 == v) by (bit_vector);
    }
    let b0 = (v & 0xff) as u8;
    let b1 = ((v >> 8) & 0xff) as u8;
    let b2 = ((v >> 16) & 0xff) as u8;
    let b3 = ((v >> 24) & 0xff) as u8;
    b.set(pos, b0);
    b.set(pos + 1, b1);
    b.set(pos + 2, b2);
    b.set(pos + 3, b3);
}

/// Write `v` as eight little-endian bytes at `pos`.
pub fn write_u64_le(b: &mut Vec<u8>, pos: usize, v: u64)
    requires
        pos + 8 <= old(b)@.len(),
    ensures
        final(b)@.len() == old(b)@.len(),
        le64(final(b)@, pos as int) == v,
        forall|i: int| 0 <= i < old(b)@.len() && !(pos <= i < pos + 8) ==> final(b)@[i] == old(b)@[i],
{
    let _len: usize = b.len();
    proof {
        assert((v & 0xffff_ffff) < 0x1_0000_0000 && (v >> 32) < 0x1_0000_0000 && (v
            & 0xffff_ffff) + (v >> 32) * 0x1_0000_0000 == v) by (bit_vector);
    }
    let lo = (v & 0xffff_ffff) as u32;
    let hi = (v >> 32) as u32;
    write_u32_le(b, pos, lo);
    write_u32_le(b, pos + 4, hi);
}

/// Copy `n` bytes from `src[src_off..]` into `dst[dst_off..]`.
#[verifier::loop_isolation(false)]
pub fn copy_into(dst: &mut Vec<u8>, dst_off: usize, src: &Vec<u8>, src_off: usize, n: usize)
    requires
        dst_off + n <= old(dst)@.len(),
        src_off + n <= src@.len(),
    ensures
        final(dst)@.len() == old(dst)@.len(),
        forall|i: int|
            dst_off <= i < dst_off + n ==> final(dst)@[i] == src@[src_off + (i - dst_off)],
        forall|i: int|
            0 <= i < old(dst)@.len() && !(dst_off <= i < dst_off + n) ==> final(dst)@[i] == old(
                dst,
            )@[i],
{
    let _dlen: usize = dst.len();
    let _slen: usize = src.len();
    let mut k: usize = 0;
    while k < n
        invariant
            k <= n,
            dst_off + n <= dst@.len(),
            src_off + n <= src@.len(),
            dst@.len() == old(dst)@.len(),
            forall|i: int| dst_off <= i < dst_off + k ==> dst@[i] == src@[src_off + (i - dst_off)],
            forall|i: int|
                0 <= i < old(dst)@.len() && !(dst_off <= i < dst_off + k) ==> dst@[i] == old(
                    dst,
                )@[i],
        decreases n - k,
    {
        let v = src[src_off + k];
        dst.set(dst_off + k, v);
        k = k + 1;
    }
}

/// A fresh copy of `src[off..off + n]`.
#[verifier::loop_isolation(false)]
pub fn sub_bytes(src: &Vec<u8>, off: usize, n: usize) -> (r: Vec<u8>)
    requires
        off + n <= src@.len(),
    ensures
        r@ == src@.subrange(off as int, off + n),
{
    let _slen: usize = src.len();
    let mut r: Vec<u8> = Vec::new();
    let mut k: usize = 0;
    while k < n
        invariant
            k <= n,
            off + n <= src@.len(),
            r@.len() == k,
            forall|i: int| 0 <= i < k ==> r@[i] == src@[off + i],
        decreases n - k,
    {
        r.push(src[off + k]);
        k = k + 1;
    }
    proof {
        assert(r@ =~= src@.subrange(off as int, off + n));
    }
    r
}

/// A vector of `n` zero bytes.
#[verifier::loop_isolation(false)]
pub fn zeros(n: usize) -> (r: Vec<u8>)
    ensures
        r@.len() == n,
        forall|i: int| 0 <= i < n ==> r@[i] == 0u8,
{
    let mut r: Vec<u8> = Vec::new();
    let mut k: usize = 0;
    while k < n
        invariant
            k <= n,
            r@.len() == k,
            forall|i: int| 0 <= i < k ==> r@[i] == 0u8,
        decreases n - k,
    {
        r.push(0u8);
        k = k + 1;
    }
    r
}

/// Byte-exact comparison of two vectors.
#[verifier::loop_isolation(false)]
pub fn vecs_equal(a: &Vec<u8>, b: &Vec<u8>) -> (r: bool)
    ensures
        r <==> a@ == b@,
{
    if a.len() != b.len() {
        assert(a@ != b@);
        return false;
    }
    let n = a.len();
    let mut k: usize = 0;
    while k < n
        invariant
            k <= n,
            n == a@.len(),
            n == b@.len(),
            forall|i: int| 0 <= i < k ==> a@[i] == b@[i],
        decreases n - k,
    {
        if a[k] != b[k] {
            assert(a@ != b@);
            return false;
        }
        k = k + 1;
    }
    proof {
        assert(a@ =~= b@);
    }
    true
}

} // verus!
