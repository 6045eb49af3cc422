//! The IVFC hash level: a byte-addressed region whose blocks are
//! SHA-256-verified on first read and re-hashed on commit. The digests
//! live in a separate hash region of 32 bytes per block; a two-bit
//! in-memory status per block tracks Unverified / Verified / Modified.

use crate::bytes::{copy_into, sub_bytes, vecs_equal, zeros};
use crate::error::Error;
use crate::hash::{sha256, sha256_of};
use vstd::arithmetic::div_mod::*;
use vstd::arithmetic::mul::*;
use vstd::prelude::*;

verus! {

pub const BLOCK_UNVERIFIED: u8 = 0;

pub const BLOCK_VERIFIED: u8 = 1;

pub const BLOCK_MODIFIED: u8 = 2;

/// Number of blocks that cover `len` bytes at `block_len` bytes per block.
pub open spec fn block_count_of(len: int, block_len: int) -> int {
    if len == 0 {
        0
    } else {
        1 + (len - 1) / block_len
    }
}

/// Number of packed status bytes (four two-bit entries each) for `bc` blocks.
pub open spec fn chunk_count_of(bc: int) -> int {
    if bc == 0 {
        0
    } else {
        1 + (bc - 1) / 4
    }
}

/// Whether block `i` intersects the byte range `[pos, pos + n)`.
pub open spec fn block_touched(pos: int, n: int, block_len: int, i: int) -> bool {
    n > 0 && pos / block_len <= i < 1 + (pos + n - 1) / block_len
}

pub open spec fn min_int(a: int, b: int) -> int {
    if a < b {
        a
    } else {
        b
    }
}

/// The start of block `i` lies inside the data region.
proof fn lemma_block_start_in_range(len: int, bl: int, i: int)
    requires
        bl > 0,
        0 < len,
        0 <= i < block_count_of(len, bl),
    ensures
        i * bl >= 0,
        i * bl <= len - 1,
        (i + 1) * bl == i * bl + bl,
{
    let q = (len - 1) / bl;
    lemma_fundamental_div_mod(len - 1, bl);
    lemma_mul_inequality(i, q, bl);
    assert(q * bl == bl * q) by (nonlinear_arith);
    assert((i + 1) * bl == i * bl + bl) by (nonlinear_arith);
    assert(i * bl >= 0) by (nonlinear_arith)
        requires
            i >= 0,
            bl >= 0,
    ;
}

pub struct IvfcLevel {
    pub hash: Vec<u8>,
    pub data: Vec<u8>,
    pub block_len: usize,
    pub status: Vec<u8>,
}

impl IvfcLevel {
    pub open spec fn block_count(self) -> int {
        block_count_of(self.data@.len() as int, self.block_len as int)
    }

    /// The two-bit status of block `i`, read out of the packed array.
    pub open spec fn status_of(self, i: int) -> u8 {
        (self.status@[i / 4] >> ((2 * (i % 4)) as u8)) & 3
    }

    pub open spec fn wf(self) -> bool {
        &&& self.block_len > 0
        &&& self.hash@.len() == self.block_count() * 32
        &&& self.status@.len() == chunk_count_of(self.block_count())
        &&& forall|i: int| 0 <= i < self.block_count() ==> self.status_of(i) <= 2
    }

    /// The full-size content of block `i`: its bytes of the data region,
    /// zero-padded at the tail when the last block is short.
    pub open spec fn padded_block(self, i: int) -> Seq<u8> {
        let lo = i * self.block_len;
        let hi = min_int((i + 1) * self.block_len, self.data@.len() as int);
        self.data@.subrange(lo, hi) + Seq::new((self.block_len - (hi - lo)) as nat, |j: int| 0u8)
    }

    /// The digest stored for block `i` in the hash region.
    pub open spec fn stored_digest(self, i: int) -> Seq<u8> {
        self.hash@.subrange(32 * i, 32 * i + 32)
    }

    /// Block `i` passes verification on its next read: either it needs no
    /// check, or its stored digest matches its data.
    pub open spec fn block_ok(self, i: int) -> bool {
        self.status_of(i) != BLOCK_UNVERIFIED || self.stored_digest(i) == sha256_of(
            self.padded_block(i),
        )
    }

    /// Every block marked Verified carries a digest matching its data.
    pub open spec fn hash_consistent(self) -> bool {
        forall|i: int|
            0 <= i < self.block_count() && self.status_of(i) == BLOCK_VERIFIED
                ==> self.stored_digest(i) == sha256_of(self.padded_block(i))
    }

    /// A buffer that holds a block's bytes, zero-padded at the tail, is
    /// that block's padded content.
    proof fn lemma_loaded_block(self, i: int, bb: Seq<u8>)
        requires
            self.wf(),
            0 <= i < self.block_count(),
            bb.len() == self.block_len,
            forall|j: int|
                0 <= j < min_int(
                    self.data@.len() - i * self.block_len,
                    self.block_len as int,
                ) ==> bb[j] == self.data@[i * self.block_len + j],
            forall|j: int|
                min_int(self.data@.len() - i * self.block_len, self.block_len as int) <= j
                    < self.block_len ==> bb[j] == 0u8,
        ensures
            bb == self.padded_block(i),
    {
        let bl = self.block_len as int;
        let len = self.data@.len() as int;
        lemma_block_start_in_range(len, bl, i);
        assert(bb =~= self.padded_block(i));
    }

    /// Wrap a data region and its hash region. Every block starts out
    /// Unverified; nothing is hashed until it is read or committed.
    pub fn new(hash: Vec<u8>, data: Vec<u8>, block_len: usize) -> (r: IvfcLevel)
        requires
            block_len > 0,
            hash@.len() == block_count_of(data@.len() as int, block_len as int) * 32,
        ensures
            r.wf(),
            r.hash@ == hash@,
            r.data@ == data@,
            r.block_len == block_len,
            forall|i: int| 0 <= i < r.block_count() ==> r.status_of(i) == BLOCK_UNVERIFIED,
    {
        let len = data.len();
        let block_count = if len == 0 {
            0
        } else {
            1 + (len - 1) / block_len
        };
        let chunk_count = if block_count == 0 {
            0
        } else {
            1 + (block_count - 1) / 4
        };
        let status = zeros(chunk_count);
        let r = IvfcLevel { hash, data, block_len, status };
        proof {
            assert forall|i: int| 0 <= i < r.block_count() implies r.status_of(i)
                == BLOCK_UNVERIFIED by {
                lemma_div_is_ordered(i, r.block_count() - 1, 4);
                let k = (2 * (i % 4)) as u8;
                assert(((0u8 >> k) & 3) == 0) by (bit_vector);
            }
        }
        r
    }

    pub fn len(&self) -> (r: usize)
        ensures
            r == self.data@.len(),
    {
        self.data.len()
    }

    /// The two-bit status of one block.
    pub fn get_status(&self, block_index: usize) -> (r: u8)
        requires
            self.wf(),
            block_index < self.block_count(),
        ensures
            r == self.status_of(block_index as int),
    {
        proof {
            lemma_div_is_ordered(block_index as int, self.block_count() - 1, 4);
        }
        let chunk = self.status[block_index / 4];
        (chunk >> (((block_index % 4) * 2) as u8)) & 3
    }

    /// Set the two-bit status of one block, leaving every other block alone.
    pub fn set_status(&mut self, block_index: usize, st: u8)
        requires
            old(self).wf(),
            block_index < old(self).block_count(),
            st <= 2,
        ensures
            final(self).wf(),
            final(self).hash@ == old(self).hash@,
            final(self).data@ == old(self).data@,
            final(self).block_len == old(self).block_len,
            final(self).status@.len() == old(self).status@.len(),
            final(self).status_of(block_index as int) == st,
            forall|j: int|
                0 <= j < old(self).block_count() && j != block_index ==> final(self).status_of(j)
                    == old(self).status_of(j),
    {
        proof {
            lemma_div_is_ordered(block_index as int, self.block_count() - 1, 4);
        }
        let i = block_index / 4;
        let j = ((block_index % 4) * 2) as u8;
        let c = self.status[i];
        let c2 = (c & !(3u8 << j)) | (st << j);
        self.status.set(i, c2);
        proof {
            let bi = block_index as int;
            let m = block_index % 4;
            assert(m == 0 || m == 1 || m == 2 || m == 3);
            assert(j == 0 || j == 2 || j == 4 || j == 6);
            assert((((c & !(3u8 << j)) | (st << j)) >> j) & 3 == st) by (bit_vector)
                requires
                    j == 0u8 || j == 2u8 || j == 4u8 || j == 6u8,
                    st <= 2u8,
            ;
            assert forall|j2: int|
                0 <= j2 < old(self).block_count() && j2 != bi implies self.status_of(j2) == old(self).status_of(j2) by {
                lemma_div_is_ordered(j2, old(self).block_count() - 1, 4);
                if j2 / 4 == bi / 4 {
                    lemma_fundamental_div_mod(j2, 4);
                    lemma_fundamental_div_mod(bi as int, 4);
                    let m2 = j2 % 4;
                    assert(m2 == 0 || m2 == 1 || m2 == 2 || m2 == 3);
                    assert(m2 != m);
                    let k = (2 * (j2 % 4)) as u8;
                    assert(k == 0 || k == 2 || k == 4 || k == 6);
                    assert(k != j);
                    assert((((c & !(3u8 << j)) | (st << j)) >> k) & 3 == (c >> k) & 3)
                        by (bit_vector)
                        requires
                            j == 0u8 || j == 2u8 || j == 4u8 || j == 6u8,
                            k == 0u8 || k == 2u8 || k == 4u8 || k == 6u8,
                            j != k,
                            st <= 2u8,
                    ;
                }
            }
        }
    }

    /// Read `buf.len()` bytes at `pos`. Every intersected block that is
    /// still Unverified is SHA-256-checked against its stored digest
    /// first; a mismatch aborts the read with `HashMismatch` and leaves
    /// that block Unverified, so the caller may retry.
    #[verifier::loop_isolation(false)]
    pub fn read(&mut self, pos: usize, buf: &mut Vec<u8>) -> (r: Result<(), Error>)
        requires
            old(self).wf(),
        ensures
            final(self).wf(),
            final(self).hash@ == old(self).hash@,
            final(self).data@ == old(self).data@,
            final(self).block_len == old(self).block_len,
            final(buf)@.len() == old(buf)@.len(),
            old(self).hash_consistent() ==> final(self).hash_consistent(),
            (r is Ok) <==> (pos + old(buf)@.len() <= old(self).data@.len() && forall|i: int|
                block_touched(
                    pos as int,
                    old(buf)@.len() as int,
                    old(self).block_len as int,
                    i,
                ) ==> old(self).block_ok(i)),
            r is Ok ==> final(buf)@ == old(self).data@.subrange(
                pos as int,
                pos + old(buf)@.len(),
            ),
            (r == Err::<(), Error>(Error::OutOfBound)) <==> pos + old(buf)@.len() > old(self).data@.len(),
            r is Err ==> (r == Err::<(), Error>(Error::OutOfBound) || r == Err::<(), Error>(
                Error::HashMismatch,
            )),
            forall|i: int|
                0 <= i < old(self).block_count() ==> final(self).status_of(i) == old(self).status_of(i) || (block_touched(
                    pos as int,
                    old(buf)@.len() as int,
                    old(self).block_len as int,
                    i,
                ) && old(self).status_of(i) == BLOCK_UNVERIFIED && old(self).block_ok(i) && final(self).status_of(i) == BLOCK_VERIFIED),
            r is Ok ==> forall|i: int|
                0 <= i < old(self).block_count() && block_touched(
                    pos as int,
                    old(buf)@.len() as int,
                    old(self).block_len as int,
                    i,
                ) ==> final(self).status_of(i) != BLOCK_UNVERIFIED,
    {
        let n = buf.len();
        let len = self.data.len();
        if n > len || pos > len - n {
            return Err(Error::OutOfBound);
        }
        if n == 0 {
            proof {
                assert(buf@ =~= old(self).data@.subrange(pos as int, pos as int));
            }
            return Ok(());
        }
        let bl = self.block_len;
        let begin_block = pos / bl;
        let end_block = 1 + (pos + n - 1) / bl;
        proof {
            lemma_div_is_ordered((pos + n - 1) as int, (len - 1) as int, bl as int);
            lemma_div_is_ordered(pos as int, (pos + n - 1) as int, bl as int);
        }
        let mut i = begin_block;
        while i < end_block
            invariant
                begin_block <= i <= end_block,
                self.wf(),
                self.hash@ == old(self).hash@,
                self.data@ == old(self).data@,
                self.block_len == old(self).block_len,
                forall|j: int| begin_block <= j < i ==> old(self).block_ok(j),
                forall|j: int|
                    begin_block <= j < i ==> self.status_of(j) == (if old(self).status_of(j)
                        == BLOCK_UNVERIFIED {
                        BLOCK_VERIFIED
                    } else {
                        old(self).status_of(j)
                    }),
                forall|j: int|
                    0 <= j < old(self).block_count() && !(begin_block <= j < i) ==> self.status_of(
                        j,
                    ) == old(self).status_of(j),
                old(self).hash_consistent() ==> self.hash_consistent(),
            decreases end_block - i,
        {
            if self.get_status(i) == BLOCK_UNVERIFIED {
                let _hlen: usize = self.hash.len();
                proof {
                    lemma_block_start_in_range(len as int, bl as int, i as int);
                }
                let lo = i * bl;
                let take = if len - lo < bl {
                    len - lo
                } else {
                    bl
                };
                let mut block_buf = zeros(bl);
                copy_into(&mut block_buf, 0, &self.data, lo, take);
                proof {
                    self.lemma_loaded_block(i as int, block_buf@);
                }
                let digest = sha256(&block_buf);
                let stored = sub_bytes(&self.hash, i * 32, 32);
                if !vecs_equal(&digest, &stored) {
                    proof {
                        assert(!old(self).block_ok(i as int));
                    }
                    return Err(Error::HashMismatch);
                }
                self.set_status(i, BLOCK_VERIFIED);
            }
            proof {
                assert(old(self).block_ok(i as int));
            }
            i = i + 1;
        }
        let mut k: usize = 0;
        while k < n
            invariant
                k <= n,
                buf@.len() == n,
                forall|j: int| 0 <= j < k ==> buf@[j] == self.data@[pos + j],
            decreases n - k,
        {
            let v = self.data[pos + k];
            buf.set(k, v);
            k = k + 1;
        }
        proof {
            assert(buf@ =~= old(self).data@.subrange(pos as int, pos + n));
        }
        Ok(())
    }

    /// Write the bytes through to the data region and mark every
    /// intersected block Modified; nothing is hashed until commit.
    #[verifier::loop_isolation(false)]
    pub fn write(&mut self, pos: usize, buf: &Vec<u8>) -> (r: Result<(), Error>)
        requires
            old(self).wf(),
        ensures
            final(self).wf(),
            final(self).hash@ == old(self).hash@,
            final(self).block_len == old(self).block_len,
            final(self).data@.len() == old(self).data@.len(),
            (r is Ok) <==> pos + buf@.len() <= old(self).data@.len(),
            r is Err ==> r == Err::<(), Error>(Error::OutOfBound)
                && final(self).data@ == old(self).data@
                && final(self).status@ == old(self).status@,
            r is Ok ==> forall|i: int|
                pos <= i < pos + buf@.len() ==> final(self).data@[i] == buf@[i - pos],
            r is Ok ==> forall|i: int|
                0 <= i < old(self).data@.len() && !(pos <= i < pos + buf@.len())
                    ==> final(self).data@[i] == old(self).data@[i],
            r is Ok ==> forall|i: int|
                0 <= i < old(self).block_count() && block_touched(
                    pos as int,
                    buf@.len() as int,
                    old(self).block_len as int,
                    i,
                ) ==> final(self).status_of(i) == BLOCK_MODIFIED,
            forall|i: int|
                0 <= i < old(self).block_count() && !block_touched(
                    pos as int,
                    buf@.len() as int,
                    old(self).block_len as int,
                    i,
                ) ==> final(self).status_of(i) == old(self).status_of(i),
            old(self).hash_consistent() ==> final(self).hash_consistent(),
    {
        let n = buf.len();
        let len = self.data.len();
        if n > len || pos > len - n {
            return Err(Error::OutOfBound);
        }
        if n == 0 {
            return Ok(());
        }
        let bl = self.block_len;
        let begin_block = pos / bl;
        let end_block = 1 + (pos + n - 1) / bl;
        proof {
            lemma_div_is_ordered((pos + n - 1) as int, (len - 1) as int, bl as int);
            lemma_div_is_ordered(pos as int, (pos + n - 1) as int, bl as int);
        }
        copy_into(&mut self.data, pos, buf, 0, n);
        proof {
            assert forall|ii: int| 0 <= ii < self.block_count() implies self.status_of(ii)
                <= 2 by {
                assert(old(self).status_of(ii) <= 2);
            }
            assert(self.wf());
        }
        let mut i = begin_block;
        while i < end_block
            invariant
                begin_block <= i <= end_block,
                self.wf(),
                self.hash@ == old(self).hash@,
                self.block_len == old(self).block_len,
                self.data@.len() == old(self).data@.len(),
                forall|j: int|
                    pos <= j < pos + n ==> self.data@[j] == buf@[j - pos],
                forall|j: int|
                    0 <= j < old(self).data@.len() && !(pos <= j < pos + n) ==> self.data@[j]
                        == old(self).data@[j],
                forall|j: int| begin_block <= j < i ==> self.status_of(j) == BLOCK_MODIFIED,
                forall|j: int|
                    0 <= j < old(self).block_count() && !(begin_block <= j < i)
                        ==> self.status_of(j) == old(self).status_of(j),
            decreases end_block - i,
        {
            self.set_status(i, BLOCK_MODIFIED);
            i = i + 1;
        }
        proof {
            self.lemma_untouched_blocks_unchanged(*old(self), pos as int, n as int);
        }
        Ok(())
    }

    /// Blocks outside a written range keep their padded content.
    proof fn lemma_untouched_blocks_unchanged(self, prev: IvfcLevel, pos: int, n: int)
        requires
            prev.wf(),
            self.wf(),
            self.block_len == prev.block_len,
            self.data@.len() == prev.data@.len(),
            0 <= pos,
            n > 0,
            pos + n <= prev.data@.len(),
            forall|j: int|
                0 <= j < prev.data@.len() && !(pos <= j < pos + n) ==> self.data@[j]
                    == prev.data@[j],
        ensures
            forall|i: int|
                0 <= i < prev.block_count() && !block_touched(pos, n, prev.block_len as int, i)
                    ==> self.padded_block(i) == prev.padded_block(i),
    {
        let bl = prev.block_len as int;
        let len = prev.data@.len() as int;
        assert forall|i: int|
            0 <= i < prev.block_count() && !block_touched(pos, n, bl, i) implies self.padded_block(
            i,
        ) == prev.padded_block(i) by {
            let begin_block = pos / bl;
            let end_block = 1 + (pos + n - 1) / bl;
            lemma_block_start_in_range(len, bl, i);
            if i < begin_block {
                lemma_mul_inequality(i + 1, begin_block, bl);
                lemma_fundamental_div_mod(pos, bl);
                assert(begin_block * bl == bl * begin_block) by (nonlinear_arith);
            } else {
                let q2 = (pos + n - 1) / bl;
                lemma_fundamental_div_mod(pos + n - 1, bl);
                assert(q2 * bl == bl * q2) by (nonlinear_arith);
                assert(end_block * bl == q2 * bl + bl) by (nonlinear_arith)
                    requires
                        end_block == q2 + 1,
                ;
                lemma_mul_inequality(end_block, i, bl);
            }
            let lo = i * bl;
            let hi = min_int((i + 1) * bl, len);
            assert(lo <= len - 1);
            assert(lo <= hi <= len);
            assert(self.padded_block(i).len() == bl);
            assert(prev.padded_block(i).len() == bl);
            assert forall|k: int| 0 <= k < bl implies self.padded_block(i)[k]
                == prev.padded_block(i)[k] by {
                if k < hi - lo {
                    assert(self.padded_block(i)[k] == self.data@[lo + k]);
                    assert(prev.padded_block(i)[k] == prev.data@[lo + k]);
                    if i < begin_block {
                        assert(lo + k < pos);
                    } else {
                        assert(lo + k >= pos + n);
                    }
                    assert(self.data@[lo + k] == prev.data@[lo + k]);
                }
            }
            assert(self.padded_block(i) =~= prev.padded_block(i));
        }
    }

    /// Re-hash every Modified block, store the fresh digest in the hash
    /// region, and mark the block Verified. Unverified blocks are left
    /// alone: what was never read or written is never hashed.
    #[verifier::loop_isolation(false)]
    pub fn commit(&mut self) -> (r: Result<(), Error>)
        requires
            old(self).wf(),
        ensures
            final(self).wf(),
            r is Ok,
            final(self).data@ == old(self).data@,
            final(self).block_len == old(self).block_len,
            final(self).hash@.len() == old(self).hash@.len(),
            forall|i: int|
                0 <= i < old(self).block_count() && old(self).status_of(i) == BLOCK_MODIFIED
                    ==> final(self).stored_digest(i) == sha256_of(old(self).padded_block(i))
                    && final(self).status_of(i) == BLOCK_VERIFIED,
            forall|i: int|
                0 <= i < old(self).block_count() && old(self).status_of(i) != BLOCK_MODIFIED
                    ==> final(self).stored_digest(i) == old(self).stored_digest(i)
                    && final(self).status_of(i) == old(self).status_of(i),
            old(self).hash_consistent() ==> final(self).hash_consistent(),
    {
        let len = self.data.len();
        if len == 0 {
            return Ok(());
        }
        let bl = self.block_len;
        let block_count = 1 + (len - 1) / bl;
        let mut i: usize = 0;
        while i < block_count
            invariant
                i <= block_count,
                self.wf(),
                self.data@ == old(self).data@,
                self.block_len == old(self).block_len,
                self.hash@.len() == old(self).hash@.len(),
                forall|j: int|
                    0 <= j < i && old(self).status_of(j) == BLOCK_MODIFIED ==> self.stored_digest(
                        j,
                    ) == sha256_of(old(self).padded_block(j)) && self.status_of(j)
                        == BLOCK_VERIFIED,
                forall|j: int|
                    0 <= j < old(self).block_count() && !(0 <= j < i && old(self).status_of(j)
                        == BLOCK_MODIFIED) ==> self.stored_digest(j) == old(self).stored_digest(j)
                        && self.status_of(j) == old(self).status_of(j),
                old(self).hash_consistent() ==> self.hash_consistent(),
            decreases block_count - i,
        {
            if self.get_status(i) == BLOCK_MODIFIED {
                let ghost prev = *self;
                let _hlen: usize = self.hash.len();
                proof {
                    lemma_block_start_in_range(len as int, bl as int, i as int);
                }
                let lo = i * bl;
                let take = if len - lo < bl {
                    len - lo
                } else {
                    bl
                };
                let mut block_buf = zeros(bl);
                copy_into(&mut block_buf, 0, &self.data, lo, take);
                proof {
                    self.lemma_loaded_block(i as int, block_buf@);
                }
                let digest = sha256(&block_buf);
                copy_into(&mut self.hash, i * 32, &digest, 0, 32);
                proof {
                    assert forall|ii: int| 0 <= ii < self.block_count() implies self.status_of(ii)
                        <= 2 by {
                        assert(prev.status_of(ii) <= 2);
                    }
                    assert(self.wf());
                    assert(self.stored_digest(i as int) =~= digest@);
                    assert forall|j: int|
                        0 <= j < prev.block_count() && j != i implies self.stored_digest(j)
                        == prev.stored_digest(j) by {
                        assert(self.stored_digest(j) =~= prev.stored_digest(j));
                    }
                }
                self.set_status(i, BLOCK_VERIFIED);
                proof {
                    if old(self).hash_consistent() {
                        assert forall|j: int|
                            0 <= j < self.block_count() && self.status_of(j)
                            == BLOCK_VERIFIED implies self.stored_digest(j) == sha256_of(
                            self.padded_block(j),
                        ) by {
                            assert(self.padded_block(j) == prev.padded_block(j));
                            if j == i as int {
                                assert(self.stored_digest(j) == digest@);
                            } else {
                                assert(self.status_of(j) == prev.status_of(j));
                                assert(self.stored_digest(j) == prev.stored_digest(j));
                                assert(prev.stored_digest(j) == sha256_of(prev.padded_block(j)));
                            }
                        }
                    }
                }
            }
            i = i + 1;
        }
        Ok(())
    }
}

/// IVFC round-trip: a commit leaves every once-written block Verified
/// with a digest matching the data region, and a fresh open over the
/// same hash and data regions then passes verification for every such
/// block, so reading it returns exactly the bytes last written.
pub proof fn lemma_ivfc_round_trip(committed: IvfcLevel, reopened: IvfcLevel)
    requires
        committed.wf(),
        committed.hash_consistent(),
        reopened.wf(),
        reopened.hash@ == committed.hash@,
        reopened.data@ == committed.data@,
        reopened.block_len == committed.block_len,
    ensures
        forall|i: int|
            0 <= i < committed.block_count() && committed.status_of(i) == BLOCK_VERIFIED
                ==> reopened.block_ok(i),
{
    assert forall|i: int|
        0 <= i < committed.block_count() && committed.status_of(i) == BLOCK_VERIFIED
            implies reopened.block_ok(i) by {
        assert(reopened.stored_digest(i) == committed.stored_digest(i));
        assert(reopened.padded_block(i) == committed.padded_block(i));
        if reopened.status_of(i) == BLOCK_UNVERIFIED {
            assert(reopened.stored_digest(i) == sha256_of(reopened.padded_block(i)));
        }
    }
}

} // verus!
