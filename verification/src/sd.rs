//! The computable core of SD save-file location: the hash input derived
//! from a file path and the counter derived from its digest. Walking the
//! host filesystem and the AES layer live with the outer tooling. The
//! only bound asked of a path is the machine limit: its widened
//! encoding must fit in a byte vector.

use crate::bytes::zeros;
use crate::hash::{sha256, sha256_of};
use vstd::prelude::*;

verus! {

/// A byte sequence expanded to UTF-16-style little-endian code units:
/// each byte followed by a zero byte.
pub open spec fn widened(s: Seq<u8>) -> Seq<u8> {
    Seq::new(2 * s.len(), |i: int| if i % 2 == 0 { s[i / 2] } else { 0u8 })
}

/// The narrow path string hashed for an SD save file: every component
/// prefixed by a slash, then a terminating zero byte.
pub open spec fn joined_path(parts: Seq<Seq<u8>>) -> Seq<u8>
    decreases parts.len(),
{
    if parts.len() == 0 {
        seq![0u8]
    } else {
        seq![0x2Fu8] + parts[0] + joined_path(parts.drop_first())
    }
}

/// Total byte count of the path components.
pub open spec fn sum_lens(parts: Seq<Seq<u8>>) -> int
    decreases parts.len(),
{
    if parts.len() == 0 {
        0
    } else {
        parts[0].len() + sum_lens(parts.drop_first())
    }
}

proof fn lemma_joined_len(parts: Seq<Seq<u8>>)
    ensures
        joined_path(parts).len() == 1 + parts.len() + sum_lens(parts),
    decreases parts.len(),
{
    if parts.len() == 0 {
    } else {
        lemma_joined_len(parts.drop_first());
    }
}

/// Build the widened hash input for a path, as the console hashes it.
#[verifier::loop_isolation(false)]
pub fn sd_path_hash_input(parts: &Vec<Vec<u8>>) -> (r: Vec<u8>)
    requires
        2 * (1 + parts@.len() + sum_lens(parts@.map_values(|v: Vec<u8>| v@))) <= usize::MAX,
    ensures
        r@ == widened(joined_path(parts@.map_values(|v: Vec<u8>| v@))),
{
    let mut narrow: Vec<u8> = Vec::new();
    let n = parts.len();
    proof {
        let m = parts@.map_values(|v: Vec<u8>| v@);
        assert(m.skip(0) =~= m);
        assert(narrow@ + joined_path(m) =~= joined_path(m));
    }
    let mut k: usize = 0;
    while k < n
        invariant
            k <= n,
            joined_path(parts@.map_values(|v: Vec<u8>| v@)) == narrow@ + joined_path(
                parts@.map_values(|v: Vec<u8>| v@).skip(k as int),
            ),
        decreases n - k,
    {
        proof {
            let m = parts@.map_values(|v: Vec<u8>| v@);
            assert(m.skip(k as int).len() > 0);
            assert(m.skip(k as int)[0] == m[k as int]);
            assert(m.skip(k as int).drop_first() =~= m.skip(k + 1));
        }
        let ghost pre = narrow@;
        narrow.push(0x2F);
        let part = &parts[k];
        let pl = part.len();
        let mut j: usize = 0;
        while j < pl
            invariant
                j <= pl,
                pl == part@.len(),
                narrow@ == pre + seq![0x2Fu8] + part@.subrange(0, j as int),
            decreases pl - j,
        {
            narrow.push(part[j]);
            proof {
                assert(narrow@ =~= pre + seq![0x2Fu8] + part@.subrange(0, j + 1));
            }
            j = j + 1;
        }
        proof {
            let m = parts@.map_values(|v: Vec<u8>| v@);
            assert(part@.subrange(0, pl as int) =~= m[k as int]);
            assert(narrow@ =~= pre + (seq![0x2Fu8] + m[k as int]));
            assert((pre + (seq![0x2Fu8] + m[k as int])) + joined_path(m.skip(k + 1)) =~= pre + ((
            seq![0x2Fu8] + m[k as int]) + joined_path(m.skip(k + 1))));
        }
        k = k + 1;
    }
    narrow.push(0);
    proof {
        let m = parts@.map_values(|v: Vec<u8>| v@);
        assert(m.skip(m.len() as int) =~= Seq::<Seq<u8>>::empty());
        assert(joined_path(Seq::<Seq<u8>>::empty()) == seq![0u8]);
        assert(narrow@ =~= joined_path(m));
        lemma_joined_len(m);
    }
    let nlen = narrow.len();
    let mut r = zeros(2 * nlen);
    let mut i: usize = 0;
    while i < nlen
        invariant
            i <= nlen,
            nlen == narrow@.len(),
            r@.len() == 2 * nlen,
            forall|t: int| 0 <= t < 2 * i ==> r@[t] == widened(narrow@)[t],
            forall|t: int| 2 * i <= t < 2 * nlen ==> r@[t] == 0u8,
        decreases nlen - i,
    {
        let b = narrow[i];
        r.set(2 * i, b);
        i = i + 1;
    }
    proof {
        assert(r@ =~= widened(narrow@));
    }
    r
}

/// Derive the 16-byte AES counter from a 32-byte digest: each byte of
/// the first half XORed with its partner in the second half.
pub fn ctr_from_digest(digest: &Vec<u8>) -> (r: [u8; 16])
    requires
        digest@.len() == 32,
    ensures
        forall|i: int| 0 <= i < 16 ==> r@[i] == (digest@[i] ^ digest@[i + 16]),
{
    let r =
        [(digest[0] ^ digest[16]), (digest[1] ^ digest[17]), (digest[2] ^ digest[18]), (digest[3]
            ^ digest[19]), (digest[4] ^ digest[20]), (digest[5] ^ digest[21]), (digest[6]
            ^ digest[22]), (digest[7] ^ digest[23]), (digest[8] ^ digest[24]), (digest[9]
            ^ digest[25]), (digest[10] ^ digest[26]), (digest[11] ^ digest[27]), (digest[12]
            ^ digest[28]), (digest[13] ^ digest[29]), (digest[14] ^ digest[30]), (digest[15]
            ^ digest[31])];
    r
}

/// The AES counter for an SD save file path: the digest of the widened
/// path, folded in half by XOR.
pub fn sd_path_ctr(parts: &Vec<Vec<u8>>) -> (r: [u8; 16])
    requires
        2 * (1 + parts@.len() + sum_lens(parts@.map_values(|v: Vec<u8>| v@))) <= usize::MAX,
    ensures
        ({
            let d = sha256_of(widened(joined_path(parts@.map_values(|v: Vec<u8>| v@))));
            forall|i: int| 0 <= i < 16 ==> r@[i] == (d[i] ^ d[i + 16])
        }),
{
    let input = sd_path_hash_input(parts);
    let digest = sha256(&input);
    ctr_from_digest(&digest)
}

} // verus!
