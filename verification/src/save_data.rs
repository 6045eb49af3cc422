//! Save-data assembly: the 32-byte header, the filesystem info block,
//! and the wiring of the FAT allocator and the metadata tables over one
//! or two container partitions, exposed as directory and file
//! operations. The outer container hands in plain partition images and
//! takes them back at commit.

use crate::bytes::{copy_into, le32, le64, read_u32_le, read_u64_le, sub_bytes};
use crate::ivfc::block_count_of;
use crate::error::Error;
use crate::fat::{Fat, FatFile};
use crate::fs_meta::FsMeta;
use crate::hash::{sha256, sha256_of};
use vstd::prelude::*;

verus! {

/// Length of the on-disk save header.
pub const HEADER_LEN: usize = 0x20;

/// The parsed 32-byte save header.
#[derive(Clone, Copy, Debug)]
pub struct SaveHeader {
    pub version: u32,
    pub fs_info_offset: u64,
    pub image_size: u64,
    pub image_block_len: u32,
}

/// The header magic, "SAVE" followed by version 0x00040000, is present.
pub open spec fn magic_ok_spec(s: Seq<u8>) -> bool {
    s[0] == 0x53u8 && s[1] == 0x41u8 && s[2] == 0x56u8 && s[3] == 0x45u8 && le32(s, 4) == 0x40000
}

/// Parse the save header at offset 0 of the first partition.
pub fn parse_header(p: &Vec<u8>) -> (r: Result<SaveHeader, Error>)
    ensures
        (r is Err) <==> (p@.len() < 0x20 || !magic_ok_spec(p@)),
        r is Err ==> (r == Err::<SaveHeader, Error>(Error::OutOfBound) || r == Err::<
            SaveHeader,
            Error,
        >(Error::MagicMismatch)),
        (r == Err::<SaveHeader, Error>(Error::OutOfBound)) <==> p@.len() < 0x20,
        r is Ok ==> r->Ok_0.fs_info_offset == le64(p@, 8) && r->Ok_0.image_size == le64(p@, 16)
            && r->Ok_0.image_block_len == le32(p@, 24),
{
    if p.len() < 0x20 {
        return Err(Error::OutOfBound);
    }
    if !(p[0] == 0x53 && p[1] == 0x41 && p[2] == 0x56 && p[3] == 0x45) {
        return Err(Error::MagicMismatch);
    }
    let version = read_u32_le(p, 4);
    if version != 0x40000 {
        return Err(Error::MagicMismatch);
    }
    Ok(
        SaveHeader {
            version,
            fs_info_offset: read_u64_le(p, 8),
            image_size: read_u64_le(p, 16),
            image_block_len: read_u32_le(p, 24),
        },
    )
}

/// The parsed filesystem info block.
#[derive(Clone, Copy, Debug)]
pub struct FsInfo {
    pub block_len: u32,
    pub dir_hash_offset: u64,
    pub dir_buckets: u32,
    pub file_hash_offset: u64,
    pub file_buckets: u32,
    pub fat_offset: u64,
    pub fat_size: u32,
    pub data_offset: u64,
    pub data_block_count: u32,
    pub dir_table: u64,
    pub max_dir: u32,
    pub file_table: u64,
    pub max_file: u32,
}

/// Parse the filesystem info block at `off`.
pub fn parse_fs_info(p: &Vec<u8>, off: usize) -> (r: Result<FsInfo, Error>)
    ensures
        (r is Err) <==> off + 80 > p@.len(),
        r is Err ==> r == Err::<FsInfo, Error>(Error::OutOfBound),
        r is Ok ==> {
            let f = r->Ok_0;
            &&& f.block_len == le32(p@, off + 4)
            &&& f.dir_hash_offset == le64(p@, off + 8)
            &&& f.dir_buckets == le32(p@, off + 16)
            &&& f.file_hash_offset == le64(p@, off + 20)
            &&& f.file_buckets == le32(p@, off + 28)
            &&& f.fat_offset == le64(p@, off + 32)
            &&& f.fat_size == le32(p@, off + 40)
            &&& f.data_offset == le64(p@, off + 44)
            &&& f.data_block_count == le32(p@, off + 52)
            &&& f.dir_table == le64(p@, off + 56)
            &&& f.max_dir == le32(p@, off + 64)
            &&& f.file_table == le64(p@, off + 68)
            &&& f.max_file == le32(p@, off + 76)
        },
{
    let n = p.len();
    if n < 80 || off > n - 80 {
        return Err(Error::OutOfBound);
    }
    Ok(
        FsInfo {
            block_len: read_u32_le(p, off + 4),
            dir_hash_offset: read_u64_le(p, off + 8),
            dir_buckets: read_u32_le(p, off + 16),
            file_hash_offset: read_u64_le(p, off + 20),
            file_buckets: read_u32_le(p, off + 28),
            fat_offset: read_u64_le(p, off + 32),
            fat_size: read_u32_le(p, off + 40),
            data_offset: read_u64_le(p, off + 44),
            data_block_count: read_u32_le(p, off + 52),
            dir_table: read_u64_le(p, off + 56),
            max_dir: read_u32_le(p, off + 64),
            file_table: read_u64_le(p, off + 68),
            max_file: read_u32_le(p, off + 76),
        },
    )
}

/// The flavours of save image, which pick the signer used by the outer
/// container at commit.
pub enum SaveDataType {
    Nand([u8; 16], u32),
    Sd([u8; 16], u64),
    Bare,
}

/// Signer for system save images: a fixed tag, the id, four zero bytes,
/// then the data.
pub struct NandSaveSigner {
    pub id: u32,
}

/// Signer for bare CTR-SAV0 images: a fixed tag before the data.
pub struct CtrSav0Signer {}

/// Signer for SD save images: a fixed tag, the id, then the digest of
/// the CTR-SAV0 signing block of the data.
pub struct SdSaveSigner {
    pub id: u64,
}

impl NandSaveSigner {
    /// The signing block: `CTR-SYS0`, the id, four zero bytes, the data.
    #[verifier::loop_isolation(false)]
    pub fn block(&self, data: &Vec<u8>) -> (r: Vec<u8>)
        requires
            data@.len() + 16 <= usize::MAX,
        ensures
            r@.len() == 16 + data@.len(),
            r@.subrange(0, 8) == seq![0x43u8, 0x54u8, 0x52u8, 0x2Du8, 0x53u8, 0x59u8, 0x53u8, 0x30u8],
            le32(r@, 8) == self.id,
            r@.subrange(12, 16) == seq![0u8, 0u8, 0u8, 0u8],
            r@.subrange(16, r@.len() as int) == data@,
    {
        proof {
            let id = self.id;
            assert((id & 0xff) < 0x100 && ((id >> 8) & 0xff) < 0x100 && ((id >> 16) & 0xff) < 0x100
                && ((id >> 24) & 0xff) < 0x100 && (id & 0xff) + ((id >> 8) & 0xff) * 0x100 + ((id
                >> 16) & 0xff) * 0x10000 + ((id >> 24) & 0xff) * 0x1000000 == id) by (bit_vector);
        }
        let mut r: Vec<u8> = Vec::new();
        r.push(0x43);
        r.push(0x54);
        r.push(0x52);
        r.push(0x2D);
        r.push(0x53);
        r.push(0x59);
        r.push(0x53);
        r.push(0x30);
        r.push((self.id & 0xff) as u8);
        r.push(((self.id >> 8) & 0xff) as u8);
        r.push(((self.id >> 16) & 0xff) as u8);
        r.push(((self.id >> 24) & 0xff) as u8);
        r.push(0);
        r.push(0);
        r.push(0);
        r.push(0);
        let mut k: usize = 0;
        while k < data.len()
            invariant
                k <= data@.len(),
                r@.len() == 16 + k,
                r@[0] == 0x43u8 && r@[1] == 0x54u8 && r@[2] == 0x52u8 && r@[3] == 0x2Du8,
                r@[4] == 0x53u8 && r@[5] == 0x59u8 && r@[6] == 0x53u8 && r@[7] == 0x30u8,
                r@[8] == (self.id & 0xff) as u8 && r@[9] == ((self.id >> 8) & 0xff) as u8,
                r@[10] == ((self.id >> 16) & 0xff) as u8 && r@[11] == ((self.id >> 24) & 0xff) as u8,
                r@[12] == 0u8 && r@[13] == 0u8 && r@[14] == 0u8 && r@[15] == 0u8,
                forall|i: int| 0 <= i < k ==> r@[16 + i] == data@[i],
            decreases data@.len() - k,
        {
            r.push(data[k]);
            k = k + 1;
        }
        proof {
            assert(r@.subrange(0, 8) =~= seq![
                0x43u8,
                0x54u8,
                0x52u8,
                0x2Du8,
                0x53u8,
                0x59u8,
                0x53u8,
                0x30u8,
            ]);
            assert(r@.subrange(12, 16) =~= seq![0u8, 0u8, 0u8, 0u8]);
            assert(r@.subrange(16, r@.len() as int) =~= data@);
        }
        r
    }
}

impl CtrSav0Signer {
    /// The signing block: `CTR-SAV0` before the data.
    #[verifier::loop_isolation(false)]
    pub fn block(&self, data: &Vec<u8>) -> (r: Vec<u8>)
        requires
            data@.len() + 8 <= usize::MAX,
        ensures
            r@.len() == 8 + data@.len(),
            r@.subrange(0, 8) == seq![0x43u8, 0x54u8, 0x52u8, 0x2Du8, 0x53u8, 0x41u8, 0x56u8, 0x30u8],
            r@.subrange(8, r@.len() as int) == data@,
    {
        let mut r: Vec<u8> = Vec::new();
        r.push(0x43);
        r.push(0x54);
        r.push(0x52);
        r.push(0x2D);
        r.push(0x53);
        r.push(0x41);
        r.push(0x56);
        r.push(0x30);
        let mut k: usize = 0;
        while k < data.len()
            invariant
                k <= data@.len(),
                r@.len() == 8 + k,
                r@[0] == 0x43u8 && r@[1] == 0x54u8 && r@[2] == 0x52u8 && r@[3] == 0x2Du8,
                r@[4] == 0x53u8 && r@[5] == 0x41u8 && r@[6] == 0x56u8 && r@[7] == 0x30u8,
                forall|i: int| 0 <= i < k ==> r@[8 + i] == data@[i],
            decreases data@.len() - k,
        {
            r.push(data[k]);
            k = k + 1;
        }
        proof {
            assert(r@.subrange(0, 8) =~= seq![
                0x43u8,
                0x54u8,
                0x52u8,
                0x2Du8,
                0x53u8,
                0x41u8,
                0x56u8,
                0x30u8,
            ]);
            assert(r@.subrange(8, r@.len() as int) =~= data@);
        }
        r
    }

    /// The digest over the signing block.
    pub fn hash(&self, data: &Vec<u8>) -> (r: Vec<u8>)
        requires
            data@.len() + 8 <= usize::MAX,
        ensures
            r@ == sha256_of(
                seq![0x43u8, 0x54u8, 0x52u8, 0x2Du8, 0x53u8, 0x41u8, 0x56u8, 0x30u8] + data@,
            ),
            r@.len() == 32,
    {
        let b = self.block(data);
        proof {
            assert(b@ =~= seq![0x43u8, 0x54u8, 0x52u8, 0x2Du8, 0x53u8, 0x41u8, 0x56u8, 0x30u8]
                + data@);
        }
        sha256(&b)
    }
}

impl SdSaveSigner {
    /// The signing block: `CTR-SIGN`, the id, then the digest of the
    /// CTR-SAV0 block over the data.
    #[verifier::loop_isolation(false)]
    pub fn block(&self, data: &Vec<u8>) -> (r: Vec<u8>)
        requires
            data@.len() + 8 <= usize::MAX,
        ensures
            r@.len() == 48,
            r@.subrange(0, 8) == seq![0x43u8, 0x54u8, 0x52u8, 0x2Du8, 0x53u8, 0x49u8, 0x47u8, 0x4Eu8],
            le64(r@, 8) == self.id,
            r@.subrange(16, 48) == sha256_of(
                seq![0x43u8, 0x54u8, 0x52u8, 0x2Du8, 0x53u8, 0x41u8, 0x56u8, 0x30u8] + data@,
            ),
    {
        proof {
            let id = self.id;
            assert((id & 0xff) < 0x100 && ((id >> 8) & 0xff) < 0x100 && ((id >> 16) & 0xff) < 0x100
                && ((id >> 24) & 0xff) < 0x100 && ((id >> 32) & 0xff) < 0x100 && ((id >> 40)
                & 0xff) < 0x100 && ((id >> 48) & 0xff) < 0x100 && ((id >> 56) & 0xff) < 0x100 && (
            id & 0xff) + ((id >> 8) & 0xff) * 0x100 + ((id >> 16) & 0xff) * 0x10000 + ((id >> 24)
                & 0xff) * 0x1000000 + (((id >> 32) & 0xff) + ((id >> 40) & 0xff) * 0x100 + ((id
                >> 48) & 0xff) * 0x10000 + ((id >> 56) & 0xff) * 0x1000000) * 0x1_0000_0000 == id)
                by (bit_vector);
        }
        let inner = CtrSav0Signer {  }.hash(data);
        let mut r: Vec<u8> = Vec::new();
        r.push(0x43);
        r.push(0x54);
        r.push(0x52);
        r.push(0x2D);
        r.push(0x53);
        r.push(0x49);
        r.push(0x47);
        r.push(0x4E);
        let id = self.id;
        r.push((id & 0xff) as u8);
        r.push(((id >> 8) & 0xff) as u8);
        r.push(((id >> 16) & 0xff) as u8);
        r.push(((id >> 24) & 0xff) as u8);
        r.push(((id >> 32) & 0xff) as u8);
        r.push(((id >> 40) & 0xff) as u8);
        r.push(((id >> 48) & 0xff) as u8);
        r.push(((id >> 56) & 0xff) as u8);
        let mut k: usize = 0;
        while k < inner.len()
            invariant
                k <= inner@.len(),
                inner@.len() == 32,
                r@.len() == 16 + k,
                r@[0] == 0x43u8 && r@[1] == 0x54u8 && r@[2] == 0x52u8 && r@[3] == 0x2Du8,
                r@[4] == 0x53u8 && r@[5] == 0x49u8 && r@[6] == 0x47u8 && r@[7] == 0x4Eu8,
                r@[8] == (self.id & 0xff) as u8 && r@[9] == ((self.id >> 8) & 0xff) as u8,
                r@[10] == ((self.id >> 16) & 0xff) as u8 && r@[11] == ((self.id >> 24) & 0xff) as u8,
                r@[12] == ((self.id >> 32) & 0xff) as u8 && r@[13] == ((self.id >> 40) & 0xff) as u8,
                r@[14] == ((self.id >> 48) & 0xff) as u8 && r@[15] == ((self.id >> 56) & 0xff) as u8,
                forall|i: int| 0 <= i < k ==> r@[16 + i] == inner@[i],
            decreases inner@.len() - k,
        {
            r.push(inner[k]);
            k = k + 1;
        }
        proof {
            assert(r@.subrange(0, 8) =~= seq![
                0x43u8,
                0x54u8,
                0x52u8,
                0x2Du8,
                0x53u8,
                0x49u8,
                0x47u8,
                0x4Eu8,
            ]);
            assert(r@.subrange(16, 48) =~= inner@);
        }
        r
    }
}

/// Whether two byte regions are disjoint.
fn rgn_ok(a_off: usize, a_len: usize, b_off: usize, b_len: usize) -> (r: bool)
    ensures
        r <==> rgn_disjoint(a_off as int, a_len as int, b_off as int, b_len as int),
{
    (b_off >= a_off && b_off - a_off >= a_len) || (a_off >= b_off && a_off - b_off >= b_len)
}

/// Whether every region that commit writes back is disjoint from the
/// others.
fn check_layout(
    two: bool,
    dh_off: usize,
    dh_len: usize,
    fh_off: usize,
    fh_len: usize,
    fat_off: usize,
    fat_len: usize,
    dt_off: usize,
    dt_len: usize,
    ft_off: usize,
    ft_len: usize,
    data_off: usize,
    data_len: usize,
) -> (r: bool)
    ensures
        r <==> layout_disjoint(
            two,
            dh_off as int,
            dh_len as int,
            fh_off as int,
            fh_len as int,
            fat_off as int,
            fat_len as int,
            dt_off as int,
            dt_len as int,
            ft_off as int,
            ft_len as int,
            data_off as int,
            data_len as int,
        ),
{
    proof {
        reveal(layout_disjoint);
    }
    let base = rgn_ok(dh_off, dh_len, fh_off, fh_len) && rgn_ok(dh_off, dh_len, fat_off, fat_len)
        && rgn_ok(fh_off, fh_len, fat_off, fat_len);
    if two {
        base && rgn_ok(dt_off, dt_len, ft_off, ft_len) && rgn_ok(dt_off, dt_len, dh_off, dh_len)
            && rgn_ok(dt_off, dt_len, fh_off, fh_len) && rgn_ok(dt_off, dt_len, fat_off, fat_len)
            && rgn_ok(ft_off, ft_len, dh_off, dh_len) && rgn_ok(ft_off, ft_len, fh_off, fh_len)
            && rgn_ok(ft_off, ft_len, fat_off, fat_len)
    } else {
        base && rgn_ok(data_off, data_len, dh_off, dh_len) && rgn_ok(
            data_off,
            data_len,
            fh_off,
            fh_len,
        ) && rgn_ok(data_off, data_len, fat_off, fat_len)
    }
}

/// Copy a sub-region out of a partition image.
fn take_region(p: &Vec<u8>, off: u64, len: usize) -> (r: Result<(Vec<u8>, usize), Error>)
    ensures
        (r is Ok) <==> off + len <= p@.len(),
        r is Err ==> r == Err::<(Vec<u8>, usize), Error>(Error::OutOfBound),
        r is Ok ==> r->Ok_0.1 == off && r->Ok_0.1 + len <= p@.len() && r->Ok_0.0@ == p@.subrange(
            off as int,
            off + len,
        ),
{
    let n = p.len();
    if len > n || off > (n - len) as u64 {
        return Err(Error::OutOfBound);
    }
    let off_us = off as usize;
    Ok((sub_bytes(p, off_us, len), off_us))
}

/// Open a metadata table stored as a FAT file and read its bytes.
fn open_table_file(fat: &Fat, start: usize, table_len: usize) -> (r: Result<
    (Vec<u8>, FatFile),
    Error,
>)
    requires
        fat.wf(),
    ensures
        r is Err ==> (r == Err::<(Vec<u8>, FatFile), Error>(Error::BrokenFat) || r == Err::<
            (Vec<u8>, FatFile),
            Error,
        >(Error::SizeMismatch)),
        r is Ok ==> {
            let (b, f) = r->Ok_0;
            &&& b@.len() == table_len
            &&& f.wf(*fat)
            &&& f.blocks()[0] == start
            &&& table_len <= f.blocks().len() * fat.block_len
        },
{
    let f = match FatFile::open(fat, start) {
        Ok(f) => f,
        Err(e) => {
            return Err(e);
        },
    };
    let cap = f.len(fat);
    if cap < table_len {
        return Err(Error::SizeMismatch);
    }
    let mut buf = crate::bytes::zeros(table_len);
    match f.read(fat, 0, &mut buf) {
        Ok(()) => {},
        Err(_) => {
            return Err(Error::SizeMismatch);
        },
    }
    Ok((buf, f))
}

/// One opened save image: the first partition's raw bytes, the FAT over
/// the data region, and the metadata tables, with the layout needed to
/// write everything back at commit.
pub struct SaveData {
    pub part0: Vec<u8>,
    pub two_partitions: bool,
    pub fat: Fat,
    pub fs: FsMeta,
    pub block_len: usize,
    pub dir_hash_off: usize,
    pub file_hash_off: usize,
    pub fat_off: usize,
    pub data_off: usize,
    pub dir_table_off: usize,
    pub file_table_off: usize,
    pub dir_table_file: Option<FatFile>,
    pub file_table_file: Option<FatFile>,
}

/// An opened file: its metadata slot, its chain (absent for zero-length
/// files) and its byte length.
pub struct File {
    pub ino: u32,
    pub data: Option<FatFile>,
    pub len: usize,
}

/// Two byte regions of a partition do not overlap.
pub open spec fn rgn_disjoint(a_off: int, a_len: int, b_off: int, b_len: int) -> bool {
    a_off + a_len <= b_off || b_off + b_len <= a_off
}

/// The regions of the first partition that commit writes back do not
/// overlap one another: the two hash tables, the FAT table, and either
/// the directory and file table sub-regions (two partitions) or the
/// data region (single partition).
#[verifier::opaque]
pub open spec fn layout_disjoint(
    two: bool,
    dh_off: int,
    dh_len: int,
    fh_off: int,
    fh_len: int,
    fat_off: int,
    fat_len: int,
    dt_off: int,
    dt_len: int,
    ft_off: int,
    ft_len: int,
    data_off: int,
    data_len: int,
) -> bool {
    &&& rgn_disjoint(dh_off, dh_len, fh_off, fh_len)
    &&& rgn_disjoint(dh_off, dh_len, fat_off, fat_len)
    &&& rgn_disjoint(fh_off, fh_len, fat_off, fat_len)
    &&& if two {
        &&& rgn_disjoint(dt_off, dt_len, ft_off, ft_len)
        &&& rgn_disjoint(dt_off, dt_len, dh_off, dh_len)
        &&& rgn_disjoint(dt_off, dt_len, fh_off, fh_len)
        &&& rgn_disjoint(dt_off, dt_len, fat_off, fat_len)
        &&& rgn_disjoint(ft_off, ft_len, dh_off, dh_len)
        &&& rgn_disjoint(ft_off, ft_len, fh_off, fh_len)
        &&& rgn_disjoint(ft_off, ft_len, fat_off, fat_len)
    } else {
        &&& rgn_disjoint(data_off, data_len, dh_off, dh_len)
        &&& rgn_disjoint(data_off, data_len, fh_off, fh_len)
        &&& rgn_disjoint(data_off, data_len, fat_off, fat_len)
    }
}

/// The block chain a file handle holds; empty for a zero-length file.
pub open spec fn chain_blocks(f: File) -> Seq<u32> {
    match f.data {
        Option::Some(ff) => ff.blocks(),
        Option::None => Seq::empty(),
    }
}

/// An opened directory: its metadata slot.
pub struct Dir {
    pub ino: u32,
}

impl File {
    pub open spec fn wf(self, center: SaveData) -> bool {
        &&& center.fs.live_file(self.ino as int)
        &&& self.len == center.fs.files@[self.ino as int].size
        &&& match self.data {
            Option::None => self.len == 0 && center.fs.files@[self.ino as int].block
                == 0x8000_0000,
            Option::Some(f) => f.wf(center.fat) && self.len > 0 && self.len <= f.blocks().len()
                * center.block_len && center.fs.files@[self.ino as int].block == f.blocks()[0],
        }
    }

    /// Open the chain and length recorded in a live file entry. The
    /// sentinel block value marks a zero-length file with no chain; any
    /// disagreement between the recorded size and the chain is a
    /// `SizeMismatch`.
    pub fn from_meta(center: &SaveData, ino: u32) -> (r: Result<File, Error>)
        requires
            center.wf(),
            center.fs.live_file(ino as int),
        ensures
            r is Err ==> (r == Err::<File, Error>(Error::SizeMismatch) || r == Err::<File, Error>(
                Error::BrokenFat,
            )),
            center.fs.files@[ino as int].block == 0x8000_0000 ==> ((r is Ok)
                <==> center.fs.files@[ino as int].size == 0) && ((r == Err::<File, Error>(
                Error::SizeMismatch,
            )) <==> center.fs.files@[ino as int].size != 0),
            center.fs.files@[ino as int].block != 0x8000_0000 && (center.fs.files@[ino as int].size
                == 0 || center.fs.files@[ino as int].size > usize::MAX) ==> r == Err::<
                File,
                Error,
            >(Error::SizeMismatch),
            r == Err::<File, Error>(Error::BrokenFat) ==> center.fs.files@[ino as int].block
                != 0x8000_0000,
            r is Ok ==> r->Ok_0.wf(*center) && r->Ok_0.ino == ino && r->Ok_0.len == center.fs.files@[ino as int].size,
            r is Ok ==> ((r->Ok_0.data is None) <==> center.fs.files@[ino as int].block
                == 0x8000_0000),
            r is Ok ==> match r->Ok_0.data {
                Option::Some(f) => f.blocks()[0] == center.fs.files@[ino as int].block
                    && center.fs.files@[ino as int].size <= f.blocks().len() * center.block_len,
                Option::None => true,
            },
    {
        let entry = self_entry(center, ino);
        let size = entry.size;
        if entry.block == 0x8000_0000 {
            if size != 0 {
                return Err(Error::SizeMismatch);
            }
            Ok(File { ino, data: None, len: 0 })
        } else {
            if size == 0 || size > usize::MAX as u64 {
                return Err(Error::SizeMismatch);
            }
            let len = size as usize;
            let fat_file = match FatFile::open(&center.fat, entry.block as usize) {
                Ok(f) => f,
                Err(e) => {
                    return Err(e);
                },
            };
            let cap = fat_file.len(&center.fat);
            if len > cap {
                return Err(Error::SizeMismatch);
            }
            Ok(File { ino, data: Some(fat_file), len })
        }
    }
}

/// Read a live file entry.
fn self_entry(center: &SaveData, ino: u32) -> (r: crate::fs_meta::FileEntry)
    requires
        center.wf(),
        center.fs.live_file(ino as int),
    ensures
        r == center.fs.files@[ino as int],
{
    center.fs.file_entry(ino)
}

impl SaveData {
    pub open spec fn wf(self) -> bool {
        &&& self.fat.wf()
        &&& self.fs.wf()
        &&& self.block_len == self.fat.block_len
        &&& self.dir_hash_off + self.fs.dir_hash@.len() * 4 <= self.part0@.len()
        &&& self.file_hash_off + self.fs.file_hash@.len() * 4 <= self.part0@.len()
        &&& self.fat_off + (self.fat.block_count + 1) * 8 <= self.part0@.len()
        &&& layout_disjoint(
            self.two_partitions,
            self.dir_hash_off as int,
            (self.fs.dir_hash@.len() * 4) as int,
            self.file_hash_off as int,
            (self.fs.file_hash@.len() * 4) as int,
            self.fat_off as int,
            ((self.fat.block_count + 1) * 8) as int,
            self.dir_table_off as int,
            (self.fs.dirs@.len() * 40) as int,
            self.file_table_off as int,
            (self.fs.files@.len() * 48) as int,
            self.data_off as int,
            (self.fat.block_count * self.block_len) as int,
        )
        &&& if self.two_partitions {
            self.dir_table_off + self.fs.dirs@.len() * 40 <= self.part0@.len()
                && self.file_table_off + self.fs.files@.len() * 48 <= self.part0@.len()
        } else {
            self.data_off + self.fat.block_count * self.block_len <= self.part0@.len()
                && match self.dir_table_file {
                Option::Some(f) => f.wf(self.fat) && self.fs.dirs@.len() * 40 <= f.blocks().len()
                    * self.block_len,
                Option::None => false,
            } && match self.file_table_file {
                Option::Some(f) => f.wf(self.fat) && self.fs.files@.len() * 48 <= f.blocks().len()
                    * self.block_len,
                Option::None => false,
            }
        }
    }

    /// Open a save image from its partitions: validate the header and
    /// the info block, wire the FAT over the data region, and load the
    /// four metadata tables, either as sub-regions of the first
    /// partition or, in the single-partition layout, as FAT files.
    #[verifier::rlimit(100)]
    pub fn new(part0: Vec<u8>, part1: Option<Vec<u8>>) -> (r: Result<SaveData, Error>)
        ensures
            r is Ok ==> r->Ok_0.wf() && (r->Ok_0.two_partitions <==> part1 is Some),
            r is Err ==> (r == Err::<SaveData, Error>(Error::OutOfBound) || r == Err::<
                SaveData,
                Error,
            >(Error::MagicMismatch) || r == Err::<SaveData, Error>(Error::SizeMismatch) || r
                == Err::<SaveData, Error>(Error::BrokenFat)),
            (r == Err::<SaveData, Error>(Error::MagicMismatch)) <==> (part0@.len() >= 0x20
                && !magic_ok_spec(part0@)),
            part0@.len() >= 0x20 && magic_ok_spec(part0@) && le64(part0@, 8) + 80 <= part0@.len()
                && le32(part0@, le64(part0@, 8) + 40) != le32(part0@, le64(part0@, 8) + 52) ==> r
                == Err::<SaveData, Error>(Error::SizeMismatch),
            r is Ok ==> {
                let s2 = r->Ok_0;
                let off = le64(part0@, 8);
                &&& s2.part0@ == part0@
                &&& s2.block_len == le32(part0@, off + 4)
                &&& s2.fat.block_count == le32(part0@, off + 52)
                &&& s2.fat_off == le64(part0@, off + 32)
                &&& s2.dir_hash_off == le64(part0@, off + 8)
                &&& s2.file_hash_off == le64(part0@, off + 20)
                &&& s2.fs.dir_hash@.len() == le32(part0@, off + 16)
                &&& s2.fs.file_hash@.len() == le32(part0@, off + 28)
                &&& s2.fs.dirs@.len() == le32(part0@, off + 64) + 2
                &&& s2.fs.files@.len() == le32(part0@, off + 76) + 1
                &&& forall|k: int|
                    0 <= k < s2.fat.table@.len() ==> (#[trigger] s2.fat.table@[k]).u == le32(
                        part0@,
                        s2.fat_off + 8 * k,
                    ) && s2.fat.table@[k].v == le32(part0@, s2.fat_off + 8 * k + 4)
                &&& (s2.two_partitions ==> s2.dir_table_off == le64(part0@, off + 56)
                    && s2.file_table_off == le64(part0@, off + 68) && s2.fat.data@ == part1->0@)
                &&& (!s2.two_partitions ==> s2.data_off == le64(part0@, off + 44) && s2.fat.data@
                    == part0@.subrange(
                    s2.data_off as int,
                    s2.data_off + s2.fat.block_count * s2.block_len,
                ) && (match s2.dir_table_file {
                    Option::Some(f) => f.blocks()[0] == le32(part0@, off + 56),
                    Option::None => false,
                }) && (match s2.file_table_file {
                    Option::Some(f) => f.blocks()[0] == le32(part0@, off + 68),
                    Option::None => false,
                }))
            },
    {
        let header = match parse_header(&part0) {
            Ok(h) => h,
            Err(e) => {
                return Err(e);
            },
        };
        if header.fs_info_offset > usize::MAX as u64 {
            return Err(Error::OutOfBound);
        }
        let info = match parse_fs_info(&part0, header.fs_info_offset as usize) {
            Ok(i) => i,
            Err(e) => {
                return Err(e);
            },
        };
        proof {
            let dt64 = info.dir_table;
            let ft64 = info.file_table;
            assert((dt64 & 0xFFFF_FFFF) == dt64 % 0x1_0000_0000) by (bit_vector);
            assert((ft64 & 0xFFFF_FFFF) == ft64 % 0x1_0000_0000) by (bit_vector);
            let off = header.fs_info_offset as int;
            assert(le64(part0@, off + 56) % 0x1_0000_0000 == le32(part0@, off + 56))
                by (nonlinear_arith)
                requires
                    le64(part0@, off + 56) == le32(part0@, off + 56) + le32(part0@, off + 60)
                        * 0x1_0000_0000,
                    0 <= le32(part0@, off + 56) < 0x1_0000_0000,
            ;
            assert(le64(part0@, off + 68) % 0x1_0000_0000 == le32(part0@, off + 68))
                by (nonlinear_arith)
                requires
                    le64(part0@, off + 68) == le32(part0@, off + 68) + le32(part0@, off + 72)
                        * 0x1_0000_0000,
                    0 <= le32(part0@, off + 68) < 0x1_0000_0000,
            ;
        }
        SaveData::assemble(part0, part1, info)
    }

    /// Wire a parsed image: check the declared sizes, cut the regions,
    /// build the FAT over the data area and load the metadata tables.
    #[verifier::rlimit(100)]
    fn assemble(part0: Vec<u8>, part1: Option<Vec<u8>>, info: FsInfo) -> (r: Result<
        SaveData,
        Error,
    >)
        ensures
            r is Ok ==> r->Ok_0.wf() && (r->Ok_0.two_partitions <==> part1 is Some),
            r is Err ==> (r == Err::<SaveData, Error>(Error::OutOfBound) || r == Err::<
                SaveData,
                Error,
            >(Error::SizeMismatch) || r == Err::<SaveData, Error>(Error::BrokenFat)),
            info.data_block_count != info.fat_size ==> r == Err::<SaveData, Error>(
                Error::SizeMismatch,
            ),
            r is Ok ==> {
                let s2 = r->Ok_0;
                &&& s2.part0@ == part0@
                &&& s2.block_len == info.block_len
                &&& s2.fat.block_count == info.data_block_count
                &&& s2.fat_off == info.fat_offset
                &&& s2.dir_hash_off == info.dir_hash_offset
                &&& s2.file_hash_off == info.file_hash_offset
                &&& s2.fs.dir_hash@.len() == info.dir_buckets
                &&& s2.fs.file_hash@.len() == info.file_buckets
                &&& s2.fs.dirs@.len() == info.max_dir + 2
                &&& s2.fs.files@.len() == info.max_file + 1
                &&& forall|k: int|
                    0 <= k < s2.fat.table@.len() ==> (#[trigger] s2.fat.table@[k]).u == le32(
                        part0@,
                        s2.fat_off + 8 * k,
                    ) && s2.fat.table@[k].v == le32(part0@, s2.fat_off + 8 * k + 4)
                &&& (s2.two_partitions ==> s2.dir_table_off == info.dir_table
                    && s2.file_table_off == info.file_table && s2.fat.data@ == part1->0@)
                &&& (!s2.two_partitions ==> s2.data_off == info.data_offset && s2.fat.data@
                    == part0@.subrange(
                    s2.data_off as int,
                    s2.data_off + s2.fat.block_count * s2.block_len,
                ) && (match s2.dir_table_file {
                    Option::Some(f) => f.blocks()[0] == info.dir_table & 0xFFFF_FFFF,
                    Option::None => false,
                }) && (match s2.file_table_file {
                    Option::Some(f) => f.blocks()[0] == info.file_table & 0xFFFF_FFFF,
                    Option::None => false,
                }))
            },
    {
        if info.data_block_count != info.fat_size {
            return Err(Error::SizeMismatch);
        }
        let block_len = info.block_len as usize;
        if block_len == 0 {
            return Err(Error::SizeMismatch);
        }
        // machine-proportion caps: the FAT table ((count + 1) * 8 bytes) and
        // the metadata tables must fit a 32-bit address space
        let count = info.data_block_count as usize;
        if count >= 0x0FFF_FFFE {
            return Err(Error::SizeMismatch);
        }
        let dir_buckets = info.dir_buckets as usize;
        let file_buckets = info.file_buckets as usize;
        if dir_buckets == 0 || file_buckets == 0 || dir_buckets > 0x00FF_FFFF || file_buckets
            > 0x00FF_FFFF {
            return Err(Error::SizeMismatch);
        }
        let (fat_table, fat_off) = match take_region(&part0, info.fat_offset, (count + 1) * 8) {
            Ok(x) => x,
            Err(e) => {
                return Err(e);
            },
        };
        proof {
            let c = count as int;
            let b = info.block_len as int;
            assert(c * b < 0x1000_0000_0000_0000) by (nonlinear_arith)
                requires
                    0 <= c < 0x1000_0000,
                    0 <= b < 0x1_0000_0000,
            ;
        }
        let data_len = (count as u64) * (info.block_len as u64);
        if data_len > usize::MAX as u64 {
            return Err(Error::SizeMismatch);
        }
        let two_partitions = part1.is_some();
        let mut data_off: usize = 0;
        let data: Vec<u8> = match part1 {
            Some(d) => {
                if d.len() as u64 != data_len {
                    return Err(Error::SizeMismatch);
                }
                d
            },
            None => {
                let (d, o) = match take_region(&part0, info.data_offset, data_len as usize) {
                    Ok(x) => x,
                    Err(e) => {
                        return Err(e);
                    },
                };
                data_off = o;
                d
            },
        };
        proof {
            assert(fat_table@.len() == (count + 1) * 8);
            assert(fat_table@.len() % 8 == 0 && fat_table@.len() / 8 == count + 1) by (nonlinear_arith)
                requires
                    fat_table@.len() == (count + 1) * 8,
            ;
            assert(data@.len() == (fat_table@.len() / 8 - 1) * block_len) by (nonlinear_arith)
                requires
                    fat_table@.len() / 8 == count + 1,
                    data@.len() == count * block_len,
            ;
        }
        let fat = match Fat::new(&fat_table, data, block_len) {
            Ok(f) => f,
            Err(e) => {
                return Err(e);
            },
        };
        let (dir_hash, dir_hash_off) = match take_region(
            &part0,
            info.dir_hash_offset,
            dir_buckets * 4,
        ) {
            Ok(x) => x,
            Err(e) => {
                return Err(e);
            },
        };
        let (file_hash, file_hash_off) = match take_region(
            &part0,
            info.file_hash_offset,
            file_buckets * 4,
        ) {
            Ok(x) => x,
            Err(e) => {
                return Err(e);
            },
        };
        let max_dir = info.max_dir as usize;
        if max_dir >= 0x00FF_FFF0 {
            return Err(Error::SizeMismatch);
        }
        let max_file = info.max_file as usize;
        if max_file >= 0x00FF_FFF0 {
            return Err(Error::SizeMismatch);
        }
        let dir_table_len = (max_dir + 2) * 40;
        let file_table_len = (max_file + 1) * 48;
        let mut dir_table_off: usize = 0;
        let mut file_table_off: usize = 0;
        let mut dir_table_file: Option<FatFile> = None;
        let mut file_table_file: Option<FatFile> = None;
        let dir_table_bytes: Vec<u8>;
        let file_table_bytes: Vec<u8>;
        if two_partitions {
            let (b, o) = match take_region(&part0, info.dir_table, dir_table_len) {
                Ok(x) => x,
                Err(e) => {
                    return Err(e);
                },
            };
            dir_table_bytes = b;
            dir_table_off = o;
            let (b2, o2) = match take_region(&part0, info.file_table, file_table_len) {
                Ok(x) => x,
                Err(e) => {
                    return Err(e);
                },
            };
            file_table_bytes = b2;
            file_table_off = o2;
        } else {
            proof {
                let dt64 = info.dir_table;
                let ft64 = info.file_table;
                assert((dt64 & 0xFFFF_FFFF) < 0x1_0000_0000) by (bit_vector);
                assert((ft64 & 0xFFFF_FFFF) < 0x1_0000_0000) by (bit_vector);
            }
            let dstart = (info.dir_table & 0xFFFF_FFFF) as usize;
            let (b, f) = match open_table_file(&fat, dstart, dir_table_len) {
                Ok(x) => x,
                Err(e) => {
                    return Err(e);
                },
            };
            dir_table_bytes = b;
            dir_table_file = Some(f);
            let fstart = (info.file_table & 0xFFFF_FFFF) as usize;
            let (b2, f2) = match open_table_file(&fat, fstart, file_table_len) {
                Ok(x) => x,
                Err(e) => {
                    return Err(e);
                },
            };
            file_table_bytes = b2;
            file_table_file = Some(f2);
        }
        proof {
            assert(dir_table_bytes@.len() % 40 == 0 && dir_table_bytes@.len() / 40 == max_dir + 2)
                by (nonlinear_arith)
                requires
                    dir_table_bytes@.len() == (max_dir + 2) * 40,
            ;
            assert(file_table_bytes@.len() % 48 == 0 && file_table_bytes@.len() / 48 == max_file
                + 1) by (nonlinear_arith)
                requires
                    file_table_bytes@.len() == (max_file + 1) * 48,
            ;
        }
        // the regions written back at commit must not overlap
        let dh_len = dir_buckets * 4;
        let fh_len = file_buckets * 4;
        let fat_len = (count + 1) * 8;
        let data_region_len = if two_partitions {
            0
        } else {
            data_len as usize
        };
        if !check_layout(
            two_partitions,
            dir_hash_off,
            dh_len,
            file_hash_off,
            fh_len,
            fat_off,
            fat_len,
            dir_table_off,
            dir_table_len,
            file_table_off,
            file_table_len,
            data_off,
            data_region_len,
        ) {
            return Err(Error::SizeMismatch);
        }
        let fs = match FsMeta::new(&dir_hash, &dir_table_bytes, &file_hash, &file_table_bytes) {
            Ok(m) => m,
            Err(e) => {
                return Err(e);
            },
        };
        proof {
            reveal(layout_disjoint);
            assert forall|k: int|
                0 <= k < fat.table@.len() implies (#[trigger] fat.table@[k]).u == le32(
                part0@,
                fat_off + 8 * k,
            ) && fat.table@[k].v == le32(part0@, fat_off + 8 * k + 4) by {
                assert(fat.table@[k].u == le32(fat_table@, 8 * k));
                assert(fat.table@[k].v == le32(fat_table@, 8 * k + 4));
            }
        }
        Ok(
            SaveData {
                part0,
                two_partitions,
                fat,
                fs,
                block_len,
                dir_hash_off,
                file_hash_off,
                fat_off,
                data_off,
                dir_table_off,
                file_table_off,
                dir_table_file,
                file_table_file,
            },
        )
    }

    /// Open a save image held in one byte vector (a single partition).
    pub fn from_vec(v: Vec<u8>) -> (r: Result<SaveData, Error>)
        ensures
            r is Ok ==> r->Ok_0.wf() && !r->Ok_0.two_partitions,
            (r == Err::<SaveData, Error>(Error::MagicMismatch)) <==> (v@.len() >= 0x20
                && !magic_ok_spec(v@)),
            r is Err ==> (r == Err::<SaveData, Error>(Error::OutOfBound) || r == Err::<
                SaveData,
                Error,
            >(Error::MagicMismatch) || r == Err::<SaveData, Error>(Error::SizeMismatch) || r
                == Err::<SaveData, Error>(Error::BrokenFat)),
    {
        SaveData::new(v, None)
    }

    /// A copy of the first partition's bytes as last committed into it.
    pub fn part0_bytes(&self) -> (r: Vec<u8>)
        ensures
            r@ == self.part0@,
    {
        let n = self.part0.len();
        let r = sub_bytes(&self.part0, 0, n);
        proof {
            assert(self.part0@.subrange(0, self.part0@.len() as int) =~= self.part0@);
        }
        r
    }

    /// A copy of the data partition's bytes, for two-partition images.
    pub fn part1_bytes(&self) -> (r: Option<Vec<u8>>)
        requires
            self.wf(),
        ensures
            self.two_partitions ==> r is Some && r->0@ == self.fat.data@,
            !self.two_partitions ==> r is None,
    {
        if self.two_partitions {
            let n = self.fat.data.len();
            let d = sub_bytes(&self.fat.data, 0, n);
            proof {
                assert(self.fat.data@.subrange(0, self.fat.data@.len() as int) =~= self.fat.data@);
            }
            Some(d)
        } else {
            None
        }
    }

    /// Write every table back into the first partition: the FAT table,
    /// the two hash tables, the directory and file tables (into their
    /// sub-regions, or through their FAT files in the single-partition
    /// layout, where the data region is also copied back). The contract
    /// states each written region's content; the regions are disjoint by
    /// well-formedness, so all of them hold at once.
    #[verifier::rlimit(100)]
    #[verifier::loop_isolation(false)]
    pub fn commit(&mut self) -> (r: Result<(), Error>)
        requires
            old(self).wf(),
        ensures
            final(self).wf(),
            r is Ok,
            final(self).part0@.len() == old(self).part0@.len(),
            final(self).fs == old(self).fs,
            final(self).block_len == old(self).block_len,
            final(self).two_partitions == old(self).two_partitions,
            final(self).fat.table@ == old(self).fat.table@,
            final(self).fat.free@ == old(self).fat.free@,
            forall|k: int|
                0 <= k < final(self).fat.table@.len() ==> le32(
                    final(self).part0@,
                    final(self).fat_off + 8 * k,
                ) == (#[trigger] final(self).fat.table@[k]).u && le32(
                    final(self).part0@,
                    final(self).fat_off + 8 * k + 4,
                ) == final(self).fat.table@[k].v,
            forall|k: int|
                0 <= k < final(self).fs.dir_hash@.len() ==> le32(
                    final(self).part0@,
                    final(self).dir_hash_off + 4 * k,
                ) == #[trigger] final(self).fs.dir_hash@[k],
            forall|k: int|
                0 <= k < final(self).fs.file_hash@.len() ==> le32(
                    final(self).part0@,
                    final(self).file_hash_off + 4 * k,
                ) == #[trigger] final(self).fs.file_hash@[k],
            final(self).two_partitions ==> forall|k: int|
                0 <= k < final(self).fs.dirs@.len() ==> (final(self).part0@.subrange(
                    final(self).dir_table_off + 40 * k,
                    final(self).dir_table_off + 40 * k + 16,
                ) == (#[trigger] final(self).fs.dirs@[k]).name@ && le32(
                    final(self).part0@,
                    final(self).dir_table_off + 40 * k + 16,
                ) == final(self).fs.dirs@[k].parent && le32(
                    final(self).part0@,
                    final(self).dir_table_off + 40 * k + 20,
                ) == final(self).fs.dirs@[k].next && le32(
                    final(self).part0@,
                    final(self).dir_table_off + 40 * k + 24,
                ) == final(self).fs.dirs@[k].sub_dir && le32(
                    final(self).part0@,
                    final(self).dir_table_off + 40 * k + 28,
                ) == final(self).fs.dirs@[k].sub_file && le32(
                    final(self).part0@,
                    final(self).dir_table_off + 40 * k + 36,
                ) == final(self).fs.dirs@[k].hash_next),
            final(self).two_partitions ==> forall|k: int|
                0 <= k < final(self).fs.files@.len() ==> (final(self).part0@.subrange(
                    final(self).file_table_off + 48 * k,
                    final(self).file_table_off + 48 * k + 16,
                ) == (#[trigger] final(self).fs.files@[k]).name@ && le32(
                    final(self).part0@,
                    final(self).file_table_off + 48 * k + 16,
                ) == final(self).fs.files@[k].parent && le32(
                    final(self).part0@,
                    final(self).file_table_off + 48 * k + 28,
                ) == final(self).fs.files@[k].block && le64(
                    final(self).part0@,
                    final(self).file_table_off + 48 * k + 32,
                ) == final(self).fs.files@[k].size),
            !final(self).two_partitions ==> final(self).part0@.subrange(
                final(self).data_off as int,
                final(self).data_off + final(self).fat.block_count * final(self).block_len,
            ) == final(self).fat.data@,
    {
        proof {
            reveal(layout_disjoint);
        }
        let ghost dt_off = self.dir_table_off as int;
        let ghost ft_off = self.file_table_off as int;
        let ghost dh_off = self.dir_hash_off as int;
        let ghost fh_off = self.file_hash_off as int;
        let ghost f_off = self.fat_off as int;
        let ghost d_off = self.data_off as int;
        let dt = self.fs.dir_table_bytes();
        let ft = self.fs.file_table_bytes();
        let dtl = dt.len();
        let ftl = ft.len();
        if self.two_partitions {
            copy_into(&mut self.part0, self.dir_table_off, &dt, 0, dtl);
            copy_into(&mut self.part0, self.file_table_off, &ft, 0, ftl);
        } else {
            match &self.dir_table_file {
                Some(f) => {
                    match f.write(&mut self.fat, 0, &dt) {
                        Ok(()) => {},
                        Err(_) => {
                            return Err(Error::OutOfBound);
                        },
                    }
                },
                None => {
                    return Err(Error::BrokenFat);
                },
            }
            match &self.file_table_file {
                Some(f) => {
                    match f.write(&mut self.fat, 0, &ft) {
                        Ok(()) => {},
                        Err(_) => {
                            return Err(Error::OutOfBound);
                        },
                    }
                },
                None => {
                    return Err(Error::BrokenFat);
                },
            }
            let dl = self.fat.data.len();
            let data_copy = sub_bytes(&self.fat.data, 0, dl);
            copy_into(&mut self.part0, self.data_off, &data_copy, 0, dl);
        }
        let ghost p_tables = self.part0@;
        let dh = self.fs.dir_hash_bytes();
        let dhl = dh.len();
        copy_into(&mut self.part0, self.dir_hash_off, &dh, 0, dhl);
        let ghost p_dh = self.part0@;
        let fh = self.fs.file_hash_bytes();
        let fhl = fh.len();
        copy_into(&mut self.part0, self.file_hash_off, &fh, 0, fhl);
        let ghost p_fh = self.part0@;
        let fat_bytes = self.fat.table_bytes();
        let fl = fat_bytes.len();
        copy_into(&mut self.part0, self.fat_off, &fat_bytes, 0, fl);
        proof {
            // each earlier region survives the later writes, which are disjoint
            assert forall|i: int|
                dh_off <= i < dh_off + dhl implies self.part0@[i] == p_dh[i] by {}
            assert forall|i: int|
                (dt_off <= i < dt_off + dtl && self.two_partitions) || (d_off <= i < d_off
                    + self.fat.block_count * self.block_len
                    && !self.two_partitions) implies self.part0@[i] == p_tables[i] by {}
            assert forall|i: int|
                ft_off <= i < ft_off + ftl && self.two_partitions implies self.part0@[i]
                == p_tables[i] by {}
            assert forall|k: int|
                0 <= k < self.fat.table@.len() implies le32(self.part0@, f_off + 8 * k) == (
            #[trigger] self.fat.table@[k]).u && le32(self.part0@, f_off + 8 * k + 4)
                == self.fat.table@[k].v by {
                assert(le32(fat_bytes@, 8 * k) == self.fat.table@[k].u);
                assert(le32(fat_bytes@, 8 * k + 4) == self.fat.table@[k].v);
            }
            assert forall|k: int|
                0 <= k < self.fs.dir_hash@.len() implies le32(self.part0@, dh_off + 4 * k)
                == #[trigger] self.fs.dir_hash@[k] by {
                assert(le32(dh@, 4 * k) == self.fs.dir_hash@[k]);
            }
            assert forall|k: int|
                0 <= k < self.fs.file_hash@.len() implies le32(self.part0@, fh_off + 4 * k)
                == #[trigger] self.fs.file_hash@[k] by {
                assert(le32(fh@, 4 * k) == self.fs.file_hash@[k]);
            }
            if self.two_partitions {
                assert forall|k: int|
                    0 <= k < self.fs.dirs@.len() implies (self.part0@.subrange(
                    dt_off + 40 * k,
                    dt_off + 40 * k + 16,
                ) == (#[trigger] self.fs.dirs@[k]).name@ && le32(self.part0@, dt_off + 40 * k + 16)
                    == self.fs.dirs@[k].parent && le32(self.part0@, dt_off + 40 * k + 20)
                    == self.fs.dirs@[k].next && le32(self.part0@, dt_off + 40 * k + 24)
                    == self.fs.dirs@[k].sub_dir && le32(self.part0@, dt_off + 40 * k + 28)
                    == self.fs.dirs@[k].sub_file && le32(self.part0@, dt_off + 40 * k + 36)
                    == self.fs.dirs@[k].hash_next) by {
                    assert(dt@.subrange(40 * k, 40 * k + 16) == self.fs.dirs@[k].name@);
                    assert(self.part0@.subrange(dt_off + 40 * k, dt_off + 40 * k + 16)
                        =~= dt@.subrange(40 * k, 40 * k + 16));
                }
                assert forall|k: int|
                    0 <= k < self.fs.files@.len() implies (self.part0@.subrange(
                    ft_off + 48 * k,
                    ft_off + 48 * k + 16,
                ) == (#[trigger] self.fs.files@[k]).name@ && le32(self.part0@, ft_off + 48 * k + 16)
                    == self.fs.files@[k].parent && le32(self.part0@, ft_off + 48 * k + 28)
                    == self.fs.files@[k].block && le64(self.part0@, ft_off + 48 * k + 32)
                    == self.fs.files@[k].size) by {
                    assert(ft@.subrange(48 * k, 48 * k + 16) == self.fs.files@[k].name@);
                    assert(self.part0@.subrange(ft_off + 48 * k, ft_off + 48 * k + 16)
                        =~= ft@.subrange(48 * k, 48 * k + 16));
                }
            } else {
                assert(self.part0@.subrange(
                    d_off,
                    d_off + self.fat.block_count * self.block_len,
                ) =~= self.fat.data@);
            }
        }
        Ok(())
    }
}

/// The directory and file operations exposed to the host.
pub struct SaveDataFileSystem {}

impl SaveDataFileSystem {
    /// Open the root directory, ino 1.
    pub fn open_root(center: &SaveData) -> (r: Result<Dir, Error>)
        requires
            center.wf(),
        ensures
            r is Ok,
            r is Ok ==> r->Ok_0.ino == 1,
    {
        Ok(Dir { ino: 1 })
    }

    /// Open a directory by its ino.
    pub fn dir_open_ino(center: &SaveData, ino: u32) -> (r: Result<Dir, Error>)
        requires
            center.wf(),
        ensures
            (r is Ok) <==> center.fs.live_dir(ino as int),
            r is Ok ==> r->Ok_0.ino == ino,
            r is Err ==> r == Err::<Dir, Error>(Error::NotFound),
    {
        match center.fs.check_dir_ino(ino) {
            Ok(()) => Ok(Dir { ino }),
            Err(e) => Err(e),
        }
    }

    /// Open a file by its ino.
    pub fn file_open_ino(center: &SaveData, ino: u32) -> (r: Result<File, Error>)
        requires
            center.wf(),
        ensures
            r is Ok ==> r->Ok_0.wf(*center) && r->Ok_0.ino == ino,
            !center.fs.live_file(ino as int) <==> r == Err::<File, Error>(Error::NotFound),
            r is Err ==> (r == Err::<File, Error>(Error::NotFound) || r == Err::<File, Error>(
                Error::SizeMismatch,
            ) || r == Err::<File, Error>(Error::BrokenFat)),
    {
        match center.fs.check_file_ino(ino) {
            Ok(()) => File::from_meta(center, ino),
            Err(e) => Err(e),
        }
    }

    /// Open a child directory by name.
    pub fn open_sub_dir(center: &SaveData, dir: &Dir, name: [u8; 16]) -> (r: Result<Dir, Error>)
        requires
            center.wf(),
        ensures
            r is Ok ==> center.fs.live_dir(r->Ok_0.ino as int) && center.fs.dirs@[r->Ok_0.ino as int].parent
                == dir.ino && center.fs.dirs@[r->Ok_0.ino as int].name@ == name@,
            (r is Err) <==> !center.fs.dir_child_exists(dir.ino, name@),
            r is Err ==> r == Err::<Dir, Error>(Error::NotFound),
    {
        match center.fs.lookup_dir(dir.ino, &name) {
            Ok(ino) => Ok(Dir { ino }),
            Err(e) => Err(e),
        }
    }

    /// Open a child file by name.
    pub fn open_sub_file(center: &SaveData, dir: &Dir, name: [u8; 16]) -> (r: Result<File, Error>)
        requires
            center.wf(),
        ensures
            r is Ok ==> r->Ok_0.wf(*center) && center.fs.files@[r->Ok_0.ino as int].parent
                == dir.ino && center.fs.files@[r->Ok_0.ino as int].name@ == name@,
            !center.fs.file_child_exists(dir.ino, name@) <==> r == Err::<File, Error>(
                Error::NotFound,
            ),
            r is Err ==> (r == Err::<File, Error>(Error::NotFound) || r == Err::<File, Error>(
                Error::SizeMismatch,
            ) || r == Err::<File, Error>(Error::BrokenFat)),
    {
        match center.fs.lookup_file(dir.ino, &name) {
            Ok(ino) => File::from_meta(center, ino),
            Err(e) => Err(e),
        }
    }

    /// The live child directories of a directory, in list order.
    pub fn list_sub_dir(center: &SaveData, dir: &Dir) -> (r: Result<Vec<([u8; 16], u32)>, Error>)
        requires
            center.wf(),
            center.fs.live_dir(dir.ino as int),
        ensures
            r is Err ==> r == Err::<Vec<([u8; 16], u32)>, Error>(Error::BrokenFat),
            (r is Ok) <==> FsMeta::dir_child_walk(
                center.fs.dirs@,
                dir.ino,
                center.fs.dirs@[dir.ino as int].sub_dir,
                center.fs.dirs@.len() as int,
            ) is Some,
            r is Ok ==> Option::Some(r->Ok_0@) == FsMeta::dir_child_walk(
                center.fs.dirs@,
                dir.ino,
                center.fs.dirs@[dir.ino as int].sub_dir,
                center.fs.dirs@.len() as int,
            ),
            r is Ok ==> forall|k: int|
                0 <= k < r->Ok_0@.len() ==> center.fs.live_dir((#[trigger] r->Ok_0@[k]).1 as int)
                    && center.fs.dirs@[r->Ok_0@[k].1 as int].parent == dir.ino,
    {
        center.fs.list_sub_dir(dir.ino)
    }

    /// The live child files of a directory, in list order.
    pub fn list_sub_file(center: &SaveData, dir: &Dir) -> (r: Result<Vec<([u8; 16], u32)>, Error>)
        requires
            center.wf(),
            center.fs.live_dir(dir.ino as int),
        ensures
            r is Err ==> r == Err::<Vec<([u8; 16], u32)>, Error>(Error::BrokenFat),
            (r is Ok) <==> FsMeta::file_child_walk(
                center.fs.files@,
                dir.ino,
                center.fs.dirs@[dir.ino as int].sub_file,
                center.fs.files@.len() as int,
            ) is Some,
            r is Ok ==> Option::Some(r->Ok_0@) == FsMeta::file_child_walk(
                center.fs.files@,
                dir.ino,
                center.fs.dirs@[dir.ino as int].sub_file,
                center.fs.files@.len() as int,
            ),
            r is Ok ==> forall|k: int|
                0 <= k < r->Ok_0@.len() ==> center.fs.live_file((#[trigger] r->Ok_0@[k]).1 as int)
                    && center.fs.files@[r->Ok_0@[k].1 as int].parent == dir.ino,
    {
        center.fs.list_sub_file(dir.ino)
    }

    /// Create an empty child directory. Rejects a name already used by
    /// a child directory or file of the same parent.
    pub fn new_sub_dir(center: &mut SaveData, dir: &Dir, name: [u8; 16]) -> (r: Result<Dir, Error>)
        requires
            old(center).wf(),
            old(center).fs.live_dir(dir.ino as int),
        ensures
            final(center).wf(),
            final(center).fat == old(center).fat,
            final(center).fs.dirs@.len() == old(center).fs.dirs@.len(),
            final(center).fs.files@ == old(center).fs.files@,
            (r == Err::<Dir, Error>(Error::AlreadyExist)) <==> (old(center).fs.dir_child_exists(
                dir.ino,
                name@,
            ) || old(center).fs.file_child_exists(dir.ino, name@)),
            (r == Err::<Dir, Error>(Error::NoSpace)) <==> (!old(center).fs.dir_child_exists(
                dir.ino,
                name@,
            ) && !old(center).fs.file_child_exists(dir.ino, name@) && !old(center).fs.dir_slot_avail()),
            r is Err ==> (r == Err::<Dir, Error>(Error::AlreadyExist) || r == Err::<Dir, Error>(
                Error::NoSpace,
            )) && final(center).fs.dirs@ == old(center).fs.dirs@ && final(center).fs.dir_hash@
                == old(center).fs.dir_hash@,
            r is Ok ==> final(center).fs.live_dir(r->Ok_0.ino as int) && final(center).fs.dirs@[r->Ok_0.ino as int].name@ == name@ && final(center).fs.dirs@[r->Ok_0.ino as int].parent == dir.ino,
            r is Ok ==> !old(center).fs.live_dir(r->Ok_0.ino as int) && r->Ok_0.ino != 1,
            r is Ok ==> forall|j: int|
                0 <= j < old(center).fs.dirs@.len() && j != r->Ok_0.ino ==> (#[trigger] final(center).fs.dirs@[j]).name@ == old(center).fs.dirs@[j].name@ && final(center).fs.dirs@[j].parent == old(center).fs.dirs@[j].parent,
            r is Ok ==> forall|j: int|
                0 <= j < old(center).fs.dirs@.len() && j != r->Ok_0.ino ==> (final(center).fs.live_dir(j) <==> old(center).fs.live_dir(j)),
    {
        match center.fs.new_sub_dir(dir.ino, &name) {
            Ok(ino) => Ok(Dir { ino }),
            Err(e) => Err(e),
        }
    }

    /// Create a child file of `len` bytes: for a nonzero length, carve
    /// its chain from the FAT free list first; if the metadata step then
    /// fails, the chain is rolled back onto the free list.
    pub fn new_sub_file(center: &mut SaveData, dir: &Dir, name: [u8; 16], len: usize) -> (r: Result<
        File,
        Error,
    >)
        requires
            old(center).wf(),
            old(center).fs.live_dir(dir.ino as int),
        ensures
            final(center).wf(),
            final(center).block_len == old(center).block_len,
            final(center).fat.block_len == old(center).fat.block_len,
            final(center).fat.block_count == old(center).fat.block_count,
            final(center).two_partitions == old(center).two_partitions,
            final(center).fat.data@ == old(center).fat.data@,
            final(center).fs.files@.len() == old(center).fs.files@.len(),
            final(center).fs.dirs@.len() == old(center).fs.dirs@.len(),
            (r == Err::<File, Error>(Error::AlreadyExist)) <==> (old(center).fs.dir_child_exists(
                dir.ino,
                name@,
            ) || old(center).fs.file_child_exists(dir.ino, name@)),
            (r == Err::<File, Error>(Error::NoSpace)) <==> (!old(center).fs.dir_child_exists(
                dir.ino,
                name@,
            ) && !old(center).fs.file_child_exists(dir.ino, name@) && ((len == 0 && !old(center).fs.file_slot_avail()) || (len > 0 && (len > usize::MAX - old(center).block_len
                || block_count_of(len as int, old(center).block_len as int) > old(center).fat.free_blocks().len() || !old(center).fs.file_slot_avail())))),
            r is Err ==> (r == Err::<File, Error>(Error::AlreadyExist) || r == Err::<File, Error>(
                Error::NoSpace,
            )),
            r is Err ==> final(center).fs.files@ == old(center).fs.files@ && final(center).fs.dirs@ == old(center).fs.dirs@ && final(center).fat.free_blocks() == old(center).fat.free_blocks(),
            r is Ok ==> r->Ok_0.wf(*final(center)) && r->Ok_0.len == len && final(center).fs.live_file(r->Ok_0.ino as int) && final(center).fs.files@[r->Ok_0.ino as int].name@
                == name@ && final(center).fs.files@[r->Ok_0.ino as int].parent == dir.ino && final(center).fs.files@[r->Ok_0.ino as int].size == len,
            r is Ok ==> !old(center).fs.live_file(r->Ok_0.ino as int),
            r is Ok && len == 0 ==> r->Ok_0.data is None && final(center).fat.free@ == old(center).fat.free@ && final(center).fat.table@ == old(center).fat.table@,
            r is Ok && len > 0 ==> match r->Ok_0.data {
                Option::Some(f) => old(center).fat.free_blocks() == f.blocks() + final(center).fat.free_blocks() && crate::fat::seqs_disjoint(
                    f.blocks(),
                    final(center).fat.free_blocks(),
                ) && f.blocks().len() == block_count_of(
                    len as int,
                    old(center).block_len as int,
                ) && f.blocks()[0] == final(center).fs.files@[r->Ok_0.ino as int].block,
                Option::None => false,
            },
            r is Ok ==> forall|j: int|
                1 <= j < old(center).fs.files@.len() && j != r->Ok_0.ino ==> ((final(center).fs.live_file(j) <==> old(center).fs.live_file(j)) && (#[trigger] final(center).fs.files@[j]).name@ == old(center).fs.files@[j].name@ && final(center).fs.files@[j].parent == old(center).fs.files@[j].parent),
    {
        if center.fs.lookup_dir(dir.ino, &name).is_ok() || center.fs.lookup_file(
            dir.ino,
            &name,
        ).is_ok() {
            return Err(Error::AlreadyExist);
        }
        if len == 0 {
            match center.fs.new_sub_file(dir.ino, &name, 0x8000_0000, 0) {
                Ok(ino) => Ok(File { ino, data: None, len: 0 }),
                Err(e) => Err(e),
            }
        } else {
            if len > usize::MAX - center.block_len {
                return Err(Error::NoSpace);
            }
            let blocks = 1 + (len - 1) / center.block_len;
            proof {
                let bl = center.block_len as int;
                vstd::arithmetic::div_mod::lemma_fundamental_div_mod((len - 1) as int, bl);
                assert(((len - 1) as int) / bl * bl == bl * (((len - 1) as int) / bl))
                    by (nonlinear_arith);
                assert(len <= (1 + ((len - 1) as int) / bl) * bl) by (nonlinear_arith)
                    requires
                        ((len - 1) as int) / bl * bl >= len - 1 - (bl - 1),
                        bl >= 1,
                ;
            }
            let (fat_file, start) = match FatFile::create(&mut center.fat, blocks) {
                Ok(x) => x,
                Err(e) => {
                    return Err(e);
                },
            };
            let ghost mid = *center;
            match center.fs.new_sub_file(dir.ino, &name, start as u32, len as u64) {
                Ok(ino) => Ok(File { ino, data: Some(fat_file), len }),
                Err(e) => {
                    match fat_file.delete(&mut center.fat) {
                        Ok(()) => {
                            proof {
                                assert(center.fat.free_blocks() == old(center).fat.free_blocks());
                            }
                            Err(e)
                        },
                        Err(_) => {
                            proof {
                                assert(false);
                            }
                            Err(e)
                        },
                    }
                },
            }
        }
    }

    /// The file's current byte length.
    pub fn len(file: &File) -> (r: usize)
        ensures
            r == file.len,
    {
        file.len
    }

    /// Read `buf.len()` bytes at `pos`, within the file's length.
    pub fn read(center: &SaveData, file: &File, pos: usize, buf: &mut Vec<u8>) -> (r: Result<
        (),
        Error,
    >)
        requires
            center.wf(),
            file.wf(*center),
        ensures
            final(buf)@.len() == old(buf)@.len(),
            (r is Ok) <==> pos + old(buf)@.len() <= file.len,
            r is Err ==> r == Err::<(), Error>(Error::OutOfBound),
            r is Ok ==> match file.data {
                Option::Some(f) => forall|t: int|
                    0 <= t < old(buf)@.len() ==> final(buf)@[t] == crate::fat::file_byte(
                        center.fat.data@,
                        f.blocks(),
                        center.block_len as int,
                        pos + t,
                    ),
                Option::None => old(buf)@.len() == 0,
            },
    {
        let n = buf.len();
        if n > file.len || pos > file.len - n {
            return Err(Error::OutOfBound);
        }
        match &file.data {
            Some(f) => f.read(&center.fat, pos, buf),
            None => Ok(()),
        }
    }

    /// Write the bytes at `pos`, within the file's length.
    pub fn write(center: &mut SaveData, file: &File, pos: usize, buf: &Vec<u8>) -> (r: Result<
        (),
        Error,
    >)
        requires
            old(center).wf(),
            file.wf(*old(center)),
        ensures
            final(center).wf(),
            file.wf(*final(center)),
            final(center).fs == old(center).fs,
            final(center).block_len == old(center).block_len,
            final(center).fat.block_len == old(center).fat.block_len,
            final(center).fat.block_count == old(center).fat.block_count,
            final(center).two_partitions == old(center).two_partitions,
            final(center).fat.table@ == old(center).fat.table@,
            final(center).fat.free@ == old(center).fat.free@,
            final(center).fat.data@.len() == old(center).fat.data@.len(),
            (r is Ok) <==> pos + buf@.len() <= file.len,
            r is Err ==> r == Err::<(), Error>(Error::OutOfBound) && final(center).fat.data@
                == old(center).fat.data@,
            r is Ok ==> match file.data {
                Option::Some(f) => forall|t: int|
                    0 <= t < buf@.len() ==> crate::fat::file_byte(
                        final(center).fat.data@,
                        f.blocks(),
                        old(center).block_len as int,
                        pos + t,
                    ) == buf@[t],
                Option::None => buf@.len() == 0,
            },
            r is Ok ==> match file.data {
                Option::Some(f) => forall|j: int|
                    0 <= j < old(center).fat.data@.len() && !crate::fat::mapped_in_range(
                        f.blocks(),
                        old(center).block_len as int,
                        pos as int,
                        buf@.len() as int,
                        j,
                    ) ==> final(center).fat.data@[j] == old(center).fat.data@[j],
                Option::None => final(center).fat.data@ == old(center).fat.data@,
            },
    {
        let n = buf.len();
        if n > file.len || pos > file.len - n {
            return Err(Error::OutOfBound);
        }
        match &file.data {
            Some(f) => f.write(&mut center.fat, pos, buf),
            None => Ok(()),
        }
    }

    /// Grow or shrink a file to `len` bytes. Growth carves fresh blocks
    /// from the free list and splices them at the tail; within the
    /// surviving prefix the bytes read after a resize are the bytes
    /// before it, while fresh blocks expose whatever they held, not
    /// necessarily zero. On any error nothing changes.
    pub fn resize(center: &mut SaveData, file: &mut File, len: usize) -> (r: Result<(), Error>)
        requires
            old(center).wf(),
            old(file).wf(*old(center)),
        ensures
            final(center).wf(),
            final(file).wf(*final(center)),
            final(file).ino == old(file).ino,
            final(center).block_len == old(center).block_len,
            final(center).fat.block_len == old(center).fat.block_len,
            final(center).fat.block_count == old(center).fat.block_count,
            final(center).two_partitions == old(center).two_partitions,
            final(center).fat.data@ == old(center).fat.data@,
            final(center).fs.dirs@ == old(center).fs.dirs@,
            final(center).fs.files@.len() == old(center).fs.files@.len(),
            forall|j: int|
                0 <= j < old(center).fs.files@.len() && j != old(file).ino ==> final(center).fs.files@[j] == old(center).fs.files@[j],
            (r == Err::<(), Error>(Error::NoSpace)) <==> (len != old(file).len && len > 0 && (len
                > usize::MAX - old(center).block_len || (old(file).len == 0 && block_count_of(
                len as int,
                old(center).block_len as int,
            ) > old(center).fat.free_blocks().len()) || (old(file).len > 0 && len <= usize::MAX
                - old(center).block_len && crate::fat::run_lists_disjoint(
                old(file).data->Some_0.runs@,
                old(center).fat.free@,
            ) && block_count_of(len as int, old(center).block_len as int) > chain_blocks(
                *old(file),
            ).len() && block_count_of(len as int, old(center).block_len as int) - chain_blocks(
                *old(file),
            ).len() > old(center).fat.free_blocks().len()))),
            (r == Err::<(), Error>(Error::BrokenFat)) <==> (len != old(file).len && ((len == 0
                && !crate::fat::seqs_disjoint(
                chain_blocks(*old(file)),
                old(center).fat.free_blocks(),
            )) || (len > 0 && old(file).len > 0 && len <= usize::MAX - old(center).block_len
                && block_count_of(len as int, old(center).block_len as int) != chain_blocks(
                *old(file),
            ).len() && !crate::fat::run_lists_disjoint(
                old(file).data->Some_0.runs@,
                old(center).fat.free@,
            )))),
            r is Err ==> (r == Err::<(), Error>(Error::NoSpace) || r == Err::<(), Error>(
                Error::BrokenFat,
            )),
            r is Err ==> final(file).len == old(file).len && chain_blocks(*final(file))
                == chain_blocks(*old(file)) && final(center).fat.free@ == old(center).fat.free@
                && final(center).fat.table@ == old(center).fat.table@ && final(center).fs.files@
                == old(center).fs.files@,
            r is Ok ==> final(file).len == len && final(center).fs.live_file(
                final(file).ino as int,
            ) && final(center).fs.files@[final(file).ino as int].size == len,
            r is Ok && len != old(file).len ==> chain_blocks(*final(file)).len()
                == block_count_of(len as int, old(center).block_len as int),
            r is Ok ==> chain_blocks(*old(file)) + old(center).fat.free_blocks() == chain_blocks(
                *final(file),
            ) + final(center).fat.free_blocks(),
            r is Ok ==> forall|t: int|
                0 <= t < chain_blocks(*old(file)).len() && t < chain_blocks(*final(file)).len()
                    ==> chain_blocks(*final(file))[t] == chain_blocks(*old(file))[t],
            r is Ok ==> forall|i: int|
                0 <= i < old(file).len && i < len ==> crate::fat::file_byte(
                    final(center).fat.data@,
                    chain_blocks(*final(file)),
                    old(center).block_len as int,
                    i,
                ) == crate::fat::file_byte(
                    old(center).fat.data@,
                    chain_blocks(*old(file)),
                    old(center).block_len as int,
                    i,
                ),
            r is Ok ==> (len == 0 ==> final(file).data is None && final(center).fs.files@[final(file).ino as int].block == 0x8000_0000),
            r is Ok ==> (len > 0 ==> match final(file).data {
                Option::Some(f) => f.blocks()[0] == final(center).fs.files@[final(file).ino as int].block,
                Option::None => false,
            }),
    {
        if len == file.len {
            proof {
                assert(center.fs.files@[file.ino as int].size == file.len);
            }
            return Ok(());
        }
        let ino = file.ino;
        if file.len == 0 {
            // zero to nonzero: carve a fresh chain
            if len > usize::MAX - center.block_len {
                return Err(Error::NoSpace);
            }
            let blocks = 1 + (len - 1) / center.block_len;
            proof {
                let bl = center.block_len as int;
                vstd::arithmetic::div_mod::lemma_fundamental_div_mod((len - 1) as int, bl);
                assert(((len - 1) as int) / bl * bl == bl * (((len - 1) as int) / bl))
                    by (nonlinear_arith);
                assert(len <= (1 + ((len - 1) as int) / bl) * bl) by (nonlinear_arith)
                    requires
                        ((len - 1) as int) / bl * bl >= len - 1 - (bl - 1),
                        bl >= 1,
                ;
            }
            let (fat_file, start) = match FatFile::create(&mut center.fat, blocks) {
                Ok(x) => x,
                Err(e) => {
                    return Err(e);
                },
            };
            center.fs.set_file_info(ino, start as u32, len as u64);
            file.data = Some(fat_file);
            file.len = len;
            Ok(())
        } else if len == 0 {
            // nonzero to zero: free the chain
            let f = match &file.data {
                Some(f0) => f0.duplicate(),
                None => {
                    proof {
                        assert(false);
                    }
                    return Err(Error::BrokenFat);
                },
            };
            match f.delete(&mut center.fat) {
                Ok(()) => {},
                Err(e) => {
                    return Err(e);
                },
            }
            file.data = None;
            center.fs.set_file_info(ino, 0x8000_0000, 0);
            file.len = 0;
            Ok(())
        } else {
            if len > usize::MAX - center.block_len {
                return Err(Error::NoSpace);
            }
            let blocks = 1 + (len - 1) / center.block_len;
            let mut f = match &file.data {
                Some(f0) => f0.duplicate(),
                None => {
                    proof {
                        assert(false);
                    }
                    return Err(Error::BrokenFat);
                },
            };
            let ghost old_chain = f.blocks();
            match f.resize(&mut center.fat, blocks) {
                Ok(()) => {},
                Err(e) => {
                    return Err(e);
                },
            }
            proof {
                let bl = center.block_len as int;
                vstd::arithmetic::div_mod::lemma_fundamental_div_mod((len - 1) as int, bl);
                assert(((len - 1) as int) / bl * bl == bl * (((len - 1) as int) / bl))
                    by (nonlinear_arith);
                assert(len <= (1 + ((len - 1) as int) / bl) * bl) by (nonlinear_arith)
                    requires
                        ((len - 1) as int) / bl * bl >= len - 1 - (bl - 1),
                        bl >= 1,
                ;
                crate::fat::lemma_resize_preserves_bytes(
                    center.fat.data@,
                    old_chain,
                    f.blocks(),
                    bl,
                    if old_chain.len() <= f.blocks().len() {
                        old_chain.len() as int
                    } else {
                        f.blocks().len() as int
                    },
                );
            }
            center.fs.set_file_info(ino, center.fs.file_entry(ino).block, len as u64);
            file.data = Some(f);
            file.len = len;
            Ok(())
        }
    }

    /// Delete a file: free its chain, then free its metadata slot.
    pub fn file_delete(center: &mut SaveData, file: File) -> (r: Result<(), Error>)
        requires
            old(center).wf(),
            file.wf(*old(center)),
        ensures
            final(center).wf(),
            final(center).block_len == old(center).block_len,
            final(center).fat.block_len == old(center).fat.block_len,
            final(center).fat.block_count == old(center).fat.block_count,
            final(center).two_partitions == old(center).two_partitions,
            final(center).fat.data@ == old(center).fat.data@,
            final(center).fs.dirs@.len() == old(center).fs.dirs@.len(),
            final(center).fs.files@.len() == old(center).fs.files@.len(),
            forall|j: int|
                0 <= j < old(center).fs.dirs@.len() ==> ((final(center).fs.live_dir(j) <==> old(center).fs.live_dir(j)) && (#[trigger] final(center).fs.dirs@[j]).name@ == old(center).fs.dirs@[j].name@ && final(center).fs.dirs@[j].parent == old(center).fs.dirs@[j].parent),
            r is Err ==> r == Err::<(), Error>(Error::BrokenFat),
            r is Err ==> final(center).fs.files@ == old(center).fs.files@,
            !crate::fat::seqs_disjoint(chain_blocks(file), old(center).fat.free_blocks()) ==> r
                == Err::<(), Error>(Error::BrokenFat) && final(center).fat.free@ == old(center).fat.free@ && final(center).fat.table@ == old(center).fat.table@,
            r is Ok ==> !final(center).fs.live_file(file.ino as int),
            r is Ok ==> match file.data {
                Option::Some(f) => final(center).fat.free_blocks() == f.blocks() + old(center).fat.free_blocks(),
                Option::None => final(center).fat.free@ == old(center).fat.free@,
            },
            r is Ok ==> forall|j: int|
                1 <= j < old(center).fs.files@.len() && j != file.ino ==> ((final(center).fs.live_file(j) <==> old(center).fs.live_file(j)) && (#[trigger] final(center).fs.files@[j]).name@ == old(center).fs.files@[j].name@ && final(center).fs.files@[j].parent == old(center).fs.files@[j].parent),
    {
        match file.data {
            Some(f) => {
                match f.delete(&mut center.fat) {
                    Ok(()) => {},
                    Err(e) => {
                        return Err(e);
                    },
                }
            },
            None => {},
        }
        center.fs.delete_file(file.ino)
    }

    /// Delete an empty directory.
    pub fn dir_delete(center: &mut SaveData, dir: Dir) -> (r: Result<(), Error>)
        requires
            old(center).wf(),
        ensures
            final(center).wf(),
            final(center).fat == old(center).fat,
            (r == Err::<(), Error>(Error::NotFound)) <==> !(old(center).fs.live_dir(
                dir.ino as int,
            ) && dir.ino != 1),
            (r == Err::<(), Error>(Error::DeletingNonEmpty)) <==> (old(center).fs.live_dir(
                dir.ino as int,
            ) && dir.ino != 1 && (old(center).fs.dirs@[dir.ino as int].sub_dir != 0 || old(center).fs.dirs@[dir.ino as int].sub_file != 0)),
            r is Err ==> (r == Err::<(), Error>(Error::NotFound) || r == Err::<(), Error>(
                Error::DeletingNonEmpty,
            ) || r == Err::<(), Error>(Error::BrokenFat)),
            r is Err ==> final(center).fs.dirs@ == old(center).fs.dirs@ && final(center).fs.dir_hash@ == old(center).fs.dir_hash@,
            final(center).fs.files@ == old(center).fs.files@,
            r is Ok ==> !final(center).fs.live_dir(dir.ino as int),
            r is Ok ==> forall|j: int|
                0 <= j < old(center).fs.dirs@.len() && j != dir.ino ==> ((final(center).fs.live_dir(j) <==> old(center).fs.live_dir(j)) && (#[trigger] final(center).fs.dirs@[j]).name@ == old(center).fs.dirs@[j].name@ && final(center).fs.dirs@[j].parent == old(center).fs.dirs@[j].parent),
    {
        center.fs.delete_dir(dir.ino)
    }

    /// Move a directory under a new parent with a new name.
    pub fn dir_rename(center: &mut SaveData, dir: &Dir, new_parent: &Dir, name: [u8; 16]) -> (r:
        Result<(), Error>)
        requires
            old(center).wf(),
        ensures
            final(center).wf(),
            final(center).fat == old(center).fat,
            (r == Err::<(), Error>(Error::AlreadyExist)) <==> (old(center).fs.live_dir(
                dir.ino as int,
            ) && dir.ino != 1 && old(center).fs.live_dir(new_parent.ino as int) && (old(center).fs.dir_child_exists(new_parent.ino, name@) || old(center).fs.file_child_exists(
                new_parent.ino,
                name@,
            ))),
            r is Err ==> final(center).fs.dirs@ == old(center).fs.dirs@ && final(center).fs.dir_hash@ == old(center).fs.dir_hash@,
            final(center).fs.files@ == old(center).fs.files@,
            r is Ok ==> final(center).fs.live_dir(dir.ino as int) && final(center).fs.dirs@[dir.ino as int].name@ == name@ && final(center).fs.dirs@[dir.ino as int].parent
                == new_parent.ino,
            r is Ok ==> forall|j: int|
                0 <= j < old(center).fs.dirs@.len() && j != dir.ino ==> ((final(center).fs.live_dir(j) <==> old(center).fs.live_dir(j)) && (#[trigger] final(center).fs.dirs@[j]).name@ == old(center).fs.dirs@[j].name@ && final(center).fs.dirs@[j].parent == old(center).fs.dirs@[j].parent),
    {
        center.fs.rename_dir(dir.ino, new_parent.ino, &name)
    }

    /// Move a file under a new parent directory with a new name.
    pub fn file_rename(center: &mut SaveData, file: &File, new_parent: &Dir, name: [u8; 16]) -> (r:
        Result<(), Error>)
        requires
            old(center).wf(),
        ensures
            final(center).wf(),
            final(center).fat == old(center).fat,
            (r == Err::<(), Error>(Error::AlreadyExist)) <==> (old(center).fs.live_file(
                file.ino as int,
            ) && old(center).fs.live_dir(new_parent.ino as int) && (old(center).fs.dir_child_exists(
                new_parent.ino,
                name@,
            ) || old(center).fs.file_child_exists(new_parent.ino, name@))),
            r is Err ==> final(center).fs.files@ == old(center).fs.files@ && final(center).fs.dirs@ == old(center).fs.dirs@ && final(center).fs.file_hash@ == old(center).fs.file_hash@,
            r is Ok ==> final(center).fs.live_file(file.ino as int) && final(center).fs.files@[file.ino as int].name@ == name@ && final(center).fs.files@[file.ino as int].parent == new_parent.ino && final(center).fs.files@[file.ino as int].block
                == old(center).fs.files@[file.ino as int].block && final(center).fs.files@[file.ino as int].size == old(center).fs.files@[file.ino as int].size,
            r is Ok ==> forall|j: int|
                0 <= j < old(center).fs.files@.len() && j != file.ino ==> ((final(center).fs.live_file(j) <==> old(center).fs.live_file(j)) && (#[trigger] final(center).fs.files@[j]).name@ == old(center).fs.files@[j].name@ && final(center).fs.files@[j].parent == old(center).fs.files@[j].parent),
    {
        center.fs.rename_file(file.ino, new_parent.ino, &name)
    }

    /// The parent ino recorded in a directory entry.
    pub fn dir_get_parent_ino(center: &SaveData, dir: &Dir) -> (r: u32)
        requires
            center.wf(),
            center.fs.live_dir(dir.ino as int),
        ensures
            r == center.fs.dirs@[dir.ino as int].parent,
    {
        center.fs.dir_entry(dir.ino).parent
    }

    /// The directory's own ino.
    pub fn dir_get_ino(dir: &Dir) -> (r: u32)
        ensures
            r == dir.ino,
    {
        dir.ino
    }

    /// The parent directory ino recorded in a file entry.
    pub fn file_get_parent_ino(center: &SaveData, file: &File) -> (r: u32)
        requires
            center.wf(),
            center.fs.live_file(file.ino as int),
        ensures
            r == center.fs.files@[file.ino as int].parent,
    {
        center.fs.file_entry(file.ino).parent
    }

    /// The file's own ino.
    pub fn file_get_ino(file: &File) -> (r: u32)
        ensures
            r == file.ino,
    {
        file.ino
    }

    /// Flush every table into the first partition's image: the FAT
    /// table, both hash tables, and the directory and file tables, each
    /// serialized into its recorded region.
    pub fn commit(center: &mut SaveData) -> (r: Result<(), Error>)
        requires
            old(center).wf(),
        ensures
            final(center).wf(),
            r is Ok,
            final(center).part0@.len() == old(center).part0@.len(),
            final(center).fs == old(center).fs,
            final(center).block_len == old(center).block_len,
            final(center).two_partitions == old(center).two_partitions,
            final(center).fat.table@ == old(center).fat.table@,
            final(center).fat.free@ == old(center).fat.free@,
            forall|k: int|
                0 <= k < final(center).fat.table@.len() ==> le32(
                    final(center).part0@,
                    final(center).fat_off + 8 * k,
                ) == (#[trigger] final(center).fat.table@[k]).u && le32(
                    final(center).part0@,
                    final(center).fat_off + 8 * k + 4,
                ) == final(center).fat.table@[k].v,
            forall|k: int|
                0 <= k < final(center).fs.dir_hash@.len() ==> le32(
                    final(center).part0@,
                    final(center).dir_hash_off + 4 * k,
                ) == #[trigger] final(center).fs.dir_hash@[k],
            forall|k: int|
                0 <= k < final(center).fs.file_hash@.len() ==> le32(
                    final(center).part0@,
                    final(center).file_hash_off + 4 * k,
                ) == #[trigger] final(center).fs.file_hash@[k],
            final(center).two_partitions ==> forall|k: int|
                0 <= k < final(center).fs.dirs@.len() ==> (final(center).part0@.subrange(
                    final(center).dir_table_off + 40 * k,
                    final(center).dir_table_off + 40 * k + 16,
                ) == (#[trigger] final(center).fs.dirs@[k]).name@ && le32(
                    final(center).part0@,
                    final(center).dir_table_off + 40 * k + 16,
                ) == final(center).fs.dirs@[k].parent),
            final(center).two_partitions ==> forall|k: int|
                0 <= k < final(center).fs.files@.len() ==> (final(center).part0@.subrange(
                    final(center).file_table_off + 48 * k,
                    final(center).file_table_off + 48 * k + 16,
                ) == (#[trigger] final(center).fs.files@[k]).name@ && le32(
                    final(center).part0@,
                    final(center).file_table_off + 48 * k + 28,
                ) == final(center).fs.files@[k].block && le64(
                    final(center).part0@,
                    final(center).file_table_off + 48 * k + 32,
                ) == final(center).fs.files@[k].size),
            !final(center).two_partitions ==> final(center).part0@.subrange(
                final(center).data_off as int,
                final(center).data_off + final(center).fat.block_count * final(center).block_len,
            ) == final(center).fat.data@,
    {
        center.commit()
    }
}

} // verus!
