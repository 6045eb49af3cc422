//! Filesystem metadata: directory and file tables addressed by hash
//! buckets, with a singly-linked child list per directory. Slot 0 of each
//! table heads a free-slot list through the `next` field; slot 1 of the
//! directory table is the root directory. An entry is live when its
//! parent field is nonzero (the root is always live); dead entries sit on
//! the free list with parent 0.
//!
//! Creation, deletion and rename maintain the on-disk hash-bucket chains
//! and child lists. In-memory name search scans the loaded table, which
//! on a consistent table returns the same entry as a walk of the
//! `(parent, name)` bucket's chain, and admits an exact contract: an
//! entry is found exactly when a live one with that key exists.

use crate::bytes::{le32, le64, read_u32_le, read_u64_le, write_u32_le, write_u64_le, zeros};
use crate::error::Error;
use vstd::prelude::*;

verus! {

/// Bytes per directory record on disk: 16-byte name, parent ino, the
/// 16-byte payload (sibling next, first child dir, first child file,
/// padding) and the hash-chain next.
pub const DIR_ENTRY_LEN: usize = 40;

/// Bytes per file record on disk: 16-byte name, parent ino, the 24-byte
/// payload (sibling next, padding, start block, size, padding) and the
/// hash-chain next.
pub const FILE_ENTRY_LEN: usize = 48;

#[derive(Clone, Copy, Debug)]
pub struct DirEntry {
    pub name: [u8; 16],
    pub parent: u32,
    pub next: u32,
    pub sub_dir: u32,
    pub sub_file: u32,
    pub hash_next: u32,
}

#[derive(Clone, Copy, Debug)]
pub struct FileEntry {
    pub name: [u8; 16],
    pub parent: u32,
    pub next: u32,
    pub block: u32,
    pub size: u64,
    pub hash_next: u32,
}

pub struct FsMeta {
    pub dir_hash: Vec<u32>,
    pub dirs: Vec<DirEntry>,
    pub file_hash: Vec<u32>,
    pub files: Vec<FileEntry>,
}

/// The bucket-selection hash: parent ino XOR the four little-endian
/// words of the 16-byte name.
pub open spec fn hash_of(parent: u32, name: Seq<u8>) -> u32 {
    (((parent ^ (le32(name, 0) as u32)) ^ (le32(name, 4) as u32)) ^ (le32(name, 8) as u32)) ^ (le32(
        name,
        12,
    ) as u32)
}

/// One little-endian word of a 16-byte name.
fn name_word(name: &[u8; 16], o: usize) -> (r: u32)
    requires
        o + 4 <= 16,
    ensures
        r == le32(name@, o as int),
{
    let b0 = name[o] as u32;
    let b1 = name[o + 1] as u32;
    let b2 = name[o + 2] as u32;
    let b3 = name[o + 3] as u32;
    b0 + b1 * 0x100 + b2 * 0x10000 + b3 * 0x1000000
}

/// Byte-exact name comparison.
pub fn names_equal(a: &[u8; 16], b: &[u8; 16]) -> (r: bool)
    ensures
        r <==> a@ == b@,
{
    let mut k: usize = 0;
    while k < 16
        invariant
            k <= 16,
            forall|i: int| 0 <= i < k ==> a@[i] == b@[i],
        decreases 16 - k,
    {
        if a[k] != b[k] {
            assert(a@ != b@);
            return false;
        }
        k = k + 1;
    }
    proof {
        assert(a@ =~= b@);
    }
    true
}

/// Copy a 16-byte name out of a byte region.
fn read_name(b: &Vec<u8>, off: usize) -> (r: [u8; 16])
    requires
        off + 16 <= b@.len(),
    ensures
        r@ == b@.subrange(off as int, off + 16),
{
    let _len: usize = b.len();
    let r = [b[off], b[off + 1], b[off + 2], b[off + 3], b[off + 4], b[off + 5], b[off + 6], b[off
        + 7], b[off + 8], b[off + 9], b[off + 10], b[off + 11], b[off + 12], b[off + 13], b[off
        + 14], b[off + 15]];
    proof {
        assert(r@ =~= b@.subrange(off as int, off + 16));
    }
    r
}

/// Write a 16-byte name into a byte region.
#[verifier::loop_isolation(false)]
fn write_name(b: &mut Vec<u8>, off: usize, name: &[u8; 16])
    requires
        off + 16 <= old(b)@.len(),
    ensures
        final(b)@.len() == old(b)@.len(),
        forall|i: int| off <= i < off + 16 ==> final(b)@[i] == name@[i - off],
        forall|i: int|
            0 <= i < old(b)@.len() && !(off <= i < off + 16) ==> final(b)@[i] == old(b)@[i],
{
    let _len: usize = b.len();
    let mut k: usize = 0;
    while k < 16
        invariant
            k <= 16,
            off + 16 <= b@.len(),
            b@.len() == old(b)@.len(),
            forall|i: int| off <= i < off + k ==> b@[i] == name@[i - off],
            forall|i: int|
                0 <= i < old(b)@.len() && !(off <= i < off + k) ==> b@[i] == old(b)@[i],
        decreases 16 - k,
    {
        let v = name[k];
        b.set(off + k, v);
        k = k + 1;
    }
}

impl FsMeta {
    /// Table and bucket counts are capped so that every serialized
    /// table size (at most count * 48 bytes) fits a 32-bit address
    /// space; the format's own u32 counts allow more, but such a table
    /// could not be held in memory on the smallest supported machine.
    pub open spec fn wf(self) -> bool {
        &&& self.dirs@.len() >= 2
        &&& self.files@.len() >= 1
        &&& self.dir_hash@.len() >= 1
        &&& self.file_hash@.len() >= 1
        &&& self.dirs@.len() <= 0x00FF_FFFF
        &&& self.files@.len() <= 0x00FF_FFFF
        &&& self.dir_hash@.len() <= 0x00FF_FFFF
        &&& self.file_hash@.len() <= 0x00FF_FFFF
    }

    /// A directory slot holding a live entry. The root, ino 1, is always
    /// live; other slots are live while their parent field is nonzero.
    pub open spec fn live_dir(self, ino: int) -> bool {
        1 <= ino < self.dirs@.len() && (ino == 1 || self.dirs@[ino].parent != 0)
    }

    /// A file slot holding a live entry.
    pub open spec fn live_file(self, ino: int) -> bool {
        1 <= ino < self.files@.len() && self.files@[ino].parent != 0
    }

    /// A live directory entry named `name` under `parent` exists.
    pub open spec fn dir_child_exists(self, parent: u32, name: Seq<u8>) -> bool {
        exists|i: int|
            #[trigger] self.live_dir(i) && self.dirs@[i].parent == parent && self.dirs@[i].name@
                == name
    }

    /// A live file entry named `name` under `parent` exists.
    pub open spec fn file_child_exists(self, parent: u32, name: Seq<u8>) -> bool {
        exists|i: int|
            #[trigger] self.live_file(i) && self.files@[i].parent == parent && self.files@[i].name@
                == name
    }

    /// The next directory slot the free list would hand out is usable.
    pub open spec fn dir_slot_avail(self) -> bool {
        let h = self.dirs@[0].next;
        2 <= h < self.dirs@.len() && self.dirs@[h as int].parent == 0
    }

    /// The next file slot the free list would hand out is usable.
    pub open spec fn file_slot_avail(self) -> bool {
        let h = self.files@[0].next;
        1 <= h < self.files@.len() && self.files@[h as int].parent == 0
    }

    pub fn dir_entry(&self, ino: u32) -> (r: DirEntry)
        requires
            self.wf(),
            self.live_dir(ino as int),
        ensures
            r == self.dirs@[ino as int],
    {
        self.dirs[ino as usize]
    }

    pub fn file_entry(&self, ino: u32) -> (r: FileEntry)
        requires
            self.wf(),
            self.live_file(ino as int),
        ensures
            r == self.files@[ino as int],
    {
        self.files[ino as usize]
    }

    /// Bounds- and liveness-check a directory ino.
    pub fn check_dir_ino(&self, ino: u32) -> (r: Result<(), Error>)
        requires
            self.wf(),
        ensures
            (r is Ok) <==> self.live_dir(ino as int),
            r is Err ==> r == Err::<(), Error>(Error::NotFound),
    {
        if ino as usize >= self.dirs.len() || ino == 0 {
            return Err(Error::NotFound);
        }
        if ino != 1 && self.dirs[ino as usize].parent == 0 {
            return Err(Error::NotFound);
        }
        Ok(())
    }

    /// Bounds- and liveness-check a file ino.
    pub fn check_file_ino(&self, ino: u32) -> (r: Result<(), Error>)
        requires
            self.wf(),
        ensures
            (r is Ok) <==> self.live_file(ino as int),
            r is Err ==> r == Err::<(), Error>(Error::NotFound),
    {
        if ino as usize >= self.files.len() || ino == 0 {
            return Err(Error::NotFound);
        }
        if self.files[ino as usize].parent == 0 {
            return Err(Error::NotFound);
        }
        Ok(())
    }

    /// Find the live directory entry named `name` under `parent`, by a
    /// scan of the loaded table.
    #[verifier::loop_isolation(false)]
    pub fn lookup_dir(&self, parent: u32, name: &[u8; 16]) -> (r: Result<u32, Error>)
        requires
            self.wf(),
        ensures
            r is Ok ==> self.live_dir(r->Ok_0 as int) && self.dirs@[r->Ok_0 as int].parent
                == parent && self.dirs@[r->Ok_0 as int].name@ == name@,
            (r is Err) <==> !self.dir_child_exists(parent, name@),
            r is Err ==> r == Err::<u32, Error>(Error::NotFound),
    {
        let n = self.dirs.len();
        let mut i: usize = 1;
        while i < n
            invariant
                1 <= i <= n,
                forall|j: int|
                    1 <= j < i ==> !(#[trigger] self.live_dir(j) && self.dirs@[j].parent == parent
                        && self.dirs@[j].name@ == name@),
            decreases n - i,
        {
            let e = self.dirs[i];
            if (i == 1 || e.parent != 0) && e.parent == parent && names_equal(&e.name, name) {
                proof {
                    assert(self.live_dir(i as int));
                    assert(self.dir_child_exists(parent, name@));
                }
                return Ok(i as u32);
            }
            i = i + 1;
        }
        Err(Error::NotFound)
    }

    /// Find the live file entry named `name` under `parent`, by a scan
    /// of the loaded table.
    #[verifier::loop_isolation(false)]
    pub fn lookup_file(&self, parent: u32, name: &[u8; 16]) -> (r: Result<u32, Error>)
        requires
            self.wf(),
        ensures
            r is Ok ==> self.live_file(r->Ok_0 as int) && self.files@[r->Ok_0 as int].parent
                == parent && self.files@[r->Ok_0 as int].name@ == name@,
            (r is Err) <==> !self.file_child_exists(parent, name@),
            r is Err ==> r == Err::<u32, Error>(Error::NotFound),
    {
        let n = self.files.len();
        let mut i: usize = 1;
        while i < n
            invariant
                1 <= i <= n,
                forall|j: int|
                    1 <= j < i ==> !(#[trigger] self.live_file(j) && self.files@[j].parent
                        == parent && self.files@[j].name@ == name@),
            decreases n - i,
        {
            let e = self.files[i];
            if e.parent != 0 && e.parent == parent && names_equal(&e.name, name) {
                proof {
                    assert(self.live_file(i as int));
                    assert(self.file_child_exists(parent, name@));
                }
                return Ok(i as u32);
            }
            i = i + 1;
        }
        Err(Error::NotFound)
    }

    /// The bucket index for `(parent, name)` in the directory hash table.
    fn dir_bucket(&self, parent: u32, name: &[u8; 16]) -> (r: usize)
        requires
            self.wf(),
        ensures
            r == hash_of(parent, name@) % (self.dir_hash@.len() as u32),
            r < self.dir_hash@.len(),
    {
        let w0 = name_word(name, 0);
        let w1 = name_word(name, 4);
        let w2 = name_word(name, 8);
        let w3 = name_word(name, 12);
        let h = (((parent ^ w0) ^ w1) ^ w2) ^ w3;
        (h % (self.dir_hash.len() as u32)) as usize
    }

    /// The bucket index for `(parent, name)` in the file hash table.
    fn file_bucket(&self, parent: u32, name: &[u8; 16]) -> (r: usize)
        requires
            self.wf(),
        ensures
            r == hash_of(parent, name@) % (self.file_hash@.len() as u32),
            r < self.file_hash@.len(),
    {
        let w0 = name_word(name, 0);
        let w1 = name_word(name, 4);
        let w2 = name_word(name, 8);
        let w3 = name_word(name, 12);
        let h = (((parent ^ w0) ^ w1) ^ w2) ^ w3;
        (h % (self.file_hash.len() as u32)) as usize
    }

    /// Create a directory entry under a live parent: reject duplicates
    /// against both child kinds, pop the first free slot, prepend to the
    /// parent's child list and to its hash bucket's chain.
    pub fn new_sub_dir(&mut self, parent: u32, name: &[u8; 16]) -> (r: Result<u32, Error>)
        requires
            old(self).wf(),
            old(self).live_dir(parent as int),
        ensures
            final(self).wf(),
            final(self).dir_hash@.len() == old(self).dir_hash@.len(),
            final(self).file_hash@.len() == old(self).file_hash@.len(),
            final(self).dirs@.len() == old(self).dirs@.len(),
            final(self).files@ == old(self).files@,
            final(self).file_hash@ == old(self).file_hash@,
            (r == Err::<u32, Error>(Error::AlreadyExist)) <==> (old(self).dir_child_exists(
                parent,
                name@,
            ) || old(self).file_child_exists(parent, name@)),
            (r == Err::<u32, Error>(Error::NoSpace)) <==> (!old(self).dir_child_exists(
                parent,
                name@,
            ) && !old(self).file_child_exists(parent, name@) && !old(self).dir_slot_avail()),
            r is Err ==> (r == Err::<u32, Error>(Error::AlreadyExist) || r == Err::<u32, Error>(
                Error::NoSpace,
            )) && final(self).dirs@ == old(self).dirs@ && final(self).dir_hash@ == old(
                self,
            ).dir_hash@,
            r is Ok ==> {
                let ino = r->Ok_0 as int;
                &&& final(self).live_dir(ino)
                &&& ino != 1
                &&& !old(self).live_dir(ino)
                &&& final(self).dirs@[ino].name@ == name@
                &&& final(self).dirs@[ino].parent == parent
                &&& final(self).dirs@[ino].sub_dir == 0
                &&& final(self).dirs@[ino].sub_file == 0
                &&& final(self).dirs@[ino].next == old(self).dirs@[parent as int].sub_dir
                &&& final(self).dirs@[parent as int].sub_dir == r->Ok_0
                &&& forall|j: int|
                    0 <= j < old(self).dirs@.len() && j != ino && j != parent && j != 0
                        ==> final(self).dirs@[j] == old(self).dirs@[j]
                &&& forall|j: int|
                    0 <= j < old(self).dirs@.len() && j != ino
                        ==> (#[trigger] final(self).dirs@[j]).name@ == old(self).dirs@[j].name@
                        && final(self).dirs@[j].parent == old(self).dirs@[j].parent
                &&& forall|j: int|
                    0 <= j < old(self).dirs@.len() && j != ino ==> (final(self).live_dir(j) <==> old(
                        self,
                    ).live_dir(j))
            },
    {
        if self.lookup_dir(parent, name).is_ok() || self.lookup_file(parent, name).is_ok() {
            return Err(Error::AlreadyExist);
        }
        let head = self.dirs[0].next;
        if head < 2 || head as usize >= self.dirs.len() || self.dirs[head as usize].parent != 0 {
            return Err(Error::NoSpace);
        }
        let ino = head as usize;
        let free_next = self.dirs[ino].next;
        let e0 = self.dirs[0];
        self.dirs.set(0, DirEntry { next: free_next, ..e0 });
        let bucket = self.dir_bucket(parent, name);
        let old_bucket_head = self.dir_hash[bucket];
        let parent_entry = self.dirs[parent as usize];
        let entry = DirEntry {
            name: *name,
            parent,
            next: parent_entry.sub_dir,
            sub_dir: 0,
            sub_file: 0,
            hash_next: old_bucket_head,
        };
        self.dirs.set(ino, entry);
        let parent_entry2 = self.dirs[parent as usize];
        self.dirs.set(parent as usize, DirEntry { sub_dir: head, ..parent_entry2 });
        self.dir_hash.set(bucket, head);
        Ok(head)
    }

    /// Create a file entry under a live parent directory, with its
    /// start block and byte size.
    pub fn new_sub_file(&mut self, parent: u32, name: &[u8; 16], block: u32, size: u64) -> (r:
        Result<u32, Error>)
        requires
            old(self).wf(),
            old(self).live_dir(parent as int),
        ensures
            final(self).wf(),
            final(self).dir_hash@.len() == old(self).dir_hash@.len(),
            final(self).file_hash@.len() == old(self).file_hash@.len(),
            final(self).files@.len() == old(self).files@.len(),
            final(self).dirs@.len() == old(self).dirs@.len(),
            final(self).dir_hash@ == old(self).dir_hash@,
            (r == Err::<u32, Error>(Error::AlreadyExist)) <==> (old(self).dir_child_exists(
                parent,
                name@,
            ) || old(self).file_child_exists(parent, name@)),
            (r == Err::<u32, Error>(Error::NoSpace)) <==> (!old(self).dir_child_exists(
                parent,
                name@,
            ) && !old(self).file_child_exists(parent, name@) && !old(self).file_slot_avail()),
            r is Err ==> (r == Err::<u32, Error>(Error::AlreadyExist) || r == Err::<u32, Error>(
                Error::NoSpace,
            )) && final(self).files@ == old(self).files@ && final(self).dirs@ == old(self).dirs@
                && final(self).file_hash@ == old(self).file_hash@,
            r is Ok ==> {
                let ino = r->Ok_0 as int;
                &&& final(self).live_file(ino)
                &&& !old(self).live_file(ino)
                &&& final(self).files@[ino].name@ == name@
                &&& final(self).files@[ino].parent == parent
                &&& final(self).files@[ino].block == block
                &&& final(self).files@[ino].size == size
                &&& final(self).dirs@[parent as int].sub_file == r->Ok_0
                &&& forall|j: int|
                    0 <= j < old(self).files@.len() && j != ino && j != 0 ==> final(self).files@[j]
                        == old(self).files@[j]
                &&& forall|j: int|
                    0 <= j < old(self).dirs@.len() && j != parent ==> final(self).dirs@[j] == old(
                        self,
                    ).dirs@[j]
                &&& forall|j: int|
                    0 <= j < old(self).files@.len() && j != ino ==> (final(self).live_file(j)
                        <==> old(self).live_file(j))
                &&& forall|j: int|
                    0 <= j < old(self).dirs@.len() ==> (final(self).live_dir(j) <==> old(
                        self,
                    ).live_dir(j))
            },
    {
        if self.lookup_dir(parent, name).is_ok() || self.lookup_file(parent, name).is_ok() {
            return Err(Error::AlreadyExist);
        }
        let head = self.files[0].next;
        if head < 1 || head as usize >= self.files.len() || self.files[head as usize].parent != 0 {
            return Err(Error::NoSpace);
        }
        let ino = head as usize;
        let free_next = self.files[ino].next;
        let e0 = self.files[0];
        self.files.set(0, FileEntry { next: free_next, ..e0 });
        let bucket = self.file_bucket(parent, name);
        let old_bucket_head = self.file_hash[bucket];
        let parent_entry = self.dirs[parent as usize];
        let entry = FileEntry {
            name: *name,
            parent,
            next: parent_entry.sub_file,
            block,
            size,
            hash_next: old_bucket_head,
        };
        self.files.set(ino, entry);
        let parent_entry2 = self.dirs[parent as usize];
        self.dirs.set(parent as usize, DirEntry { sub_file: head, ..parent_entry2 });
        self.file_hash.set(bucket, head);
        Ok(head)
    }


    /// Remove a live non-root directory entry from its parent's child
    /// list and from its hash bucket's chain, leaving its own fields
    /// alone. A missing link or a cycle surfaces as `BrokenFat`.
    #[verifier::loop_isolation(false)]
    fn unlink_dir(&mut self, ino: u32) -> (r: Result<(), Error>)
        requires
            old(self).wf(),
            old(self).live_dir(ino as int),
            ino != 1,
        ensures
            final(self).wf(),
            final(self).dir_hash@.len() == old(self).dir_hash@.len(),
            final(self).file_hash@.len() == old(self).file_hash@.len(),
            final(self).files@ == old(self).files@,
            final(self).file_hash@ == old(self).file_hash@,
            final(self).dirs@.len() == old(self).dirs@.len(),
            r is Err ==> r == Err::<(), Error>(Error::BrokenFat) && final(self).dirs@ == old(
                self,
            ).dirs@ && final(self).dir_hash@ == old(self).dir_hash@,
            forall|j: int|
                0 <= j < old(self).dirs@.len() ==> (#[trigger] final(self).dirs@[j]).name@ == old(
                    self,
                ).dirs@[j].name@ && final(self).dirs@[j].parent == old(self).dirs@[j].parent
                    && final(self).dirs@[j].sub_file == old(self).dirs@[j].sub_file,
            forall|j: int|
                0 <= j < old(self).dirs@.len() ==> (final(self).live_dir(j) <==> old(
                    self,
                ).live_dir(j)),
            r is Ok ==> final(self).dirs@[ino as int] == old(self).dirs@[ino as int],
    {
        let n = self.dirs.len();
        let e = self.dirs[ino as usize];
        let parent = e.parent as usize;
        if parent >= n || parent == ino as usize {
            return Err(Error::BrokenFat);
        }
        // find the sibling-list predecessor, read-only
        let mut sib_pred: usize = 0;  // 0 means: ino is the list head
        if self.dirs[parent].sub_dir != ino {
            let mut cur = self.dirs[parent].sub_dir;
            let mut steps: usize = 0;
            let mut found = false;
            while !found
                invariant
                    steps <= n,
                    self.wf(),
                    n == self.dirs@.len(),
                    found ==> 0 < sib_pred < n && self.dirs@[sib_pred as int].next == ino,
                decreases n - steps, (if found { 0int } else { 1int }),
            {
                if cur == 0 || cur as usize >= n || steps >= n {
                    return Err(Error::BrokenFat);
                }
                if self.dirs[cur as usize].next == ino {
                    sib_pred = cur as usize;
                    found = true;
                } else {
                    cur = self.dirs[cur as usize].next;
                    steps = steps + 1;
                    if steps >= n {
                        return Err(Error::BrokenFat);
                    }
                }
            }
        }
        // find the hash-chain predecessor, read-only
        let bucket = self.dir_bucket(e.parent, &e.name);
        let mut hash_pred: usize = 0;  // 0 means: ino is the bucket head
        if self.dir_hash[bucket] != ino {
            let mut cur = self.dir_hash[bucket];
            let mut steps: usize = 0;
            let mut found = false;
            while !found
                invariant
                    steps <= n,
                    self.wf(),
                    n == self.dirs@.len(),
                    found ==> 0 < hash_pred < n,
                decreases n - steps, (if found { 0int } else { 1int }),
            {
                if cur == 0 || cur as usize >= n || steps >= n {
                    return Err(Error::BrokenFat);
                }
                if self.dirs[cur as usize].hash_next == ino {
                    hash_pred = cur as usize;
                    found = true;
                } else {
                    cur = self.dirs[cur as usize].hash_next;
                    steps = steps + 1;
                    if steps >= n {
                        return Err(Error::BrokenFat);
                    }
                }
            }
        }
        if sib_pred == ino as usize || hash_pred == ino as usize {
            return Err(Error::BrokenFat);
        }
        // unlink from the sibling list
        if sib_pred == 0 {
            let p = self.dirs[parent];
            self.dirs.set(parent, DirEntry { sub_dir: e.next, ..p });
        } else {
            let p = self.dirs[sib_pred];
            self.dirs.set(sib_pred, DirEntry { next: e.next, ..p });
        }
        // unlink from the hash chain
        if hash_pred == 0 {
            self.dir_hash.set(bucket, e.hash_next);
        } else {
            let p = self.dirs[hash_pred];
            self.dirs.set(hash_pred, DirEntry { hash_next: e.hash_next, ..p });
        }
        Ok(())
    }

    /// Remove a live file entry from its parent's child list and from
    /// its hash bucket's chain, leaving its own fields alone.
    #[verifier::loop_isolation(false)]
    fn unlink_file(&mut self, ino: u32) -> (r: Result<(), Error>)
        requires
            old(self).wf(),
            old(self).live_file(ino as int),
        ensures
            final(self).wf(),
            final(self).dir_hash@.len() == old(self).dir_hash@.len(),
            final(self).file_hash@.len() == old(self).file_hash@.len(),
            final(self).dir_hash@ == old(self).dir_hash@,
            final(self).files@.len() == old(self).files@.len(),
            final(self).dirs@.len() == old(self).dirs@.len(),
            r is Err ==> r == Err::<(), Error>(Error::BrokenFat) && final(self).dirs@ == old(
                self,
            ).dirs@ && final(self).files@ == old(self).files@ && final(self).file_hash@ == old(
                self,
            ).file_hash@,
            forall|j: int|
                0 <= j < old(self).files@.len() ==> (#[trigger] final(self).files@[j]).name@
                    == old(self).files@[j].name@ && final(self).files@[j].parent == old(
                    self,
                ).files@[j].parent && final(self).files@[j].block == old(self).files@[j].block
                    && final(self).files@[j].size == old(self).files@[j].size,
            forall|j: int|
                0 <= j < old(self).dirs@.len() ==> (#[trigger] final(self).dirs@[j]).name@ == old(
                    self,
                ).dirs@[j].name@ && final(self).dirs@[j].parent == old(self).dirs@[j].parent
                    && final(self).dirs@[j].sub_dir == old(self).dirs@[j].sub_dir,
            forall|j: int|
                0 <= j < old(self).files@.len() ==> (final(self).live_file(j) <==> old(
                    self,
                ).live_file(j)),
            forall|j: int|
                0 <= j < old(self).dirs@.len() ==> (final(self).live_dir(j) <==> old(
                    self,
                ).live_dir(j)),
            r is Ok ==> final(self).files@[ino as int] == old(self).files@[ino as int],
    {
        let n = self.files.len();
        let dn = self.dirs.len();
        let e = self.files[ino as usize];
        let parent = e.parent as usize;
        if parent >= dn {
            return Err(Error::BrokenFat);
        }
        let mut sib_pred: usize = 0;
        if self.dirs[parent].sub_file != ino {
            let mut cur = self.dirs[parent].sub_file;
            let mut steps: usize = 0;
            let mut found = false;
            while !found
                invariant
                    steps <= n,
                    self.wf(),
                    n == self.files@.len(),
                    found ==> 0 < sib_pred < n,
                decreases n - steps, (if found { 0int } else { 1int }),
            {
                if cur == 0 || cur as usize >= n || steps >= n {
                    return Err(Error::BrokenFat);
                }
                if self.files[cur as usize].next == ino {
                    sib_pred = cur as usize;
                    found = true;
                } else {
                    cur = self.files[cur as usize].next;
                    steps = steps + 1;
                    if steps >= n {
                        return Err(Error::BrokenFat);
                    }
                }
            }
        }
        let bucket = self.file_bucket(e.parent, &e.name);
        let mut hash_pred: usize = 0;
        if self.file_hash[bucket] != ino {
            let mut cur = self.file_hash[bucket];
            let mut steps: usize = 0;
            let mut found = false;
            while !found
                invariant
                    steps <= n,
                    self.wf(),
                    n == self.files@.len(),
                    found ==> 0 < hash_pred < n,
                decreases n - steps, (if found { 0int } else { 1int }),
            {
                if cur == 0 || cur as usize >= n || steps >= n {
                    return Err(Error::BrokenFat);
                }
                if self.files[cur as usize].hash_next == ino {
                    hash_pred = cur as usize;
                    found = true;
                } else {
                    cur = self.files[cur as usize].hash_next;
                    steps = steps + 1;
                    if steps >= n {
                        return Err(Error::BrokenFat);
                    }
                }
            }
        }
        if sib_pred == ino as usize || hash_pred == ino as usize {
            return Err(Error::BrokenFat);
        }
        if sib_pred == 0 {
            let p = self.dirs[parent];
            self.dirs.set(parent, DirEntry { sub_file: e.next, ..p });
        } else {
            let p = self.files[sib_pred];
            self.files.set(sib_pred, FileEntry { next: e.next, ..p });
        }
        if hash_pred == 0 {
            self.file_hash.set(bucket, e.hash_next);
        } else {
            let p = self.files[hash_pred];
            self.files.set(hash_pred, FileEntry { hash_next: e.hash_next, ..p });
        }
        Ok(())
    }

    /// Delete a directory entry: it must be live, not the root, and
    /// childless. The slot is unlinked and pushed onto the free list.
    pub fn delete_dir(&mut self, ino: u32) -> (r: Result<(), Error>)
        requires
            old(self).wf(),
        ensures
            final(self).wf(),
            final(self).dir_hash@.len() == old(self).dir_hash@.len(),
            final(self).file_hash@.len() == old(self).file_hash@.len(),
            final(self).files@ == old(self).files@,
            final(self).dirs@.len() == old(self).dirs@.len(),
            (r == Err::<(), Error>(Error::NotFound)) <==> !(old(self).live_dir(ino as int) && ino
                != 1),
            (r == Err::<(), Error>(Error::DeletingNonEmpty)) <==> (old(self).live_dir(ino as int)
                && ino != 1 && (old(self).dirs@[ino as int].sub_dir != 0 || old(
                self,
            ).dirs@[ino as int].sub_file != 0)),
            r is Err ==> (r == Err::<(), Error>(Error::NotFound) || r == Err::<(), Error>(
                Error::DeletingNonEmpty,
            ) || r == Err::<(), Error>(Error::BrokenFat)),
            r is Err ==> final(self).dirs@ == old(self).dirs@ && final(self).dir_hash@ == old(
                self,
            ).dir_hash@,
            r is Ok ==> !final(self).live_dir(ino as int),
            r is Ok ==> forall|j: int|
                0 <= j < old(self).dirs@.len() && j != ino ==> ((final(self).live_dir(j) <==> old(
                    self,
                ).live_dir(j)) && (#[trigger] final(self).dirs@[j]).name@ == old(
                    self,
                ).dirs@[j].name@ && final(self).dirs@[j].parent == old(self).dirs@[j].parent),
    {
        if self.check_dir_ino(ino).is_err() || ino == 1 {
            return Err(Error::NotFound);
        }
        let e = self.dirs[ino as usize];
        if e.sub_dir != 0 || e.sub_file != 0 {
            return Err(Error::DeletingNonEmpty);
        }
        match self.unlink_dir(ino) {
            Err(err) => Err(err),
            Ok(()) => {
                let free_head = self.dirs[0].next;
                let e2 = self.dirs[ino as usize];
                self.dirs.set(ino as usize, DirEntry { parent: 0, next: free_head, ..e2 });
                let e0 = self.dirs[0];
                self.dirs.set(0, DirEntry { next: ino, ..e0 });
                Ok(())
            },
        }
    }

    /// Delete a file entry: unlink it and push its slot onto the free
    /// list. The caller frees its block chain first.
    pub fn delete_file(&mut self, ino: u32) -> (r: Result<(), Error>)
        requires
            old(self).wf(),
        ensures
            final(self).wf(),
            final(self).dir_hash@.len() == old(self).dir_hash@.len(),
            final(self).file_hash@.len() == old(self).file_hash@.len(),
            final(self).dirs@.len() == old(self).dirs@.len(),
            final(self).files@.len() == old(self).files@.len(),
            (r == Err::<(), Error>(Error::NotFound)) <==> !old(self).live_file(ino as int),
            r is Err ==> (r == Err::<(), Error>(Error::NotFound) || r == Err::<(), Error>(
                Error::BrokenFat,
            )),
            r is Err ==> final(self).files@ == old(self).files@ && final(self).dirs@ == old(
                self,
            ).dirs@ && final(self).file_hash@ == old(self).file_hash@,
            r is Ok ==> !final(self).live_file(ino as int),
            r is Ok ==> forall|j: int|
                0 <= j < old(self).files@.len() && j != ino ==> ((final(self).live_file(j) <==> old(
                    self,
                ).live_file(j)) && (#[trigger] final(self).files@[j]).name@ == old(
                    self,
                ).files@[j].name@ && final(self).files@[j].parent == old(self).files@[j].parent),
            r is Ok ==> forall|j: int|
                0 <= j < old(self).dirs@.len() ==> ((final(self).live_dir(j) <==> old(
                    self,
                ).live_dir(j)) && (#[trigger] final(self).dirs@[j]).name@ == old(
                    self,
                ).dirs@[j].name@ && final(self).dirs@[j].parent == old(self).dirs@[j].parent),
    {
        if self.check_file_ino(ino).is_err() {
            return Err(Error::NotFound);
        }
        match self.unlink_file(ino) {
            Err(err) => Err(err),
            Ok(()) => {
                let free_head = self.files[0].next;
                let e2 = self.files[ino as usize];
                self.files.set(ino as usize, FileEntry { parent: 0, next: free_head, ..e2 });
                let e0 = self.files[0];
                self.files.set(0, FileEntry { next: ino, ..e0 });
                Ok(())
            },
        }
    }

    /// Move a directory entry under a new parent with a new name,
    /// re-linking both the child list and the hash chain. Duplicates
    /// under the new parent are rejected.
    pub fn rename_dir(&mut self, ino: u32, new_parent: u32, name: &[u8; 16]) -> (r: Result<
        (),
        Error,
    >)
        requires
            old(self).wf(),
        ensures
            final(self).wf(),
            final(self).dir_hash@.len() == old(self).dir_hash@.len(),
            final(self).file_hash@.len() == old(self).file_hash@.len(),
            final(self).files@ == old(self).files@,
            final(self).dirs@.len() == old(self).dirs@.len(),
            (r == Err::<(), Error>(Error::NotFound)) <==> !(old(self).live_dir(ino as int) && ino
                != 1 && old(self).live_dir(new_parent as int)),
            (r == Err::<(), Error>(Error::AlreadyExist)) <==> (old(self).live_dir(ino as int)
                && ino != 1 && old(self).live_dir(new_parent as int) && (old(
                self,
            ).dir_child_exists(new_parent, name@) || old(self).file_child_exists(
                new_parent,
                name@,
            ))),
            r is Err ==> (r == Err::<(), Error>(Error::NotFound) || r == Err::<(), Error>(
                Error::AlreadyExist,
            ) || r == Err::<(), Error>(Error::BrokenFat)),
            r is Err ==> final(self).dirs@ == old(self).dirs@ && final(self).dir_hash@ == old(
                self,
            ).dir_hash@,
            r is Ok ==> final(self).live_dir(ino as int) && final(self).dirs@[ino as int].name@
                == name@ && final(self).dirs@[ino as int].parent == new_parent,
            r is Ok ==> forall|j: int|
                0 <= j < old(self).dirs@.len() && j != ino ==> ((final(self).live_dir(j) <==> old(
                    self,
                ).live_dir(j)) && (#[trigger] final(self).dirs@[j]).name@ == old(
                    self,
                ).dirs@[j].name@ && final(self).dirs@[j].parent == old(self).dirs@[j].parent),
    {
        if self.check_dir_ino(ino).is_err() || ino == 1 || self.check_dir_ino(new_parent).is_err()
        {
            return Err(Error::NotFound);
        }
        if self.lookup_dir(new_parent, name).is_ok() || self.lookup_file(new_parent, name).is_ok()
        {
            return Err(Error::AlreadyExist);
        }
        match self.unlink_dir(ino) {
            Err(err) => Err(err),
            Ok(()) => {
                let bucket = self.dir_bucket(new_parent, name);
                let old_bucket_head = self.dir_hash[bucket];
                let parent_entry = self.dirs[new_parent as usize];
                let e = self.dirs[ino as usize];
                self.dirs.set(
                    ino as usize,
                    DirEntry {
                        name: *name,
                        parent: new_parent,
                        next: parent_entry.sub_dir,
                        hash_next: old_bucket_head,
                        ..e
                    },
                );
                let parent_entry2 = self.dirs[new_parent as usize];
                self.dirs.set(new_parent as usize, DirEntry { sub_dir: ino, ..parent_entry2 });
                self.dir_hash.set(bucket, ino);
                Ok(())
            },
        }
    }

    /// Move a file entry under a new parent with a new name.
    pub fn rename_file(&mut self, ino: u32, new_parent: u32, name: &[u8; 16]) -> (r: Result<
        (),
        Error,
    >)
        requires
            old(self).wf(),
        ensures
            final(self).wf(),
            final(self).dir_hash@.len() == old(self).dir_hash@.len(),
            final(self).file_hash@.len() == old(self).file_hash@.len(),
            final(self).dirs@.len() == old(self).dirs@.len(),
            final(self).files@.len() == old(self).files@.len(),
            (r == Err::<(), Error>(Error::NotFound)) <==> !(old(self).live_file(ino as int) && old(
                self,
            ).live_dir(new_parent as int)),
            (r == Err::<(), Error>(Error::AlreadyExist)) <==> (old(self).live_file(ino as int)
                && old(self).live_dir(new_parent as int) && (old(self).dir_child_exists(
                new_parent,
                name@,
            ) || old(self).file_child_exists(new_parent, name@))),
            r is Err ==> (r == Err::<(), Error>(Error::NotFound) || r == Err::<(), Error>(
                Error::AlreadyExist,
            ) || r == Err::<(), Error>(Error::BrokenFat)),
            r is Err ==> final(self).files@ == old(self).files@ && final(self).dirs@ == old(
                self,
            ).dirs@ && final(self).file_hash@ == old(self).file_hash@,
            r is Ok ==> final(self).live_file(ino as int) && final(self).files@[ino as int].name@
                == name@ && final(self).files@[ino as int].parent == new_parent && final(self).files@[ino as int].block == old(self).files@[ino as int].block && final(self).files@[ino as int].size == old(self).files@[ino as int].size,
            r is Ok ==> forall|j: int|
                0 <= j < old(self).files@.len() && j != ino ==> ((final(self).live_file(j) <==> old(
                    self,
                ).live_file(j)) && (#[trigger] final(self).files@[j]).name@ == old(
                    self,
                ).files@[j].name@ && final(self).files@[j].parent == old(self).files@[j].parent),
            r is Ok ==> forall|j: int|
                0 <= j < old(self).dirs@.len() ==> ((final(self).live_dir(j) <==> old(
                    self,
                ).live_dir(j)) && (#[trigger] final(self).dirs@[j]).name@ == old(
                    self,
                ).dirs@[j].name@ && final(self).dirs@[j].parent == old(self).dirs@[j].parent),
    {
        if self.check_file_ino(ino).is_err() || self.check_dir_ino(new_parent).is_err() {
            return Err(Error::NotFound);
        }
        if self.lookup_dir(new_parent, name).is_ok() || self.lookup_file(new_parent, name).is_ok()
        {
            return Err(Error::AlreadyExist);
        }
        match self.unlink_file(ino) {
            Err(err) => Err(err),
            Ok(()) => {
                let bucket = self.file_bucket(new_parent, name);
                let old_bucket_head = self.file_hash[bucket];
                let parent_entry = self.dirs[new_parent as usize];
                let e = self.files[ino as usize];
                self.files.set(
                    ino as usize,
                    FileEntry {
                        name: *name,
                        parent: new_parent,
                        next: parent_entry.sub_file,
                        hash_next: old_bucket_head,
                        ..e
                    },
                );
                let parent_entry2 = self.dirs[new_parent as usize];
                self.dirs.set(new_parent as usize, DirEntry { sub_file: ino, ..parent_entry2 });
                self.file_hash.set(bucket, ino);
                Ok(())
            },
        }
    }

    /// The traversal of a directory's child-directory list from `cur`,
    /// bounded by `budget` steps: the names and inos in list order, or
    /// nothing when a link is out of range, an entry claims a foreign
    /// parent, or the budget runs out (a cycle).
    pub open spec fn dir_child_walk(
        dirs: Seq<DirEntry>,
        parent: u32,
        cur: u32,
        budget: int,
    ) -> Option<Seq<([u8; 16], u32)>>
        decreases budget,
    {
        if cur == 0 {
            Option::Some(Seq::empty())
        } else if budget <= 0 || cur as int >= dirs.len() || dirs[cur as int].parent != parent {
            Option::None
        } else {
            match Self::dir_child_walk(dirs, parent, dirs[cur as int].next, budget - 1) {
                Option::Some(rest) => Option::Some(
                    seq![(dirs[cur as int].name, cur)] + rest,
                ),
                Option::None => Option::None,
            }
        }
    }

    /// The traversal of a directory's child-file list, as above.
    pub open spec fn file_child_walk(
        files: Seq<FileEntry>,
        parent: u32,
        cur: u32,
        budget: int,
    ) -> Option<Seq<([u8; 16], u32)>>
        decreases budget,
    {
        if cur == 0 {
            Option::Some(Seq::empty())
        } else if budget <= 0 || cur as int >= files.len() || files[cur as int].parent != parent {
            Option::None
        } else {
            match Self::file_child_walk(files, parent, files[cur as int].next, budget - 1) {
                Option::Some(rest) => Option::Some(
                    seq![(files[cur as int].name, cur)] + rest,
                ),
                Option::None => Option::None,
            }
        }
    }

    /// The child directories of a live directory, in traversal order of
    /// its singly-linked child list.
    #[verifier::loop_isolation(false)]
    pub fn list_sub_dir(&self, parent: u32) -> (r: Result<Vec<([u8; 16], u32)>, Error>)
        requires
            self.wf(),
            self.live_dir(parent as int),
        ensures
            r is Err ==> r == Err::<Vec<([u8; 16], u32)>, Error>(Error::BrokenFat),
            (r is Ok) <==> Self::dir_child_walk(
                self.dirs@,
                parent,
                self.dirs@[parent as int].sub_dir,
                self.dirs@.len() as int,
            ) is Some,
            r is Ok ==> Option::Some(r->Ok_0@) == Self::dir_child_walk(
                self.dirs@,
                parent,
                self.dirs@[parent as int].sub_dir,
                self.dirs@.len() as int,
            ),
            r is Ok ==> forall|k: int|
                0 <= k < r->Ok_0@.len() ==> {
                    let ino = (#[trigger] r->Ok_0@[k]).1 as int;
                    &&& self.live_dir(ino)
                    &&& self.dirs@[ino].parent == parent
                    &&& self.dirs@[ino].name@ == r->Ok_0@[k].0@
                },
    {
        let n = self.dirs.len();
        let ghost head = self.dirs@[parent as int].sub_dir;
        let mut out: Vec<([u8; 16], u32)> = Vec::new();
        let mut cur = self.dirs[parent as usize].sub_dir;
        let mut steps: usize = 0;
        proof {
            if Self::dir_child_walk(self.dirs@, parent, head, n as int) is Some {
                let rest = Self::dir_child_walk(self.dirs@, parent, head, n as int)->Some_0;
                assert(out@ + rest =~= rest);
            }
        }
        while cur != 0
            invariant
                steps <= n,
                self.wf(),
                n == self.dirs@.len(),
                Self::dir_child_walk(self.dirs@, parent, head, n as int) == (
                match Self::dir_child_walk(self.dirs@, parent, cur, n - steps) {
                    Option::Some(rest) => Option::Some(out@ + rest),
                    Option::None => Option::None,
                }),
                forall|k: int|
                    0 <= k < out@.len() ==> {
                        let ino = (#[trigger] out@[k]).1 as int;
                        &&& self.live_dir(ino)
                        &&& self.dirs@[ino].parent == parent
                        &&& self.dirs@[ino].name@ == out@[k].0@
                    },
            decreases n - steps,
        {
            if cur as usize >= n || steps >= n {
                return Err(Error::BrokenFat);
            }
            let e = self.dirs[cur as usize];
            if e.parent != parent {
                return Err(Error::BrokenFat);
            }
            let ghost out0 = out@;
            let ghost cur0 = cur;
            out.push((e.name, cur));
            cur = e.next;
            steps = steps + 1;
            proof {
                assert(out@ =~= out0 + seq![(e.name, cur0)]);
                match Self::dir_child_walk(self.dirs@, parent, cur, n - steps) {
                    Option::Some(rest2) => {
                        assert(out0 + (seq![(e.name, cur0)] + rest2) =~= out@ + rest2);
                    },
                    Option::None => {},
                }
            }
        }
        proof {
            assert(Self::dir_child_walk(self.dirs@, parent, cur, n - steps) == Option::Some(
                Seq::<([u8; 16], u32)>::empty(),
            ));
            assert(out@ + Seq::<([u8; 16], u32)>::empty() =~= out@);
        }
        Ok(out)
    }

    /// The child files of a live directory, in traversal order.
    #[verifier::loop_isolation(false)]
    pub fn list_sub_file(&self, parent: u32) -> (r: Result<Vec<([u8; 16], u32)>, Error>)
        requires
            self.wf(),
            self.live_dir(parent as int),
        ensures
            r is Err ==> r == Err::<Vec<([u8; 16], u32)>, Error>(Error::BrokenFat),
            (r is Ok) <==> Self::file_child_walk(
                self.files@,
                parent,
                self.dirs@[parent as int].sub_file,
                self.files@.len() as int,
            ) is Some,
            r is Ok ==> Option::Some(r->Ok_0@) == Self::file_child_walk(
                self.files@,
                parent,
                self.dirs@[parent as int].sub_file,
                self.files@.len() as int,
            ),
            r is Ok ==> forall|k: int|
                0 <= k < r->Ok_0@.len() ==> {
                    let ino = (#[trigger] r->Ok_0@[k]).1 as int;
                    &&& self.live_file(ino)
                    &&& self.files@[ino].parent == parent
                    &&& self.files@[ino].name@ == r->Ok_0@[k].0@
                },
    {
        let n = self.files.len();
        let ghost head = self.dirs@[parent as int].sub_file;
        let mut out: Vec<([u8; 16], u32)> = Vec::new();
        let mut cur = self.dirs[parent as usize].sub_file;
        let mut steps: usize = 0;
        proof {
            if Self::file_child_walk(self.files@, parent, head, n as int) is Some {
                let rest = Self::file_child_walk(self.files@, parent, head, n as int)->Some_0;
                assert(out@ + rest =~= rest);
            }
        }
        while cur != 0
            invariant
                steps <= n,
                self.wf(),
                n == self.files@.len(),
                Self::file_child_walk(self.files@, parent, head, n as int) == (
                match Self::file_child_walk(self.files@, parent, cur, n - steps) {
                    Option::Some(rest) => Option::Some(out@ + rest),
                    Option::None => Option::None,
                }),
                forall|k: int|
                    0 <= k < out@.len() ==> {
                        let ino = (#[trigger] out@[k]).1 as int;
                        &&& self.live_file(ino)
                        &&& self.files@[ino].parent == parent
                        &&& self.files@[ino].name@ == out@[k].0@
                    },
            decreases n - steps,
        {
            if cur as usize >= n || steps >= n {
                return Err(Error::BrokenFat);
            }
            let e = self.files[cur as usize];
            if e.parent != parent {
                return Err(Error::BrokenFat);
            }
            let ghost out0 = out@;
            let ghost cur0 = cur;
            out.push((e.name, cur));
            cur = e.next;
            steps = steps + 1;
            proof {
                assert(out@ =~= out0 + seq![(e.name, cur0)]);
                match Self::file_child_walk(self.files@, parent, cur, n - steps) {
                    Option::Some(rest2) => {
                        assert(out0 + (seq![(e.name, cur0)] + rest2) =~= out@ + rest2);
                    },
                    Option::None => {},
                }
            }
        }
        proof {
            assert(Self::file_child_walk(self.files@, parent, cur, n - steps) == Option::Some(
                Seq::<([u8; 16], u32)>::empty(),
            ));
            assert(out@ + Seq::<([u8; 16], u32)>::empty() =~= out@);
        }
        Ok(out)
    }

    /// Parse the four metadata regions. Each table is an array of
    /// fixed-size records as laid out on disk.
    #[verifier::loop_isolation(false)]
    pub fn new(
        dir_hash_bytes: &Vec<u8>,
        dir_table_bytes: &Vec<u8>,
        file_hash_bytes: &Vec<u8>,
        file_table_bytes: &Vec<u8>,
    ) -> (r: Result<FsMeta, Error>)
        ensures
            r is Err ==> r == Err::<FsMeta, Error>(Error::SizeMismatch),
            (r is Ok) <==> (dir_hash_bytes@.len() % 4 == 0 && dir_hash_bytes@.len() >= 4
                && file_hash_bytes@.len() % 4 == 0 && file_hash_bytes@.len() >= 4
                && dir_table_bytes@.len() % 40 == 0 && dir_table_bytes@.len() >= 80
                && file_table_bytes@.len() % 48 == 0 && file_table_bytes@.len() >= 48
                && dir_hash_bytes@.len() / 4 <= 0x00FF_FFFF && file_hash_bytes@.len() / 4
                <= 0x00FF_FFFF && dir_table_bytes@.len() / 40 <= 0x00FF_FFFF
                && file_table_bytes@.len() / 48 <= 0x00FF_FFFF),
            r is Ok ==> {
                let m = r->Ok_0;
                &&& m.wf()
                &&& m.dir_hash@.len() == dir_hash_bytes@.len() / 4
                &&& m.file_hash@.len() == file_hash_bytes@.len() / 4
                &&& m.dirs@.len() == dir_table_bytes@.len() / 40
                &&& m.files@.len() == file_table_bytes@.len() / 48
                &&& forall|k: int|
                    0 <= k < m.dir_hash@.len() ==> #[trigger] m.dir_hash@[k] == le32(
                        dir_hash_bytes@,
                        4 * k,
                    )
                &&& forall|k: int|
                    0 <= k < m.file_hash@.len() ==> #[trigger] m.file_hash@[k] == le32(
                        file_hash_bytes@,
                        4 * k,
                    )
                &&& forall|k: int|
                    0 <= k < m.dirs@.len() ==> ((#[trigger] m.dirs@[k]).name@
                        == dir_table_bytes@.subrange(40 * k, 40 * k + 16) && m.dirs@[k].parent
                        == le32(dir_table_bytes@, 40 * k + 16) && m.dirs@[k].next == le32(
                        dir_table_bytes@,
                        40 * k + 20,
                    ) && m.dirs@[k].sub_dir == le32(dir_table_bytes@, 40 * k + 24)
                        && m.dirs@[k].sub_file == le32(dir_table_bytes@, 40 * k + 28)
                        && m.dirs@[k].hash_next == le32(dir_table_bytes@, 40 * k + 36))
                &&& forall|k: int|
                    0 <= k < m.files@.len() ==> ((#[trigger] m.files@[k]).name@
                        == file_table_bytes@.subrange(48 * k, 48 * k + 16) && m.files@[k].parent
                        == le32(file_table_bytes@, 48 * k + 16) && m.files@[k].next == le32(
                        file_table_bytes@,
                        48 * k + 20,
                    ) && m.files@[k].block == le32(file_table_bytes@, 48 * k + 28)
                        && m.files@[k].size == le64(file_table_bytes@, 48 * k + 32)
                        && m.files@[k].hash_next == le32(file_table_bytes@, 48 * k + 44))
            },
    {
        let dhl: usize = dir_hash_bytes.len();
        let fhl: usize = file_hash_bytes.len();
        let dtl: usize = dir_table_bytes.len();
        let ftl: usize = file_table_bytes.len();
        if !(dhl % 4 == 0 && dhl >= 4 && fhl % 4 == 0 && fhl >= 4 && dtl % 40 == 0 && dtl >= 80
            && ftl % 48 == 0 && ftl >= 48 && dhl / 4 <= 0x00FF_FFFF && fhl / 4 <= 0x00FF_FFFF && dtl
            / 40 <= 0x00FF_FFFF && ftl / 48 <= 0x00FF_FFFF) {
            return Err(Error::SizeMismatch);
        }
        let mut dir_hash: Vec<u32> = Vec::new();
        let mut k: usize = 0;
        let nh = dhl / 4;
        while k < nh
            invariant
                k <= nh,
                nh * 4 == dhl,
                dir_hash@.len() == k,
                forall|j: int|
                    0 <= j < k ==> #[trigger] dir_hash@[j] == le32(dir_hash_bytes@, 4 * j),
            decreases nh - k,
        {
            dir_hash.push(read_u32_le(dir_hash_bytes, 4 * k));
            k = k + 1;
        }
        let mut file_hash: Vec<u32> = Vec::new();
        let mut k2: usize = 0;
        let nh2 = fhl / 4;
        while k2 < nh2
            invariant
                k2 <= nh2,
                nh2 * 4 == fhl,
                file_hash@.len() == k2,
                forall|j: int|
                    0 <= j < k2 ==> #[trigger] file_hash@[j] == le32(file_hash_bytes@, 4 * j),
            decreases nh2 - k2,
        {
            file_hash.push(read_u32_le(file_hash_bytes, 4 * k2));
            k2 = k2 + 1;
        }
        let mut dirs: Vec<DirEntry> = Vec::new();
        let mut k3: usize = 0;
        let nd = dtl / 40;
        while k3 < nd
            invariant
                k3 <= nd,
                nd * 40 == dtl,
                dirs@.len() == k3,
                forall|j: int|
                    0 <= j < k3 ==> ((#[trigger] dirs@[j]).name@ == dir_table_bytes@.subrange(
                        40 * j,
                        40 * j + 16,
                    ) && dirs@[j].parent == le32(dir_table_bytes@, 40 * j + 16) && dirs@[j].next
                        == le32(dir_table_bytes@, 40 * j + 20) && dirs@[j].sub_dir == le32(
                        dir_table_bytes@,
                        40 * j + 24,
                    ) && dirs@[j].sub_file == le32(dir_table_bytes@, 40 * j + 28)
                        && dirs@[j].hash_next == le32(dir_table_bytes@, 40 * j + 36)),
            decreases nd - k3,
        {
            let off = 40 * k3;
            dirs.push(
                DirEntry {
                    name: read_name(dir_table_bytes, off),
                    parent: read_u32_le(dir_table_bytes, off + 16),
                    next: read_u32_le(dir_table_bytes, off + 20),
                    sub_dir: read_u32_le(dir_table_bytes, off + 24),
                    sub_file: read_u32_le(dir_table_bytes, off + 28),
                    hash_next: read_u32_le(dir_table_bytes, off + 36),
                },
            );
            k3 = k3 + 1;
        }
        let mut files: Vec<FileEntry> = Vec::new();
        let mut k4: usize = 0;
        let nf = ftl / 48;
        while k4 < nf
            invariant
                k4 <= nf,
                nf * 48 == ftl,
                files@.len() == k4,
                forall|j: int|
                    0 <= j < k4 ==> ((#[trigger] files@[j]).name@ == file_table_bytes@.subrange(
                        48 * j,
                        48 * j + 16,
                    ) && files@[j].parent == le32(file_table_bytes@, 48 * j + 16) && files@[j].next
                        == le32(file_table_bytes@, 48 * j + 20) && files@[j].block == le32(
                        file_table_bytes@,
                        48 * j + 28,
                    ) && files@[j].size == le64(file_table_bytes@, 48 * j + 32)
                        && files@[j].hash_next == le32(file_table_bytes@, 48 * j + 44)),
            decreases nf - k4,
        {
            let off = 48 * k4;
            files.push(
                FileEntry {
                    name: read_name(file_table_bytes, off),
                    parent: read_u32_le(file_table_bytes, off + 16),
                    next: read_u32_le(file_table_bytes, off + 20),
                    block: read_u32_le(file_table_bytes, off + 28),
                    size: read_u64_le(file_table_bytes, off + 32),
                    hash_next: read_u32_le(file_table_bytes, off + 44),
                },
            );
            k4 = k4 + 1;
        }
        Ok(FsMeta { dir_hash, dirs, file_hash, files })
    }

    /// Serialize one hash table.
    #[verifier::loop_isolation(false)]
    fn hash_bytes(table: &Vec<u32>) -> (r: Vec<u8>)
        requires
            table@.len() <= 0x00FF_FFFF,
        ensures
            r@.len() == table@.len() * 4,
            forall|k: int| 0 <= k < table@.len() ==> le32(r@, 4 * k) == #[trigger] table@[k],
    {
        let n = table.len();
        let mut r = zeros(n * 4);
        let mut k: usize = 0;
        while k < n
            invariant
                k <= n,
                n == table@.len(),
                r@.len() == n * 4,
                forall|j: int| 0 <= j < k ==> le32(r@, 4 * j) == #[trigger] table@[j],
            decreases n - k,
        {
            write_u32_le(&mut r, 4 * k, table[k]);
            k = k + 1;
        }
        r
    }

    /// Serialize the directory hash table to its on-disk form.
    pub fn dir_hash_bytes(&self) -> (r: Vec<u8>)
        requires
            self.wf(),
        ensures
            r@.len() == self.dir_hash@.len() * 4,
            forall|k: int|
                0 <= k < self.dir_hash@.len() ==> le32(r@, 4 * k) == #[trigger] self.dir_hash@[k],
    {
        Self::hash_bytes(&self.dir_hash)
    }

    /// Serialize the file hash table to its on-disk form.
    pub fn file_hash_bytes(&self) -> (r: Vec<u8>)
        requires
            self.wf(),
        ensures
            r@.len() == self.file_hash@.len() * 4,
            forall|k: int|
                0 <= k < self.file_hash@.len() ==> le32(r@, 4 * k) == #[trigger] self.file_hash@[k],
    {
        Self::hash_bytes(&self.file_hash)
    }

    /// Serialize the directory table to its on-disk form; padding words
    /// are written as zero.
    #[verifier::loop_isolation(false)]
    #[verifier::rlimit(60)]
    pub fn dir_table_bytes(&self) -> (r: Vec<u8>)
        requires
            self.wf(),
        ensures
            r@.len() == self.dirs@.len() * 40,
            forall|k: int|
                0 <= k < self.dirs@.len() ==> (r@.subrange(40 * k, 40 * k + 16)
                    == (#[trigger] self.dirs@[k]).name@ && le32(r@, 40 * k + 16)
                    == self.dirs@[k].parent && le32(r@, 40 * k + 20) == self.dirs@[k].next && le32(
                    r@,
                    40 * k + 24,
                ) == self.dirs@[k].sub_dir && le32(r@, 40 * k + 28) == self.dirs@[k].sub_file
                    && le32(r@, 40 * k + 36) == self.dirs@[k].hash_next),
    {
        let n = self.dirs.len();
        let mut r = zeros(n * 40);
        let mut k: usize = 0;
        while k < n
            invariant
                k <= n,
                n == self.dirs@.len(),
                r@.len() == n * 40,
                forall|j: int|
                    0 <= j < k ==> (r@.subrange(40 * j, 40 * j + 16)
                        == (#[trigger] self.dirs@[j]).name@ && le32(r@, 40 * j + 16)
                        == self.dirs@[j].parent && le32(r@, 40 * j + 20) == self.dirs@[j].next
                        && le32(r@, 40 * j + 24) == self.dirs@[j].sub_dir && le32(r@, 40 * j + 28)
                        == self.dirs@[j].sub_file && le32(r@, 40 * j + 36)
                        == self.dirs@[j].hash_next),
            decreases n - k,
        {
            let e = self.dirs[k];
            let off = 40 * k;
            write_name(&mut r, off, &e.name);
            write_u32_le(&mut r, off + 16, e.parent);
            write_u32_le(&mut r, off + 20, e.next);
            write_u32_le(&mut r, off + 24, e.sub_dir);
            write_u32_le(&mut r, off + 28, e.sub_file);
            write_u32_le(&mut r, off + 36, e.hash_next);
            proof {
                assert(r@.subrange(40 * k as int, 40 * k + 16) =~= self.dirs@[k as int].name@);
                assert forall|j: int|
                    0 <= j < k implies r@.subrange(40 * j, 40 * j + 16) == (#[trigger] self.dirs@[
                j]).name@ by {
                    assert(r@.subrange(40 * j, 40 * j + 16) =~= self.dirs@[j].name@);
                }
            }
            k = k + 1;
        }
        r
    }

    /// Serialize the file table to its on-disk form; padding words are
    /// written as zero.
    #[verifier::loop_isolation(false)]
    #[verifier::rlimit(60)]
    pub fn file_table_bytes(&self) -> (r: Vec<u8>)
        requires
            self.wf(),
        ensures
            r@.len() == self.files@.len() * 48,
            forall|k: int|
                0 <= k < self.files@.len() ==> (r@.subrange(48 * k, 48 * k + 16)
                    == (#[trigger] self.files@[k]).name@ && le32(r@, 48 * k + 16)
                    == self.files@[k].parent && le32(r@, 48 * k + 20) == self.files@[k].next
                    && le32(r@, 48 * k + 28) == self.files@[k].block && le64(r@, 48 * k + 32)
                    == self.files@[k].size && le32(r@, 48 * k + 44) == self.files@[k].hash_next),
    {
        let n = self.files.len();
        let mut r = zeros(n * 48);
        let mut k: usize = 0;
        while k < n
            invariant
                k <= n,
                n == self.files@.len(),
                r@.len() == n * 48,
                forall|j: int|
                    0 <= j < k ==> (r@.subrange(48 * j, 48 * j + 16)
                        == (#[trigger] self.files@[j]).name@ && le32(r@, 48 * j + 16)
                        == self.files@[j].parent && le32(r@, 48 * j + 20) == self.files@[j].next
                        && le32(r@, 48 * j + 28) == self.files@[j].block && le64(r@, 48 * j + 32)
                        == self.files@[j].size && le32(r@, 48 * j + 44)
                        == self.files@[j].hash_next),
            decreases n - k,
        {
            let e = self.files[k];
            let off = 48 * k;
            write_name(&mut r, off, &e.name);
            write_u32_le(&mut r, off + 16, e.parent);
            write_u32_le(&mut r, off + 20, e.next);
            write_u32_le(&mut r, off + 28, e.block);
            write_u64_le(&mut r, off + 32, e.size);
            write_u32_le(&mut r, off + 44, e.hash_next);
            proof {
                assert(r@.subrange(48 * k as int, 48 * k + 16) =~= self.files@[k as int].name@);
                assert forall|j: int|
                    0 <= j < k implies r@.subrange(48 * j, 48 * j + 16) == (#[trigger] self.files@[
                j]).name@ by {
                    assert(r@.subrange(48 * j, 48 * j + 16) =~= self.files@[j].name@);
                }
            }
            k = k + 1;
        }
        r
    }

    /// No two live directory entries under one parent share a name.
    pub open spec fn dir_names_unique(self) -> bool {
        forall|i: int, j: int|
            #[trigger] self.live_dir(i) && #[trigger] self.live_dir(j) && self.dirs@[i].parent
                == self.dirs@[j].parent && self.dirs@[i].name@ == self.dirs@[j].name@ ==> i == j
    }

    /// No two live file entries under one parent share a name.
    pub open spec fn file_names_unique(self) -> bool {
        forall|i: int, j: int|
            #[trigger] self.live_file(i) && #[trigger] self.live_file(j) && self.files@[i].parent
                == self.files@[j].parent && self.files@[i].name@ == self.files@[j].name@ ==> i == j
    }

    /// Update a live file entry's start block and size.
    pub fn set_file_info(&mut self, ino: u32, block: u32, size: u64)
        requires
            old(self).wf(),
            old(self).live_file(ino as int),
        ensures
            final(self).wf(),
            final(self).dir_hash@.len() == old(self).dir_hash@.len(),
            final(self).file_hash@.len() == old(self).file_hash@.len(),
            final(self).dirs@ == old(self).dirs@,
            final(self).files@.len() == old(self).files@.len(),
            final(self).files@[ino as int].block == block,
            final(self).files@[ino as int].size == size,
            final(self).files@[ino as int].name@ == old(self).files@[ino as int].name@,
            final(self).files@[ino as int].parent == old(self).files@[ino as int].parent,
            forall|j: int|
                0 <= j < old(self).files@.len() && j != ino ==> final(self).files@[j] == old(
                    self,
                ).files@[j],
            forall|j: int|
                0 <= j < old(self).files@.len() ==> (final(self).live_file(j) <==> old(
                    self,
                ).live_file(j)),
    {
        let e = self.files[ino as usize];
        self.files.set(ino as usize, FileEntry { block, size, ..e });
    }
}

/// Name uniqueness within a parent is preserved by entry creation: a
/// create rejects duplicates, so a table whose live directory entries
/// had unique (parent, name) keys keeps them unique after one new entry
/// whose key was absent.
pub proof fn lemma_unique_names_after_create(pre: FsMeta, post: FsMeta, ino: int)
    requires
        pre.dir_names_unique(),
        !pre.live_dir(ino),
        post.live_dir(ino),
        post.dirs@.len() == pre.dirs@.len(),
        !pre.dir_child_exists(post.dirs@[ino].parent, post.dirs@[ino].name@),
        forall|j: int|
            0 <= j < pre.dirs@.len() && j != ino ==> (#[trigger] post.dirs@[j]).name@
                == pre.dirs@[j].name@ && post.dirs@[j].parent == pre.dirs@[j].parent,
        forall|j: int|
            0 <= j < pre.dirs@.len() && j != ino ==> (post.live_dir(j) <==> #[trigger] pre.live_dir(
                j,
            )),
    ensures
        post.dir_names_unique(),
{
    assert forall|i: int, j: int|
        #[trigger] post.live_dir(i) && #[trigger] post.live_dir(j) && post.dirs@[i].parent
            == post.dirs@[j].parent && post.dirs@[i].name@ == post.dirs@[j].name@ implies i
        == j by {
        if i != j {
            if i == ino {
                assert(pre.live_dir(j));
                assert(pre.dir_child_exists(post.dirs@[ino].parent, post.dirs@[ino].name@));
            } else if j == ino {
                assert(pre.live_dir(i));
                assert(pre.dir_child_exists(post.dirs@[ino].parent, post.dirs@[ino].name@));
            } else {
                assert(pre.live_dir(i) && pre.live_dir(j));
            }
        }
    }
}

/// Deleting or renaming entries cannot break name uniqueness either:
/// any table whose live entries keep their names and parents, while the
/// live set only shrinks, stays unique.
pub proof fn lemma_unique_names_after_delete(pre: FsMeta, post: FsMeta)
    requires
        pre.dir_names_unique(),
        post.dirs@.len() == pre.dirs@.len(),
        forall|j: int|
            0 <= j < pre.dirs@.len() && #[trigger] post.live_dir(j) ==> pre.live_dir(j)
                && post.dirs@[j].name@ == pre.dirs@[j].name@ && post.dirs@[j].parent
                == pre.dirs@[j].parent,
    ensures
        post.dir_names_unique(),
{
    assert forall|i: int, j: int|
        #[trigger] post.live_dir(i) && #[trigger] post.live_dir(j) && post.dirs@[i].parent
            == post.dirs@[j].parent && post.dirs@[i].name@ == post.dirs@[j].name@ implies i
        == j by {
        assert(pre.live_dir(i) && pre.live_dir(j));
    }
}

/// A rank strictly decreasing toward the root: every live directory
/// other than the root has a live parent, and ranks drop along parent
/// links, so no parent chain can cycle.
pub open spec fn parent_rank_ok(m: FsMeta, rank: Map<int, int>) -> bool {
    forall|i: int|
        #[trigger] m.live_dir(i) && i != 1 ==> {
            let p = m.dirs@[i].parent as int;
            m.live_dir(p) && (p == 1 || rank[p] < rank[i])
        }
}

/// The parent-ino relation is a tree rooted at ino 1, witnessed by a
/// rank that decreases toward the root.
pub open spec fn tree_rooted(m: FsMeta) -> bool {
    exists|rank: Map<int, int>| parent_rank_ok(m, rank)
}

/// Tree shape is preserved by directory creation: adding a fresh entry
/// whose parent is a live directory keeps the parent relation a tree
/// rooted at ino 1.
pub proof fn lemma_tree_rooted_after_create(pre: FsMeta, post: FsMeta, parent: u32, ino: int)
    requires
        tree_rooted(pre),
        pre.live_dir(parent as int),
        !pre.live_dir(ino),
        ino != 1,
        post.dirs@.len() == pre.dirs@.len(),
        post.live_dir(ino),
        post.dirs@[ino].parent == parent,
        forall|j: int|
            0 <= j < pre.dirs@.len() && j != ino ==> (#[trigger] post.dirs@[j]).parent
                == pre.dirs@[j].parent,
        forall|j: int|
            0 <= j < pre.dirs@.len() && j != ino ==> (post.live_dir(j) <==> #[trigger] pre.live_dir(
                j,
            )),
    ensures
        tree_rooted(post),
{
    let rank = choose|rank: Map<int, int>| parent_rank_ok(pre, rank);
    let new_rank: int = if parent == 1 {
        0
    } else {
        rank[parent as int] + 1
    };
    let rank2 = rank.insert(ino, new_rank);
    assert(parent_rank_ok(post, rank2)) by {
        assert forall|i: int| #[trigger] post.live_dir(i) && i != 1 implies {
            let p = post.dirs@[i].parent as int;
            post.live_dir(p) && (p == 1 || rank2[p] < rank2[i])
        } by {
            if i == ino {
                assert(post.live_dir(parent as int));
                if parent != 1 {
                    assert(pre.live_dir(parent as int) && parent as int != 1);
                    assert(rank2[parent as int] == rank[parent as int]);
                }
            } else {
                assert(pre.live_dir(i));
                let p = pre.dirs@[i].parent as int;
                assert(pre.live_dir(p) && (p == 1 || rank[p] < rank[i]));
                assert(p != ino);
                assert(post.live_dir(p));
                assert(rank2[p] == rank[p] && rank2[i] == rank[i]);
            }
        }
    }
    assert(tree_rooted(post));
}

/// Tree shape is preserved by deletion: removing entries while every
/// surviving directory keeps its parent, and no survivor is orphaned,
/// keeps the parent relation a tree rooted at ino 1. A directory delete
/// requires empty child lists, so survivors are never orphaned.
pub proof fn lemma_tree_rooted_after_delete(pre: FsMeta, post: FsMeta)
    requires
        tree_rooted(pre),
        post.dirs@.len() == pre.dirs@.len(),
        forall|j: int|
            #[trigger] post.live_dir(j) ==> pre.live_dir(j) && post.dirs@[j].parent
                == pre.dirs@[j].parent,
        forall|j: int|
            #[trigger] post.live_dir(j) && j != 1 ==> post.live_dir(post.dirs@[j].parent as int),
    ensures
        tree_rooted(post),
{
    let rank = choose|rank: Map<int, int>| parent_rank_ok(pre, rank);
    assert(parent_rank_ok(post, rank)) by {
        assert forall|i: int| #[trigger] post.live_dir(i) && i != 1 implies {
            let p = post.dirs@[i].parent as int;
            post.live_dir(p) && (p == 1 || rank[p] < rank[i])
        } by {
            assert(pre.live_dir(i));
            let p = pre.dirs@[i].parent as int;
            assert(pre.live_dir(p) && (p == 1 || rank[p] < rank[i]));
        }
    }
    assert(tree_rooted(post));
}

} // verus!
