use rand::RngExt;
use sha2::Digest;
use save3ds::error::Error;
use save3ds::fat::{Fat, FatFile};
use save3ds::fs_meta::{DIR_ENTRY_LEN, FILE_ENTRY_LEN};
use save3ds::ivfc::IvfcLevel;
use save3ds::save_data::{SaveData, SaveDataFileSystem, HEADER_LEN};

fn w32(b: &mut Vec<u8>, pos: usize, v: u32) {
    let x = v.to_le_bytes();
    b[pos..pos + 4].copy_from_slice(&x);
}

fn w64(b: &mut Vec<u8>, pos: usize, v: u64) {
    let x = v.to_le_bytes();
    b[pos..pos + 8].copy_from_slice(&x);
}

fn name16(s: &str) -> [u8; 16] {
    let mut n = [0u8; 16];
    n[..s.len()].copy_from_slice(s.as_bytes());
    n
}

/// A freshly formatted single-partition image: block_len 512, 100 data
/// blocks; the directory table is the FAT file at block 1, the file
/// table the FAT file spanning blocks 2..=3, and blocks 4..=100 free.
fn format_image() -> Vec<u8> {
    let mut p = vec![0u8; 0x10000];
    // header
    p[0..4].copy_from_slice(b"SAVE");
    w32(&mut p, 4, 0x40000);
    w64(&mut p, 8, 0x20); // fs_info_offset
    w64(&mut p, 16, 0x10000); // image_size
    w32(&mut p, 24, 0x1000); // image block len
    // fs info at 0x20
    w32(&mut p, 0x20 + 4, 512); // block_len
    w64(&mut p, 0x20 + 8, 0x100); // dir_hash_offset
    w32(&mut p, 0x20 + 16, 8); // dir_buckets
    w64(&mut p, 0x20 + 20, 0x120); // file_hash_offset
    w32(&mut p, 0x20 + 28, 8); // file_buckets
    w64(&mut p, 0x20 + 32, 0x140); // fat_offset
    w32(&mut p, 0x20 + 40, 100); // fat_size
    w64(&mut p, 0x20 + 44, 0x1000); // data_offset
    w32(&mut p, 0x20 + 52, 100); // data_block_count
    w64(&mut p, 0x20 + 56, 1); // dir_table: start block 1
    w32(&mut p, 0x20 + 64, 10); // max_dir
    w64(&mut p, 0x20 + 68, 2); // file_table: start block 2
    w32(&mut p, 0x20 + 76, 10); // max_file
    // FAT table at 0x140: slot i as (u, v) little-endian pairs
    let fat = 0x140;
    let slot = |i: usize| fat + 8 * i;
    // node 0: head/tail of the free chain (first free head 4, last 4)
    w32(&mut p, slot(0), 4 + 1);
    w32(&mut p, slot(0) + 4, 4 + 1);
    // block 1: dir table, single-block file chain
    w32(&mut p, slot(1), 0x8000_0000);
    w32(&mut p, slot(1) + 4, 0);
    // blocks 2..=3: file table, one run of two blocks
    w32(&mut p, slot(2), 0x8000_0000);
    w32(&mut p, slot(2) + 4, 0x8000_0000);
    w32(&mut p, slot(3), 2 + 1);
    w32(&mut p, slot(3) + 4, 0x8000_0000 | 3);
    // free chain: one run 4..=100
    w32(&mut p, slot(4), 0x8000_0000 | 1);
    w32(&mut p, slot(4) + 4, 0x8000_0000);
    w32(&mut p, slot(5), 0);
    w32(&mut p, slot(5) + 4, 0x8000_0000 | 100);
    w32(&mut p, slot(100), 4 + 1);
    w32(&mut p, slot(100) + 4, 0);
    // dir table: 12 slots of 40 bytes at data block 1
    let data = 0x1000;
    let dtab = data; // (1-1)*512
    // slot 0: free-slot list head -> 2
    w32(&mut p, dtab + 20, 2);
    // slot 1: root, all zero
    for k in 2..12 {
        let off = dtab + k * DIR_ENTRY_LEN;
        let next = if k == 11 { 0 } else { (k + 1) as u32 };
        w32(&mut p, off + 20, next);
    }
    // file table: 11 slots of 48 bytes at data blocks 2..=3
    let ftab = data + 512;
    w32(&mut p, ftab + 20, 1);
    for k in 1..11 {
        let off = ftab + k * FILE_ENTRY_LEN;
        let next = if k == 10 { 0 } else { (k + 1) as u32 };
        w32(&mut p, off + 20, next);
    }
    p
}

#[test]
fn struct_size() {
    assert_eq!(HEADER_LEN, 0x20);
    assert_eq!(FILE_ENTRY_LEN - 16 - 4 - 4, 24);
}

#[test]
fn fuzz() {
    let mut rng = rand::rng();
    for _ in 0..10 {
        let len = rng.random_range(1..10_000usize);
        let block_len = rng.random_range(1..100usize);
        let block_count = 1 + (len - 1) / block_len;
        let hash_len = block_count * 0x20;
        let hash: Vec<u8> = (0..hash_len).map(|_| rng.random::<u8>()).collect();
        let data: Vec<u8> = (0..len).map(|_| rng.random::<u8>()).collect();
        let mut ivfc_level = IvfcLevel::new(hash, data, block_len);
        let mut buf = vec![0; len];
        match ivfc_level.read(0, &mut buf) {
            Err(Error::HashMismatch) => (),
            _ => unreachable!(),
        }
        let init: Vec<u8> = (0..len).map(|_| rng.random::<u8>()).collect();
        ivfc_level.write(0, &init).unwrap();
        let mut plain = init;
        for _ in 0..100 {
            let operation = rng.random_range(1..10u32);
            if operation == 1 {
                ivfc_level.commit().unwrap();
                ivfc_level = IvfcLevel::new(
                    ivfc_level.hash.clone(),
                    ivfc_level.data.clone(),
                    block_len,
                );
            } else if operation < 4 {
                ivfc_level.commit().unwrap();
            } else {
                let pos = rng.random_range(0..len);
                let data_len = rng.random_range(1..len - pos + 1);
                if operation < 7 {
                    let mut a = vec![0; data_len];
                    ivfc_level.read(pos, &mut a).unwrap();
                    let b = plain[pos..pos + data_len].to_vec();
                    assert_eq!(a, b);
                } else {
                    let a: Vec<u8> = (0..data_len).map(|_| rng.random::<u8>()).collect();
                    ivfc_level.write(pos, &a).unwrap();
                    plain[pos..pos + data_len].copy_from_slice(&a);
                }
            }
        }
    }
}

#[test]
fn ivfc_round_trip() {
    let block_len = 64;
    let data = vec![0u8; 1000];
    let hash = vec![0u8; ((1000 + 63) / 64) * 0x20];
    let mut iv = IvfcLevel::new(hash, data, block_len);
    let payload: Vec<u8> = (0..1000u32).map(|i| (i % 251) as u8).collect();
    iv.write(0, &payload).unwrap();
    iv.commit().unwrap();
    let mut iv2 = IvfcLevel::new(iv.hash.clone(), iv.data.clone(), block_len);
    let mut out = vec![0u8; 1000];
    iv2.read(0, &mut out).unwrap();
    assert_eq!(out, payload);
}

#[test]
fn ivfc_tamper_detected() {
    let block_len = 64;
    let data = vec![0u8; 1000];
    let hash = vec![0u8; ((1000 + 63) / 64) * 0x20];
    let mut iv = IvfcLevel::new(hash, data, block_len);
    let payload = vec![0x5Au8; 1000];
    iv.write(0, &payload).unwrap();
    iv.commit().unwrap();
    let mut tampered = iv.data.clone();
    tampered[130] ^= 0x01; // flip one bit in block 2
    let mut iv2 = IvfcLevel::new(iv.hash.clone(), tampered, block_len);
    let mut out = vec![0u8; 64];
    assert_eq!(iv2.read(128, &mut out), Err(Error::HashMismatch));
    // untampered blocks still read
    let mut ok = vec![0u8; 64];
    iv2.read(0, &mut ok).unwrap();
    assert_eq!(ok, vec![0x5Au8; 64]);
}

fn fresh_fat(blocks: u32, block_len: usize) -> Fat {
    // table bytes: free chain = one run covering every block
    let slots = (blocks + 1) as usize;
    let mut t = vec![0u8; slots * 8];
    w32(&mut t, 0, 1 + 1);
    w32(&mut t, 4, 1 + 1);
    w32(&mut t, 8, 0x8000_0000 | 1); // block 1: free head, prev = node 0
    w32(&mut t, 12, 0x8000_0000);
    w32(&mut t, 16, 0); // expansion slot at block 2
    w32(&mut t, 20, 0x8000_0000 | blocks);
    w32(&mut t, 8 * blocks as usize, 1 + 1); // tail
    let data = vec![0u8; blocks as usize * block_len];
    Fat::new(&t, data, block_len).unwrap()
}

#[test]
fn fat_write_read_round_trip() {
    let mut fat = fresh_fat(20, 16);
    let (f, start) = FatFile::create(&mut fat, 5).unwrap();
    assert_eq!(start, 1);
    let payload: Vec<u8> = (0..80u32).map(|i| i as u8).collect();
    f.write(&mut fat, 0, &payload).unwrap();
    let mut out = vec![0u8; 80];
    f.read(&fat, 0, &mut out).unwrap();
    assert_eq!(out, payload);
    // middle of the file
    let mid = vec![0xAB; 7];
    f.write(&mut fat, 33, &mid).unwrap();
    let mut out2 = vec![0u8; 7];
    f.read(&fat, 33, &mut out2).unwrap();
    assert_eq!(out2, mid);
}

#[test]
fn fat_conservation_and_no_aliasing() {
    let mut fat = fresh_fat(20, 16);
    let count_free = |fat: &Fat| fat.free.iter().map(|r| r.len as usize).sum::<usize>();
    assert_eq!(count_free(&fat), 20);
    let (a, _) = FatFile::create(&mut fat, 6).unwrap();
    let (b, _) = FatFile::create(&mut fat, 7).unwrap();
    assert_eq!(count_free(&fat), 7);
    let a_blocks: Vec<u32> = a.runs.iter().flat_map(|r| r.start..r.start + r.len).collect();
    let b_blocks: Vec<u32> = b.runs.iter().flat_map(|r| r.start..r.start + r.len).collect();
    assert!(a_blocks.iter().all(|x| !b_blocks.contains(x)));
    a.delete(&mut fat).unwrap();
    assert_eq!(count_free(&fat), 13);
    // carve the freed space again
    let (c, _) = FatFile::create(&mut fat, 13).unwrap();
    assert_eq!(count_free(&fat), 0);
    c.delete(&mut fat).unwrap();
    b.delete(&mut fat).unwrap();
    assert_eq!(count_free(&fat), 20);
}

#[test]
fn fat_resize_preserves_prefix() {
    let mut fat = fresh_fat(20, 16);
    let (mut f, _) = FatFile::create(&mut fat, 4).unwrap();
    let payload: Vec<u8> = (0..64u32).map(|i| (i * 3) as u8).collect();
    f.write(&mut fat, 0, &payload).unwrap();
    f.resize(&mut fat, 9).unwrap();
    let mut out = vec![0u8; 64];
    f.read(&fat, 0, &mut out).unwrap();
    assert_eq!(out, payload);
    f.resize(&mut fat, 2).unwrap();
    let mut out2 = vec![0u8; 32];
    f.read(&fat, 0, &mut out2).unwrap();
    assert_eq!(&out2[..], &payload[..32]);
}

#[test]
fn open_formatted_image_lists_empty_root() {
    let save = SaveData::from_vec(format_image()).unwrap();
    let root = SaveDataFileSystem::open_root(&save).unwrap();
    assert_eq!(SaveDataFileSystem::list_sub_dir(&save, &root).unwrap().len(), 0);
    assert_eq!(SaveDataFileSystem::list_sub_file(&save, &root).unwrap().len(), 0);
}

#[test]
fn write_commit_reopen_read() {
    let mut save = SaveData::from_vec(format_image()).unwrap();
    let root = SaveDataFileSystem::open_root(&save).unwrap();
    let f = SaveDataFileSystem::new_sub_file(&mut save, &root, name16("A"), 1000).unwrap();
    let payload = vec![0x42u8; 1000];
    SaveDataFileSystem::write(&mut save, &f, 0, &payload).unwrap();
    SaveDataFileSystem::commit(&mut save).unwrap();
    let image = save.part0_bytes();
    let save2 = SaveData::from_vec(image).unwrap();
    let root2 = SaveDataFileSystem::open_root(&save2).unwrap();
    let f2 = SaveDataFileSystem::open_sub_file(&save2, &root2, name16("A")).unwrap();
    assert_eq!(SaveDataFileSystem::len(&f2), 1000);
    let mut out = vec![0u8; 1000];
    SaveDataFileSystem::read(&save2, &f2, 0, &mut out).unwrap();
    assert_eq!(out, payload);
}

#[test]
fn zero_length_file_and_resize() {
    let mut save = SaveData::from_vec(format_image()).unwrap();
    let root = SaveDataFileSystem::open_root(&save).unwrap();
    let mut f = SaveDataFileSystem::new_sub_file(&mut save, &root, name16("A"), 0).unwrap();
    assert_eq!(SaveDataFileSystem::len(&f), 0);
    let ino = SaveDataFileSystem::file_get_ino(&f);
    assert_eq!(save.fs.file_entry(ino).block, 0x8000_0000);
    SaveDataFileSystem::resize(&mut save, &mut f, 300).unwrap();
    let payload = vec![0x13u8; 300];
    SaveDataFileSystem::write(&mut save, &f, 0, &payload).unwrap();
    assert_eq!(SaveDataFileSystem::len(&f), 300);
    assert_eq!(save.fs.file_entry(ino).size, 300);
    let mut out = vec![0u8; 300];
    SaveDataFileSystem::read(&save, &f, 0, &mut out).unwrap();
    assert_eq!(out, payload);
    SaveDataFileSystem::resize(&mut save, &mut f, 0).unwrap();
    assert_eq!(save.fs.file_entry(ino).block, 0x8000_0000);
}

#[test]
fn fill_delete_middle_reallocate() {
    let mut save = SaveData::from_vec(format_image()).unwrap();
    let root = SaveDataFileSystem::open_root(&save).unwrap();
    // 97 free blocks of 512 bytes; three files totaling all of them
    let a = SaveDataFileSystem::new_sub_file(&mut save, &root, name16("a"), 30 * 512).unwrap();
    let b = SaveDataFileSystem::new_sub_file(&mut save, &root, name16("b"), 37 * 512).unwrap();
    let c = SaveDataFileSystem::new_sub_file(&mut save, &root, name16("c"), 30 * 512).unwrap();
    assert!(matches!(
        SaveDataFileSystem::new_sub_file(&mut save, &root, name16("d"), 1),
        Err(Error::NoSpace)
    ));
    SaveDataFileSystem::file_delete(&mut save, b).unwrap();
    let d = SaveDataFileSystem::new_sub_file(&mut save, &root, name16("d"), 37 * 512).unwrap();
    // conservation: free + live chains + table chains == 100 blocks
    let free: usize = save.fat.free.iter().map(|r| r.len as usize).sum();
    let chain = |f: &save3ds::save_data::File| -> usize {
        f.data.as_ref().unwrap().runs.iter().map(|r| r.len as usize).sum()
    };
    assert_eq!(free + chain(&a) + chain(&c) + chain(&d) + 3, 100);
}

#[test]
fn rename_to_existing_name_rejected() {
    let mut save = SaveData::from_vec(format_image()).unwrap();
    let root = SaveDataFileSystem::open_root(&save).unwrap();
    let x = SaveDataFileSystem::new_sub_file(&mut save, &root, name16("X"), 100).unwrap();
    let _y = SaveDataFileSystem::new_sub_file(&mut save, &root, name16("Y"), 100).unwrap();
    assert_eq!(
        SaveDataFileSystem::file_rename(&mut save, &x, &root, name16("Y")),
        Err(Error::AlreadyExist)
    );
}

#[test]
fn duplicate_names_rejected_across_kinds() {
    let mut save = SaveData::from_vec(format_image()).unwrap();
    let root = SaveDataFileSystem::open_root(&save).unwrap();
    SaveDataFileSystem::new_sub_dir(&mut save, &root, name16("n")).unwrap();
    assert_eq!(
        SaveDataFileSystem::new_sub_file(&mut save, &root, name16("n"), 10).err(),
        Some(Error::AlreadyExist)
    );
    assert_eq!(
        SaveDataFileSystem::new_sub_dir(&mut save, &root, name16("n")).err(),
        Some(Error::AlreadyExist)
    );
}

#[test]
fn delete_then_not_found() {
    let mut save = SaveData::from_vec(format_image()).unwrap();
    let root = SaveDataFileSystem::open_root(&save).unwrap();
    let d = SaveDataFileSystem::new_sub_dir(&mut save, &root, name16("sub")).unwrap();
    let ino = SaveDataFileSystem::dir_get_ino(&d);
    SaveDataFileSystem::dir_delete(&mut save, d).unwrap();
    assert!(matches!(
        SaveDataFileSystem::dir_open_ino(&save, ino),
        Err(Error::NotFound)
    ));
    assert!(matches!(
        SaveDataFileSystem::open_sub_dir(&save, &root, name16("sub")),
        Err(Error::NotFound)
    ));
    // deleting a directory with children is refused
    let e = SaveDataFileSystem::new_sub_dir(&mut save, &root, name16("p")).unwrap();
    SaveDataFileSystem::new_sub_dir(&mut save, &e, name16("q")).unwrap();
    let e2 = SaveDataFileSystem::dir_open_ino(&save, SaveDataFileSystem::dir_get_ino(&e)).unwrap();
    assert_eq!(
        SaveDataFileSystem::dir_delete(&mut save, e2),
        Err(Error::DeletingNonEmpty)
    );
}

#[test]
fn tree_shape_and_listing() {
    let mut save = SaveData::from_vec(format_image()).unwrap();
    let root = SaveDataFileSystem::open_root(&save).unwrap();
    let a = SaveDataFileSystem::new_sub_dir(&mut save, &root, name16("a")).unwrap();
    let _b = SaveDataFileSystem::new_sub_dir(&mut save, &a, name16("b")).unwrap();
    let listing = SaveDataFileSystem::list_sub_dir(&save, &a).unwrap();
    assert_eq!(listing.len(), 1);
    assert_eq!(listing[0].0, name16("b"));
    let b2 = SaveDataFileSystem::dir_open_ino(&save, listing[0].1).unwrap();
    assert_eq!(
        SaveDataFileSystem::dir_get_parent_ino(&save, &b2),
        SaveDataFileSystem::dir_get_ino(&a)
    );
    assert_eq!(SaveDataFileSystem::dir_get_parent_ino(&save, &a), 1);
}

#[test]
fn header_errors() {
    let mut img = format_image();
    img[0] = b'X';
    assert_eq!(SaveData::from_vec(img).err(), Some(Error::MagicMismatch));
    let mut img2 = format_image();
    w32(&mut img2, 0x20 + 40, 99); // fat_size != data_block_count
    assert_eq!(SaveData::from_vec(img2).err(), Some(Error::SizeMismatch));
    assert_eq!(SaveData::from_vec(vec![0u8; 4]).err(), Some(Error::OutOfBound));
}

#[test]
fn le_codec_round_trip() {
    let mut b = vec![0u8; 12];
    save3ds::bytes::write_u32_le(&mut b, 1, 0xDEAD_BEEF);
    assert_eq!(save3ds::bytes::read_u32_le(&b, 1), 0xDEAD_BEEF);
    save3ds::bytes::write_u64_le(&mut b, 3, 0x0123_4567_89AB_CDEF);
    assert_eq!(save3ds::bytes::read_u64_le(&b, 3), 0x0123_4567_89AB_CDEF);
}

#[test]
fn signer_blocks() {
    let data = vec![1u8, 2, 3];
    let nand = save3ds::save_data::NandSaveSigner { id: 0x11223344 };
    let blk = nand.block(&data);
    assert_eq!(&blk[0..8], b"CTR-SYS0");
    assert_eq!(&blk[8..12], &[0x44, 0x33, 0x22, 0x11]);
    assert_eq!(&blk[16..], &[1, 2, 3]);
    let sd = save3ds::save_data::SdSaveSigner { id: 5 };
    let blk2 = sd.block(&data);
    assert_eq!(&blk2[0..8], b"CTR-SIGN");
    assert_eq!(blk2.len(), 48);
}

#[test]
fn sd_path_ctr_matches_manual() {
    let parts: Vec<Vec<u8>> = vec![b"title".to_vec(), b"00000000.sav".to_vec()];
    let ctr = save3ds::sd::sd_path_ctr(&parts);
    // manual: "/title/00000000.sav\0" widened to UTF-16LE
    let narrow = b"/title/00000000.sav\0";
    let wide: Vec<u8> = narrow.iter().flat_map(|&c| [c, 0]).collect();
    let hash = sha2::Sha256::digest(&wide);
    let mut expect = [0u8; 16];
    for i in 0..16 {
        expect[i] = hash[i] ^ hash[i + 16];
    }
    assert_eq!(ctr, expect);
}

/// A freshly formatted two-partition image: metadata tables are
/// sub-regions of the first partition, the data region is all of the
/// second.
fn format_two_partition() -> (Vec<u8>, Vec<u8>) {
    let mut p = vec![0u8; 0x10000];
    p[0..4].copy_from_slice(b"SAVE");
    w32(&mut p, 4, 0x40000);
    w64(&mut p, 8, 0x20);
    w64(&mut p, 16, 0x10000);
    w32(&mut p, 24, 0x1000);
    w32(&mut p, 0x20 + 4, 512);
    w64(&mut p, 0x20 + 8, 0x100);
    w32(&mut p, 0x20 + 16, 8);
    w64(&mut p, 0x20 + 20, 0x120);
    w32(&mut p, 0x20 + 28, 8);
    w64(&mut p, 0x20 + 32, 0x140);
    w32(&mut p, 0x20 + 40, 100);
    w64(&mut p, 0x20 + 44, 0);
    w32(&mut p, 0x20 + 52, 100);
    w64(&mut p, 0x20 + 56, 0x1000); // dir_table byte offset
    w32(&mut p, 0x20 + 64, 10);
    w64(&mut p, 0x20 + 68, 0x1200); // file_table byte offset
    w32(&mut p, 0x20 + 76, 10);
    let fat = 0x140;
    let slot = |i: usize| fat + 8 * i;
    // free chain: one run 1..=100
    w32(&mut p, slot(0), 1 + 1);
    w32(&mut p, slot(0) + 4, 1 + 1);
    w32(&mut p, slot(1), 0x8000_0000 | 1);
    w32(&mut p, slot(1) + 4, 0x8000_0000);
    w32(&mut p, slot(2), 0);
    w32(&mut p, slot(2) + 4, 0x8000_0000 | 100);
    w32(&mut p, slot(100), 1 + 1);
    w32(&mut p, slot(100) + 4, 0);
    // dir table at 0x1000, 12 slots
    w32(&mut p, 0x1000 + 20, 2);
    for k in 2..12 {
        let off = 0x1000 + k * DIR_ENTRY_LEN;
        let next = if k == 11 { 0 } else { (k + 1) as u32 };
        w32(&mut p, off + 20, next);
    }
    // file table at 0x1200, 11 slots
    w32(&mut p, 0x1200 + 20, 1);
    for k in 1..11 {
        let off = 0x1200 + k * FILE_ENTRY_LEN;
        let next = if k == 10 { 0 } else { (k + 1) as u32 };
        w32(&mut p, off + 20, next);
    }
    (p, vec![0u8; 100 * 512])
}

#[test]
fn two_partition_round_trip() {
    let (p0, p1) = format_two_partition();
    let mut save = SaveData::new(p0, Some(p1)).unwrap();
    let root = SaveDataFileSystem::open_root(&save).unwrap();
    let f = SaveDataFileSystem::new_sub_file(&mut save, &root, name16("two"), 700).unwrap();
    let payload: Vec<u8> = (0..700u32).map(|i| (i % 199) as u8).collect();
    SaveDataFileSystem::write(&mut save, &f, 0, &payload).unwrap();
    SaveDataFileSystem::commit(&mut save).unwrap();
    let p0b = save.part0_bytes();
    let p1b = save.part1_bytes().unwrap();
    let save2 = SaveData::new(p0b, Some(p1b)).unwrap();
    let root2 = SaveDataFileSystem::open_root(&save2).unwrap();
    let f2 = SaveDataFileSystem::open_sub_file(&save2, &root2, name16("two")).unwrap();
    let mut out = vec![0u8; 700];
    SaveDataFileSystem::read(&save2, &f2, 0, &mut out).unwrap();
    assert_eq!(out, payload);
}
