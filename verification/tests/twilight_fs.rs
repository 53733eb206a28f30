use twilight_kernel::block::{write_range, RamDisk};
use twilight_kernel::twilight_fs::bitmap::{count_clear, find_clear, put_bit, test_bit};
use twilight_kernel::twilight_fs::fs::{Superblock, TwilightFs};
use twilight_kernel::twilight_fs::inode::{decode_inode, encode_inode, Inode, IFLAG_ENCRYPTED};
use twilight_kernel::twilight_fs::mount::{
    decode_superblock, encode_superblock, layout_valid, read_superblock, usb_area,
};
use twilight_kernel::twilight_fs::ops::FsCtx;
use twilight_kernel::twilight_fs::volume::{
    fs_block_offset_bytes, fs_block_offset_sectors, read_tfs_blocks, set_fs_block_offset_bytes,
    set_fs_block_offset_lba, to_u32_saturating, write_tfs_blocks, BlockOffset, FsError, TfsError,
};
use twilight_kernel::vfs::{FileType, VfsError};

const SB: Superblock = Superblock {
    block_size: 2048,
    imap_blocks: 1,
    zmap_blocks: 1,
    first_data_zone: 5,
    zones: 600,
    ninodes: 32,
};

fn volume() -> TwilightFs<RamDisk> {
    let disk = RamDisk::new(vec![0u8; 2400 * 512], 512);
    TwilightFs::format(disk, 0, SB, 1000).unwrap()
}

fn pattern(n: usize) -> Vec<u8> {
    (0..n).map(|i| (i * 7 + i / 251) as u8).collect()
}

#[test]
fn what_is_written_is_read() {
    let mut fs = volume();
    let ino = fs.create_file(1, b"a.txt", 5).unwrap();
    for n in [0usize, 1, 2047, 2048, 2049, 12 * 2048, 12 * 2048 + 1, 60_000, 523 * 2048] {
        let data = pattern(n);
        fs.write_file(ino, &data).unwrap();
        assert_eq!(fs.read_file(ino).unwrap(), data);
    }
    fs.write_file(ino, b"short").unwrap();
    assert_eq!(fs.read_file(ino).unwrap(), b"short".to_vec());
}

#[test]
fn files_get_the_lowest_zones_in_order() {
    let mut fs = volume();
    let small = fs.create_file(1, b"small", 5).unwrap();
    let large = fs.create_file(1, b"large", 5).unwrap();
    fs.write_file(small, &pattern(5000)).unwrap();
    let inode = fs.read_inode(small).unwrap();
    // Each file was given a zone when it was made.
    assert_eq!(inode.direct_slot_get(0), 6);
    assert_eq!(inode.direct_slot_get(1), 8);
    assert_eq!(inode.direct_slot_get(2), 9);
    assert_eq!(inode.direct_slot_get(3), 0);
    fs.write_file(large, &pattern(14 * 2048)).unwrap();
    let inode = fs.read_inode(large).unwrap();
    assert_eq!(inode.direct_slot_get(0), 7);
    for k in 1..12 {
        assert_eq!(inode.direct_slot_get(k), 9 + k as u32);
    }
    assert_eq!(inode.single, 21);
    assert_eq!(inode.double, 0);
    fs.write_file(small, &pattern(4 * 2048)).unwrap();
    assert_eq!(fs.read_inode(small).unwrap().direct_slot_get(3), 24);
}

#[test]
fn blocks_of_a_volume() {
    let mut fs = volume();
    assert_eq!(fs.block_size(), 2048);
    let data = pattern(4096);
    assert_eq!(fs.write_blocks(100, &data), Ok(()));
    assert_eq!(fs.write_blocks(100, &data[..1000]), Err(()));
    assert_eq!(fs.write_blocks(599, &data), Err(()));
    let mut block = [0u8; 2048];
    assert_eq!(fs.read_block(101, &mut block), Ok(()));
    assert_eq!(block[..], data[2048..]);
    assert_eq!(fs.write_block(101, &data[..2048]), Ok(()));
    assert_eq!(fs.read_block(101, &mut block), Ok(()));
    assert_eq!(block[..], data[..2048]);
    assert_eq!(fs.read_block(0, &mut [0u8; 10]), Err(()));
    assert_eq!(fs.alloc_zones(3).unwrap(), vec![6, 7, 8]);
    assert_eq!(fs.free_zone(7), Ok(()));
    assert_eq!(fs.alloc_zones(2).unwrap(), vec![7, 9]);
    assert!(fs.alloc_zones(1000).is_err());
    assert_eq!(fs.alloc_zone().unwrap(), 10);
}

#[test]
fn names_lead_to_files() {
    let mut fs = volume();
    fs.mkdir(b"/", b"etc", 0o755, 5).unwrap();
    fs.touch(b"/etc", b"hosts", 0o644, 6).unwrap();
    let m = fs.metadata(b"/etc/hosts").unwrap();
    assert_eq!(m.file_type, FileType::File);
    assert_eq!(m.name, b"hosts".to_vec());
    assert_eq!(fs.metadata(b"/etc").unwrap().file_type, FileType::Dir);
    assert!(fs.metadata(b"/nothing").is_err());
    let names: Vec<Vec<u8>> = fs.ls(b"/etc").unwrap().into_iter().map(|m| m.name).collect();
    assert!(names.contains(&b"hosts".to_vec()));
    assert!(fs.open(b"/etc/hosts").is_ok());
    assert!(fs.open(b"/etc/none").is_err());
    assert_eq!(fs.resolve_path(b"/").unwrap(), 1);
    assert_eq!(fs.resolve_path(b"/etc/none").unwrap_err(), FsError::FileNotFound);
}

#[test]
fn files_move_and_go() {
    let mut fs = volume();
    fs.mkdir(b"/", b"d", 0o755, 5).unwrap();
    fs.touch(b"/", b"f", 0o644, 5).unwrap();
    let ino = fs.resolve_path(b"/f").unwrap();
    fs.write_file(ino, b"content").unwrap();
    fs.rename(b"/f", b"/d/g").unwrap();
    assert!(fs.metadata(b"/f").is_err());
    assert_eq!(fs.resolve_path(b"/d/g").unwrap(), ino);
    assert_eq!(fs.read_file(ino).unwrap(), b"content".to_vec());
    fs.rm(b"/d/g").unwrap();
    assert!(fs.metadata(b"/d/g").is_err());
    assert!(fs.rm(b"/d/g").is_err());
    fs.rmdir(b"/d").unwrap();
    assert!(fs.metadata(b"/d").is_err());
}

#[test]
fn names_move_between_directories() {
    let mut fs = volume();
    fs.mkdir(b"/", b"a", 0o755, 1).unwrap();
    fs.mkdir(b"/", b"b", 0o755, 1).unwrap();
    let a = fs.resolve_path(b"/a").unwrap();
    let b = fs.resolve_path(b"/b").unwrap();
    let moved = fs.create_file(a, b"one", 5).unwrap();
    fs.write_file(moved, b"first").unwrap();
    // The caches know both paths.
    assert_eq!(fs.resolve_path(b"/a/one").unwrap(), moved);
    assert_eq!(fs.resolve_path(b"/b/two").unwrap_err(), FsError::FileNotFound);
    fs.rename_entry(b"/a/one", b"/b/two").unwrap();
    assert_eq!(fs.resolve_path(b"/b/two").unwrap(), moved);
    assert_eq!(fs.resolve_path(b"/a/one").unwrap_err(), FsError::FileNotFound);
    assert_eq!(fs.read_file(moved).unwrap(), b"first".to_vec());
    // A file in the way is replaced.
    let old = fs.create_file(b, b"three", 5).unwrap();
    assert_eq!(fs.resolve_path(b"/b/three").unwrap(), old);
    fs.rename_entry(b"/b/two", b"/b/three").unwrap();
    assert_eq!(fs.resolve_path(b"/b/three").unwrap(), moved);
    assert_eq!(fs.resolve_path(b"/b/two").unwrap_err(), FsError::FileNotFound);
    // A directory takes what is in it along.
    fs.rename_entry(b"/b", b"/c").unwrap();
    assert_eq!(fs.resolve_path(b"/c/three").unwrap(), moved);
    assert_eq!(fs.resolve_path(b"/b/three").unwrap_err(), FsError::FileNotFound);
    // Without what is remembered the paths lead to the same.
    let mut fresh = TwilightFs::check_virtio_blk(fs.device, 0x7E).unwrap();
    assert_eq!(fresh.resolve_path(b"/c/three").unwrap(), moved);
    assert_eq!(fresh.resolve_path(b"/c").unwrap(), b);
    fresh.remove_entry(b"/c/three").unwrap();
    assert_eq!(fresh.resolve_path(b"/c/three").unwrap_err(), FsError::FileNotFound);
}

fn all_blocks(fs: &mut TwilightFs<RamDisk>) -> Vec<u8> {
    let mut all = Vec::new();
    let mut block = [0u8; 2048];
    for z in 0..600 {
        fs.read_block(z, &mut block).unwrap();
        all.extend_from_slice(&block);
    }
    all
}

#[test]
fn a_file_in_another_directory_is_replaced() {
    let mut fs = volume();
    fs.mkdir(b"/", b"a", 0o755, 1).unwrap();
    fs.mkdir(b"/", b"b", 0o755, 1).unwrap();
    let a = fs.resolve_path(b"/a").unwrap();
    let b = fs.resolve_path(b"/b").unwrap();
    let moved = fs.create_file(a, b"one", 5).unwrap();
    fs.write_file(moved, b"first").unwrap();
    let gone = fs.create_file(b, b"two", 5).unwrap();
    fs.write_file(gone, &pattern(5000)).unwrap();
    let free = fs.stats().unwrap().blocks_free;
    assert_eq!(fs.rename_entry(b"/a/one", b"/b/two"), Ok(()));
    assert_eq!(fs.resolve_path(b"/b/two").unwrap(), moved);
    assert_eq!(fs.resolve_path(b"/a/one").unwrap_err(), FsError::FileNotFound);
    assert_eq!(fs.read_file(moved).unwrap(), b"first".to_vec());
    // The three zones of the file that went are free again.
    assert_eq!(fs.stats().unwrap().blocks_free, free + 3);
    let names: Vec<Vec<u8>> = fs.ls(b"/b").unwrap().into_iter().map(|m| m.name).collect();
    assert_eq!(names.iter().filter(|n| n.as_slice() == b"two").count(), 1);
}

#[test]
fn renamings_that_are_refused() {
    let mut fs = volume();
    fs.mkdir(b"/", b"a", 0o755, 1).unwrap();
    fs.mkdir(b"/", b"b", 0o755, 1).unwrap();
    let a = fs.resolve_path(b"/a").unwrap();
    let b = fs.resolve_path(b"/b").unwrap();
    let one = fs.create_file(a, b"one", 5).unwrap();
    fs.create_dir(b, b"taken", 5).unwrap();
    // The same file has a name in each of the directories, and two in the first.
    fs.create_dir_entry(b, b"again", one).unwrap();
    fs.create_dir_entry(a, b"also", one).unwrap();
    let before = all_blocks(&mut fs);
    assert_eq!(fs.rename_entry(b"/a/none", b"/b/x"), Err(FsError::FileNotFound));
    assert_eq!(fs.rename_entry(b"/none/x", b"/b/x"), Err(FsError::FileNotFound));
    assert_eq!(fs.rename_entry(b"/a/one", b"/b/taken"), Err(FsError::FileAlreadyExists));
    assert_eq!(fs.rename_entry(b"/a/one", b"/b/again"), Err(FsError::FileAlreadyExists));
    assert_eq!(fs.rename_entry(b"/b/taken", b"/a/x"), Err(FsError::NotSupported));
    assert_eq!(fs.rename_entry(b"/a/one/x", b"/b/x"), Err(FsError::InvalidPath));
    assert!(all_blocks(&mut fs) == before);
    // Between two names of one file in one directory there is nothing to do.
    assert_eq!(fs.rename_entry(b"/a/one", b"/a/also"), Ok(()));
    assert!(all_blocks(&mut fs) == before);
    assert_eq!(fs.resolve_path(b"/a/one").unwrap(), one);
}

#[test]
fn a_full_volume_takes_names_but_no_files() {
    let mut fs = volume();
    let one = fs.create_file(1, b"one", 5).unwrap();
    while fs.allocate_zone().is_ok() {}
    let before = all_blocks(&mut fs);
    assert_eq!(fs.create_file(1, b"two", 5).unwrap_err(), FsError::InvalidInode);
    assert_eq!(fs.resolve_path(b"/two").unwrap_err(), FsError::FileNotFound);
    assert_eq!(fs.create_dir(1, b"two", 5).unwrap_err(), FsError::InvalidInode);
    // The number that was set aside for each stays so; the zones are as they were.
    assert_eq!(fs.allocate_inode().unwrap(), one + 2);
    assert!(all_blocks(&mut fs)[5 * 2048..] == before[5 * 2048..]);
    // The zone of the directory has places left.
    assert_eq!(fs.create_dir_entry(1, b"also", one), Ok(()));
    assert_eq!(fs.find_dir_entry(1, b"also").unwrap(), Some(one));
    // Thirty-two entries fill it.
    let mut taken = 0;
    while fs.create_dir_entry(1, &[b'n', taken], one).is_ok() {
        taken += 1;
    }
    assert!(taken < 32);
    let before = all_blocks(&mut fs);
    assert!(fs.create_dir_entry(1, b"more", one).is_err());
    assert!(all_blocks(&mut fs) == before);
}

#[test]
fn only_zones_that_are_looked_at_count() {
    let mut fs = volume();
    let ino = fs.create_file(1, b"f", 5).unwrap();
    fs.write_file(ino, b"short").unwrap();
    let mut inode = fs.read_inode(ino).unwrap();
    inode.direct_slot_set(2, 9999);
    fs.write_inode(ino, &inode).unwrap();
    assert_eq!(fs.read_file(ino).unwrap(), b"short".to_vec());
    inode.direct_slot_set(0, 9999);
    fs.write_inode(ino, &inode).unwrap();
    assert_eq!(fs.read_file(ino), Err("Failed to read block"));
    assert_eq!(fs.read_file(0), Err("Invalid inode number"));
    let d = fs.create_dir(1, b"d", 5).unwrap();
    assert_eq!(fs.list_dir(d).unwrap().len(), 2);
    let mut inode = fs.read_inode(d).unwrap();
    inode.direct_slot_set(2, 9999);
    fs.write_inode(d, &inode).unwrap();
    // A listing ends with the first zone that is missing.
    assert_eq!(fs.list_dir(d).unwrap().len(), 2);
    inode.direct_slot_set(1, 9999);
    fs.write_inode(d, &inode).unwrap();
    assert_eq!(fs.list_dir(d).err(), Some("Failed to read directory data block"));
    assert!(fs.read_dir_entries(&inode).is_err());
}

#[test]
fn a_fresh_volume_has_its_root_and_grows() {
    let mut fs = volume();
    assert_eq!(fs.resolve_path(b"/").unwrap(), 1);
    assert_eq!(fs.resolve_path(b"/x").unwrap_err(), FsError::FileNotFound);
    assert_eq!(fs.read_inode(1).unwrap().size, 128);
    assert_eq!(fs.find_dir_entry(1, b"..").unwrap(), Some(1));
    let d = fs.create_dir(1, b"d", 5).unwrap();
    let e = fs.create_dir(d, b"e", 5).unwrap();
    let f = fs.create_file(e, b"f", 5).unwrap();
    assert_eq!(fs.read_inode(d).unwrap().size, 192);
    assert_eq!(fs.find_dir_entry(e, b".").unwrap(), Some(e));
    assert_eq!(fs.find_dir_entry(e, b"..").unwrap(), Some(d));
    assert_eq!(fs.resolve_path(b"/d/e/f").unwrap(), f);
    assert_eq!(fs.resolve_path(b"/d").unwrap(), d);
    let mut again = TwilightFs::check_virtio_blk(fs.device, 0x7E).unwrap();
    assert_eq!(again.resolve_path(b"/d/e/f").unwrap(), f);
}

#[test]
fn inodes_run_out() {
    let mut fs = volume();
    let one = fs.create_file(1, b"one", 5).unwrap();
    while fs.allocate_inode().is_ok() {}
    let before = all_blocks(&mut fs);
    assert!(fs.create_file(1, b"two", 5).is_err());
    assert!(fs.create_dir(1, b"two", 5).is_err());
    assert!(all_blocks(&mut fs) == before);
    fs.remove_entry(b"/one").unwrap();
    assert_eq!(fs.create_file(1, b"two", 5).unwrap(), one);
}

#[test]
fn the_same_call_on_the_same_volume_ends_the_same() {
    let run = || {
        let mut fs = volume();
        fs.create_dir(1, b"d", 5).unwrap();
        let f = fs.create_file(1, b"f", 5).unwrap();
        fs.write_file(f, &pattern(9000)).unwrap();
        let g = fs.create_file(0, b"g", 5);
        let moved = fs.rename_entry(b"/f", b"/d/f");
        let gone = fs.remove_entry(b"/d/none");
        (g, moved, gone, all_blocks(&mut fs))
    };
    let (a, b) = (run(), run());
    assert!(a == b);
    assert_eq!(a.1, Ok(()));
    assert!(a.0.is_err() && a.2.is_err());
}

#[test]
fn remembered_contents_are_those_of_the_file() {
    let mut fs = volume();
    let one = fs.create_file(1, b"one", 5).unwrap();
    let two = fs.create_file(1, b"two", 5).unwrap();
    fs.write_file(one, b"first").unwrap();
    fs.write_file(two, b"second").unwrap();
    for ino in [one, two] {
        let data = fs.read_file(ino).unwrap();
        fs.shared.insert_file_cache(ino, data);
    }
    fs.write_file(two, b"changed").unwrap();
    let mut buf = [0u8; 8];
    assert_eq!(fs.shared.read_cached_file_slice(one, 1, &mut buf), Some(4));
    assert_eq!(&buf[..4], b"irst");
    assert_eq!(fs.shared.read_cached_file_slice(two, 0, &mut buf), None);
    fs.rename_entry(b"/one", b"/three").unwrap();
    assert_eq!(fs.shared.read_cached_file_slice(one, 0, &mut buf), Some(5));
    assert_eq!(fs.read_file(one).unwrap(), b"first".to_vec());
    fs.remove_entry(b"/three").unwrap();
    assert_eq!(fs.shared.read_cached_file_slice(one, 0, &mut buf), None);
}

#[test]
fn a_volume_whose_parts_do_not_fit_is_opened() {
    let mut disk = RamDisk::new(vec![0u8; 64 * 512], 512);
    let record = encode_superblock(&Superblock { zones: 4, ..SB });
    write_range(&mut disk, 0, &record).unwrap();
    let mut fs = TwilightFs::check_virtio_blk(disk, 0x7E).unwrap();
    assert!(!fs.layout_fits());
    assert_eq!(fs.superblock.zones, 4);
    assert_eq!(fs.validate_root_inode(), Err("USB TwilightFS root inode is invalid"));
    fs.superblock.zmap_blocks = 1000;
    assert_eq!(fs.validate_root_inode(), Err("Failed to read USB TwilightFS root inode"));
    assert!(volume().layout_fits());
}

#[test]
fn blocks_of_none() {
    let mut disk = RamDisk::new(vec![7u8; 8 * 512], 512);
    let at = BlockOffset { bytes: 0 };
    assert_eq!(read_tfs_blocks(&mut disk, &at, 900, 0).unwrap(), Vec::<u8>::new());
    write_tfs_blocks(&mut disk, &at, 900, &[]).unwrap();
    assert!(read_tfs_blocks(&mut disk, &at, 2, 1).is_err());
    write_tfs_blocks(&mut disk, &at, 1, &[1u8; 2048]).unwrap();
    assert_eq!(read_tfs_blocks(&mut disk, &at, 1, 1).unwrap(), vec![1u8; 2048]);
}

#[test]
fn a_name_is_given_once() {
    let mut fs = volume();
    fs.create_file(1, b"x", 0).unwrap();
    assert!(fs.create_file(1, b"x", 0).is_err());
    assert!(fs.create_dir(1, b"x", 0).is_err());
    assert!(fs.create_file(1, &[b'n'; 100], 0).is_err());
    assert_eq!(fs.find_dir_entry(1, b"y").unwrap(), None);
}

#[test]
fn attributes() {
    let mut fs = volume();
    fs.touch(b"/", b"f", 0o644, 5).unwrap();
    fs.chmod(b"/f", 0o600, 9).unwrap();
    assert_eq!(fs.metadata(b"/f").unwrap().mode & 0o777, 0o600);
    assert_eq!(fs.chmod(b"/g", 0o600, 9).unwrap_err(), VfsError::NotFound);
    assert!(fs.get_attr(b"/g", 1).is_err());
    assert_eq!(IFLAG_ENCRYPTED, 1);
}

#[test]
fn a_volume_is_found_again() {
    let mut fs = volume();
    let ino = fs.create_file(1, b"keep", 5).unwrap();
    fs.write_file(ino, &pattern(5000)).unwrap();
    let mut again = TwilightFs::check_virtio_blk(fs.device, 0x7E).unwrap();
    assert_eq!(again.superblock, SB);
    again.validate_root_inode().unwrap();
    assert_eq!(again.resolve_path(b"/keep").unwrap(), ino);
    assert_eq!(again.read_file(ino).unwrap(), pattern(5000));
}

#[test]
fn what_is_no_volume_is_refused() {
    let blank = || RamDisk::new(vec![0u8; 64 * 512], 512);
    assert_eq!(
        TwilightFs::check_virtio_blk(blank(), 0x7E).err(),
        Some("Invalid Twilight FS superblock magic")
    );
    assert_eq!(
        TwilightFs::check_usb_blk(blank(), 0x7E).err(),
        Some("Invalid Twilight FS superblock magic on USB")
    );
    assert_eq!(
        TwilightFs::check_usb_blk(RamDisk::new(vec![], 512), 0x7E).err(),
        Some("USB block device not available")
    );
    assert_eq!(
        TwilightFs::<RamDisk>::check_ata(None, None, 0x7E).err(),
        Some("Failed to open ATA device")
    );
    assert_eq!(
        TwilightFs::check_ata(Some(RamDisk::new(vec![0u8; 512], 512)), None, 0x7E).err(),
        Some("Failed to read Twilight FS superblock")
    );
    assert_eq!(
        TwilightFs::check_ata(Some(blank()), Some(vec![0u8; 512]), 0x7E).err(),
        Some("Invalid Twilight FS superblock magic")
    );
    let too_large = TwilightFs::format_superblock(blank(), 0, SB);
    assert_eq!(too_large.err(), Some("Device too small"));
}

#[test]
fn a_usb_disk_is_given_a_partition() {
    let disk = RamDisk::new(vec![0u8; 6000 * 512], 512);
    let fs = TwilightFs::format_usb_blk(disk, 0x7E, SB, 1000).unwrap();
    assert_eq!(fs_block_offset_bytes(&fs.offset), 2048 * 512);
    let mut device = fs.device;
    let entry = usb_area(&mut device, 0x7E).unwrap();
    assert_eq!((entry.lba_start, entry.sectors), (2048, 6000 - 2048));
    let mut large_blocks = RamDisk::new(vec![0u8; 5000 * 1024], 1024);
    let entry = usb_area(&mut large_blocks, 0x7E).unwrap();
    assert_eq!((entry.lba_start, entry.sectors), (0, 5000));
    let mut again = TwilightFs::check_usb_blk(device, 0x7E).unwrap();
    assert_eq!(again.superblock, SB);
    assert_eq!(again.resolve_path(b"/").unwrap(), 1);
    let small = RamDisk::new(vec![0u8; 4096 * 512], 512);
    assert_eq!(
        TwilightFs::format_usb_blk(small, 0x7E, SB, 0).err(),
        Some("USB device too small")
    );
}

#[test]
fn a_superblock_alone_makes_no_root() {
    let disk = RamDisk::new(vec![0u8; 2400 * 512], 512);
    let fs = TwilightFs::format_superblock(disk, 0, SB).unwrap();
    let mut device = fs.device;
    let sb = read_superblock(&mut device, &BlockOffset { bytes: 0 }).unwrap();
    assert_eq!(sb, SB);
    assert_eq!(
        TwilightFs::check_usb_blk(device, 0x7E).err(),
        Some("USB TwilightFS root inode is invalid")
    );
}

#[test]
fn space_runs_out_and_comes_back() {
    let mut fs = volume();
    let before = fs.stats().unwrap();
    let mut zones = Vec::new();
    loop {
        match fs.allocate_zone() {
            Ok(z) => zones.push(z),
            Err(e) => {
                assert_eq!(e, TfsError::NoSpaceLeft);
                break;
            }
        }
    }
    assert_eq!(zones.len() as u64, before.blocks_free);
    assert_eq!(fs.allocate_zones(1).unwrap_err(), TfsError::NoSpaceLeft);
    let mut sorted = zones.clone();
    sorted.sort();
    sorted.dedup();
    assert_eq!(sorted.len(), zones.len());
    for z in &zones {
        fs.dealloc_zone(*z).unwrap();
    }
    assert_eq!(fs.stats().unwrap().blocks_free, before.blocks_free);
    let i = fs.allocate_inode().unwrap();
    // The place of an inode is given out; its number, one more, is given back.
    fs.dealloc_inode(i + 1).unwrap();
    assert_eq!(fs.allocate_inode().unwrap(), i);
    assert_eq!(fs.dealloc_inode(0).unwrap_err(), TfsError::InvalidInode);
    assert_eq!(fs.dealloc_zone(4).unwrap_err(), TfsError::InvalidZone);
}

#[test]
fn records_of_the_disk() {
    let mut inode = Inode::new_file(77, 0o640);
    inode.direct_slot_set(3, 4242);
    assert_eq!(inode.direct_slot_get(3), 4242);
    let bytes = encode_inode(&inode);
    assert_eq!(bytes.len(), 128);
    let back = decode_inode(&bytes);
    assert_eq!(encode_inode(&back), bytes);
    assert_eq!(back.direct_slot_get(3), 4242);
    assert!(!back.is_dir());
    assert!(Inode::new_dir(1, 0o755).is_dir());
    let sb = encode_superblock(&SB);
    assert_eq!(decode_superblock(&sb), Some(SB));
    assert_eq!(decode_superblock(&vec![0u8; 2048]), None);
    assert!(layout_valid(&SB));
    assert!(!layout_valid(&Superblock { zones: 4, ..SB }));
}

#[test]
fn bits_of_a_block() {
    let mut block = vec![0xFFu8; 2048];
    assert_eq!(find_clear(&block, 0, 16384), None);
    block[3] = put_bit(0xFF, 5, false);
    assert!(!test_bit(block[3], 5));
    assert_eq!(find_clear(&block, 0, 16384), Some(29));
    assert_eq!(find_clear(&block, 30, 16384), None);
    assert_eq!(count_clear(&block, 16384), 1);
    assert_eq!(count_clear(&block, 29), 0);
}

#[test]
fn where_a_volume_starts() {
    let mut at = BlockOffset { bytes: 0 };
    set_fs_block_offset_lba(&mut at, 2048);
    assert_eq!(fs_block_offset_bytes(&at), 2048 * 512);
    assert_eq!(fs_block_offset_sectors(&at), 2048);
    set_fs_block_offset_bytes(&mut at, 1024);
    assert_eq!(fs_block_offset_sectors(&at), 2);
    assert_eq!(to_u32_saturating(5), 5);
    assert_eq!(to_u32_saturating(1 << 40), u32::MAX);
}

#[test]
fn roots_that_cannot_be_made() {
    let device = || RamDisk::new(vec![0u8; 2400 * 512], 512);
    let huge = Superblock { zones: 601, ..SB };
    assert_eq!(TwilightFs::format(device(), 0, huge, 0).err(), Some("Device too small"));
    let no_inodes = Superblock { ninodes: 0, ..SB };
    assert_eq!(
        TwilightFs::format(device(), 0, no_inodes, 0).err(),
        Some("Failed to allocate USB TwilightFS root inode")
    );
    let no_zones = Superblock { zones: 5, ..SB };
    assert_eq!(
        TwilightFs::format(device(), 0, no_zones, 0).err(),
        Some("Failed to allocate USB TwilightFS root directory zone")
    );
    let mut fs = volume();
    assert_eq!(fs.initialize_root_inode(0), Err("Unexpected USB TwilightFS root inode number"));
}
