use twilight_kernel::block::{read_range, write_range, RamDisk};
use twilight_kernel::bytes::{find, read_u32, rfind, same, split, starts_with, to_upper};
use twilight_kernel::disk::{
    disk_geometry, disk_size_bytes, Cdrom0, Disk0, IoctlReply, BLKGETSIZE, BLKGETSIZE64, BLKSSZGET,
};
use twilight_kernel::memfd::MemFd;
use twilight_kernel::partition::{
    decode_entries, encode_single, find_in_sector, has_signature, PartitionEntry,
};
use twilight_kernel::vfs::{read_exact_step, FileType, Metadata, Vfs, VfsError};

#[test]
fn bytes_of_a_device() {
    let mut d = RamDisk::new(vec![0u8; 2048], 512);
    write_range(&mut d, 500, b"across the border of two").unwrap();
    assert_eq!(read_range(&mut d, 500, 24).unwrap(), b"across the border of two".to_vec());
    assert_eq!(&d.contents()[510..514], b" bor");
    assert!(read_range(&mut d, 2040, 9).is_err());
    assert!(read_range(&mut d, 2040, 8).is_ok());
}

#[test]
fn texts() {
    assert_eq!(read_u32(&[0, 1, 2, 3, 4], 1), 0x0403_0201);
    assert_eq!(find(b"abc", b'c'), 2);
    assert_eq!(find(b"abc", b'x'), 3);
    assert_eq!(rfind(b"a/b/c", b'/'), Some(3));
    assert_eq!(split(b"a//b", b'/'), vec![b"a".to_vec(), vec![], b"b".to_vec()]);
    assert_eq!(to_upper(b"aZ1\xE9"), b"AZ1\xE9".to_vec());
    assert!(starts_with(b"#!x", b"#!"));
    assert!(!same(b"a", b"b"));
}

#[test]
fn disks_as_files() {
    let mut none: Option<RamDisk> = None;
    let mut some = Some(RamDisk::new((0..2048).map(|i| i as u8).collect(), 512));
    assert_eq!(disk_geometry(&none), None);
    assert_eq!(disk_geometry(&some), Some((512, 4)));
    assert_eq!(disk_size_bytes(&some), Some(2048));
    let mut buf = [0u8; 6];
    assert!(Disk0.read(&mut none, 0, &mut buf).is_err());
    assert_eq!(Disk0.read(&mut some, 2044, &mut buf), Ok(4));
    assert_eq!(&buf[..4], &[252, 253, 254, 255]);
    assert_eq!(Disk0.read(&mut some, 2048, &mut buf), Ok(0));
    assert!(Disk0.write(&mut some, 510, b"abcd").is_ok());
    assert_eq!(&some.as_ref().unwrap().contents()[509..515], &[253, b'a', b'b', b'c', b'd', 2]);
    assert!(matches!(Disk0.ioctl(&some, BLKSSZGET, 1), IoctlReply::Int32(512)));
    assert!(matches!(Disk0.ioctl(&some, BLKGETSIZE64, 1), IoctlReply::Int64(2048)));
    assert!(matches!(Disk0.ioctl(&some, BLKGETSIZE, 1), IoctlReply::Int64(4)));
    assert!(Cdrom0.write(0, b"x").is_err());
}

#[test]
fn files_in_memory() {
    let mut free = 10usize;
    let mut f = MemFd::new(b"shm".to_vec());
    assert_eq!(f.debug_name(), &b"shm".to_vec());
    assert_eq!(f.len(), 0);
    assert_eq!(f.write_at(5000, b"tail", &mut free), Ok(4));
    assert_eq!(f.len(), 5004);
    assert_eq!(free, 8);
    let mut out = [9u8; 10];
    assert_eq!(f.read_at(4998, &mut out), Ok(6));
    assert_eq!(&out, b"\0\0tail\x09\x09\x09\x09");
    assert_eq!(f.read_at(9999, &mut out), Ok(0));
    f.truncate(5002, &mut free).unwrap();
    f.truncate(6000, &mut free).unwrap();
    assert_eq!(f.read_at(5000, &mut out[..4]), Ok(4));
    assert_eq!(&out[..4], b"ta\0\0");
    f.truncate(1, &mut free).unwrap();
    assert_eq!(free, 9);
    assert!(f.write_at(usize::MAX, b"x", &mut free).is_err());
    assert!(f.truncate(4096 * 20, &mut free).is_err());
}

#[test]
fn the_partition_table() {
    let e = PartitionEntry::new(0, 0x7E, 2048, 4000);
    let sector = encode_single(e);
    assert_eq!(sector.len(), 512);
    assert!(has_signature(&sector));
    assert_eq!(decode_entries(&sector)[0], e);
    assert_eq!(find_in_sector(&sector, 0x7E), Some(e));
    assert_eq!(find_in_sector(&sector, 0x83), None);
    assert!(!has_signature(&[0u8; 512]));
}

#[test]
fn paths_go_to_the_longest_mount() {
    let mut v = Vfs::new();
    v.mount(b"/", 0, "twilightfs", "/dev/sda");
    v.mount(b"/mnt/usb", 1, "twilightfs", "/dev/usb0");
    v.mount(b"/dev", 2, "devfs", "devfs");
    assert_eq!(v.route(b"/mnt/usb/a").unwrap(), (b"/a".to_vec(), 1));
    assert_eq!(v.route(b"/dev").unwrap(), (b"/".to_vec(), 2));
    assert_eq!(v.route(b"/mnt/x").unwrap().1, 0);
    assert!(v.is_mounted(b"/dev"));
    assert_eq!(v.rename(b"/dev/a", b"/b"), Err(()));
    assert_eq!(v.rename(b"/dev/a", b"/dev/b").unwrap().2, 2);
    assert_eq!(v.open(b"/mnt/usb").unwrap(), (b"/".to_vec(), 1));
    assert_eq!(v.mkdir(b"/mnt/usb/d").unwrap(), (b"/d".to_vec(), 1));
    assert_eq!(v.stats(b"/dev/tty").unwrap(), 2);
    assert!(v.unmount(b"/dev"));
    assert!(!v.unmount(b"/dev"));
    assert_eq!(v.route(b"/dev").unwrap().1, 0);
}

#[test]
fn nothing_is_found_where_nothing_is_mounted() {
    let v = Vfs::new();
    assert_eq!(v.open(b"/a"), Err(()));
    assert_eq!(v.rmdir(b"/a"), Err(()));
    assert_eq!(v.ls(b"/a"), Err(()));
    assert_eq!(v.rm(b"/a"), Err(()));
    assert_eq!(v.touch(b"/a"), Err(()));
    assert_eq!(v.metadata(b"/a"), Err(()));
    assert_eq!(v.set_attr(b"/a"), Err(()));
    assert_eq!(v.get_attr(b"/a"), Err(()));
    assert_eq!(v.stats(b"/a"), Err(()));
    assert_eq!(v.chmod(b"/a"), Err(VfsError::NotFound));
}

#[test]
fn records_of_files() {
    assert_eq!(Metadata::dir(3, b"d").file_type, FileType::Dir);
    assert_eq!(Metadata::chr(3, b"c").file_type, FileType::CharDevice);
    assert_eq!(Metadata::blk(3, b"b", 512).size, 512);
    assert_eq!(read_exact_step(10, 5, 0), Err(()));
    assert_eq!(read_exact_step(10, 5, 5), Ok(None));
    assert_eq!(read_exact_step(10, 5, 2), Ok(Some((12, 3))));
}
