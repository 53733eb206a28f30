use twilight_kernel::block::RamDisk;
use twilight_kernel::iso9660::{
    boxed_device, normalize_component, parse_record, read_exact_at, IsoEntry, IsoNode,
};

#[test]
fn normalizes_iso_versions() {
    assert_eq!(normalize_component(b"SYSTEM.TFS;1"), b"SYSTEM.TFS".to_vec());
    assert_eq!(normalize_component(b"README.;1"), b"README".to_vec());
}

#[test]
fn rejects_short_directory_record() {
    assert!(parse_record(&[0; 20]).is_none());
}

#[test]
fn reads_unaligned_ranges_across_device_blocks() {
    let bytes: Vec<u8> = (0..1536).map(|value| value as u8).collect();
    let mut device = boxed_device(RamDisk::new(bytes, 512));
    let mut out = [0u8; 700];
    read_exact_at(&mut *device, 400, &mut out).unwrap();
    for (index, byte) in out.iter().enumerate() {
        assert_eq!(*byte, (400 + index) as u8);
    }
}

#[test]
fn files_end() {
    let bytes: Vec<u8> = (0..4096u32).map(|value| value as u8).collect();
    let mut disk = RamDisk::new(bytes, 512);
    let entry = IsoEntry { name: b"A".to_vec(), extent: 1, size: 10, flags: 0 };
    let file = IsoNode { entry };
    let mut out = [7u8; 4];
    assert_eq!(file.read(&mut disk, 8, &mut out), Ok(2));
    assert_eq!(out, [8, 9, 7, 7]);
    assert_eq!(file.read(&mut disk, 10, &mut out), Ok(0));
    assert_eq!(out, [8, 9, 7, 7]);
    let dir = IsoNode { entry: IsoEntry { name: b"D".to_vec(), extent: 1, size: 10, flags: 2 } };
    assert_eq!(dir.read(&mut disk, 0, &mut out), Err(()));
}
