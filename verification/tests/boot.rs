use twilight_kernel::acpi::{with_tables, Dsdt, PowerControl};
use twilight_kernel::fs::{
    init, mount_pseudo_filesystems, next_source, place_path, try_init_usb_storage, try_mount_boot,
    Boot, BootChoice, FsKind, Place, Shared, Source, Step, Task, Told, UsbPlan, VfsError, FS_PADDING,
    KERNEL_PADDING,
};
use twilight_kernel::kmsg::KmsgDev;
use twilight_kernel::vfs::Vfs;

#[test]
fn places_have_paths() {
    assert_eq!(place_path(Place::Root), b"/".to_vec());
    assert_eq!(place_path(Place::Dev), b"/dev".to_vec());
    assert_eq!(place_path(Place::Proc), b"/proc".to_vec());
    assert_eq!(place_path(Place::Usb), b"/mnt/usb".to_vec());
    assert_eq!(place_path(Place::Boot), b"/boot".to_vec());
    assert_eq!(place_path(Place::Install), b"/media/install".to_vec());
    assert_eq!(place_path(Place::Run), b"/run".to_vec());
    assert_eq!(place_path(Place::Tmp), b"/tmp".to_vec());
    assert_eq!(place_path(Place::Home), b"/home".to_vec());
    assert_eq!(place_path(Place::VarLog), b"/var/log".to_vec());
}

#[test]
fn sources_in_their_order() {
    let order: Vec<Source> = (0..9).map(|k| next_source(k, true)).collect();
    assert_eq!(
        order,
        vec![
            Source::Ata { bus: 0, dsk: 0 },
            Source::Ata { bus: 0, dsk: 1 },
            Source::Ata { bus: 1, dsk: 0 },
            Source::Ata { bus: 1, dsk: 1 },
            Source::Virtio,
            Source::BootImage,
            Source::OpticalImage,
            Source::UsbImage,
            Source::Nowhere,
        ]
    );
    assert_eq!(next_source(7, false), Source::Nowhere);
}

#[test]
fn a_disk_with_the_system() {
    let s = init(Source::Ata { bus: 1, dsk: 0 }, Shared::Done);
    assert_eq!(
        s,
        vec![
            Step::Mount { at: Place::Root, what: FsKind::SystemDisk },
            Step::Mount { at: Place::Dev, what: FsKind::Devices },
            Step::Mount { at: Place::Proc, what: FsKind::Processes },
            Step::UsbStorage,
            Step::BootPartition { bus: 1, dsk: 0 },
        ]
    );
    assert!(init(Source::Ata { bus: 1, dsk: 0 }, Shared::Already).is_empty());
    assert!(init(Source::Virtio, Shared::Failed).is_empty());
    assert_eq!(init(Source::Virtio, Shared::Already)[0], Step::Unmount { at: Place::Root });
}

#[test]
fn a_live_system() {
    let s = init(Source::OpticalImage, Shared::Done);
    assert_eq!(s[0], Step::Mount { at: Place::Root, what: FsKind::LiveSystem });
    assert_eq!(s[1], Step::Mount { at: Place::Install, what: FsKind::InstallMedia });
    assert_eq!(s.len(), 8);
    assert_eq!(init(Source::BootImage, Shared::Done).len(), 7);
    assert_eq!(mount_pseudo_filesystems(true).len(), 6);
    assert_eq!(mount_pseudo_filesystems(false).len(), 2);
}

#[test]
fn no_system_at_all() {
    let s = init(Source::Nowhere, Shared::Done);
    assert_eq!(*s.last().unwrap(), Step::Mount { at: Place::Root, what: FsKind::InitialRam });
}

#[test]
fn the_way_to_a_disk_with_the_system() {
    let mut boot = Boot::new();
    for _ in 0..16 {
        assert_eq!(boot.next(Told::Done, false), Task::PollUsb);
    }
    let at = Source::Ata { bus: 0, dsk: 0 };
    assert_eq!(
        boot.next(Told::Done, false),
        Task::Perform(Step::BootPartition { bus: 0, dsk: 0 })
    );
    assert_eq!(boot.next(Told::Done, false), Task::Look(at));
    assert_eq!(
        boot.next(Told::Looked(false), false),
        Task::Perform(Step::BootPartition { bus: 0, dsk: 1 })
    );
    let at = Source::Ata { bus: 0, dsk: 1 };
    assert_eq!(boot.next(Told::Done, false), Task::Look(at));
    assert_eq!(boot.next(Told::Looked(true), false), Task::Share);
    let mut told = Told::Shared(Shared::Done);
    for step in init(at, Shared::Done) {
        assert_eq!(boot.next(told, false), Task::Perform(step));
        told = Told::Done;
    }
    assert_eq!(boot.next(told, false), Task::Finish);
    assert_eq!(boot.next(told, false), Task::Finish);
}

#[test]
fn the_way_to_an_image_and_to_nothing() {
    let mut boot = Boot::Searching(4);
    assert_eq!(boot.next(Told::Looked(false), true), Task::Look(Source::BootImage));
    assert_eq!(boot.next(Told::Looked(false), true), Task::Look(Source::OpticalImage));
    assert_eq!(boot.next(Told::Looked(false), true), Task::Look(Source::UsbImage));
    let mut other = boot;
    assert_eq!(
        boot.next(Told::Looked(true), true),
        Task::Perform(Step::Mount { at: Place::Root, what: FsKind::LiveSystem })
    );
    assert_eq!(
        other.next(Told::Looked(false), true),
        Task::Perform(Step::Mount { at: Place::Dev, what: FsKind::Devices })
    );
    let mut virtio = Boot::Sharing(Source::Virtio);
    assert_eq!(virtio.next(Told::Shared(Shared::Failed), false), Task::Finish);
    let mut early = Boot::new();
    assert_eq!(
        early.next(Told::Done, true),
        Task::Perform(Step::BootPartition { bus: 0, dsk: 0 })
    );
}

#[test]
fn boot_partitions() {
    let mut vfs = Vfs::new();
    assert_eq!(try_mount_boot(&vfs, Some(true), Some(true)), BootChoice::Mount(FsKind::Fat32));
    assert_eq!(try_mount_boot(&vfs, Some(false), Some(true)), BootChoice::Mount(FsKind::Fat16));
    assert_eq!(try_mount_boot(&vfs, None, Some(false)), BootChoice::Absent);
    vfs.mount(b"/boot", 1, "fat32", "/dev/sda1");
    assert_eq!(try_mount_boot(&vfs, Some(true), None), BootChoice::Already);
}

#[test]
fn usb_disks_are_mounted_once() {
    let mut vfs = Vfs::new();
    assert_eq!(
        try_init_usb_storage(&vfs, false, false),
        UsbPlan { make_mnt: true, make_usb: true, mount: true }
    );
    assert_eq!(
        try_init_usb_storage(&vfs, true, false),
        UsbPlan { make_mnt: false, make_usb: true, mount: true }
    );
    vfs.mount(b"/mnt/usb", 1, "twilightfs", "/dev/usb0");
    assert_eq!(
        try_init_usb_storage(&vfs, false, false),
        UsbPlan { make_mnt: false, make_usb: false, mount: false }
    );
}

#[test]
fn sizes_and_errors() {
    assert_eq!(KERNEL_PADDING, 4 * 1024 * 1024);
    assert_eq!(FS_PADDING, 2097152);
    assert_ne!(VfsError::NotFound, VfsError::IoError);
}

#[test]
fn power_control_from_the_tables() {
    let mut p = PowerControl::new();
    p.setup_power_control(Some(0x1_0000_0604), Dsdt::Parsed(Some(0x1_2000)));
    assert_eq!(p.shutdown(), (0x604, 0x2000));
    p.setup_power_control(None, Dsdt::Unparsed);
    assert_eq!(p.shutdown(), (0x604, (5 & 7) << 10));
    p.setup_power_control(None, Dsdt::Parsed(None));
    p.setup_power_control(Some(0x404), Dsdt::Missing);
    assert_eq!(p.shutdown(), (0x404, 5120));
    let mut q = PowerControl::new();
    q.setup_power_control(None, Dsdt::Unmapped);
    assert_eq!(q.shutdown(), (0, 5120));
}

#[test]
fn tables_are_lent_out() {
    assert_eq!(with_tables(&Some(20), |t: &i32| *t + 1), Some(21));
    assert_eq!(with_tables(&None, |t: &i32| *t + 1), None);
}

#[test]
fn the_message_device() {
    let mut d = KmsgDev;
    assert_eq!(d.poll(), Ok(true));
    assert_eq!(d.ioctl(5, 5, 77), Ok(77));
    assert_eq!(d.ioctl(6, 5, 77), Ok(0));
    assert_eq!(d.unlink(), Ok(-1));
}
