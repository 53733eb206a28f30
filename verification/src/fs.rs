//! Which file systems are mounted when the machine starts.

use crate::vfs::Vfs;
use vstd::prelude::*;

verus! {

/// Bytes of a disk that are left for the kernel.
pub const KERNEL_PADDING: usize = 0x40_0000;

/// Bytes of a disk that lie before the file system.
pub const FS_PADDING: usize = 0x20_0000;

/// Why a file operation failed.
#[derive(Debug, Clone, Copy, PartialEq, Eq, Structural)]
pub enum VfsError {
    NotFound,
    PermissionDenied,
    InvalidOperation,
    IoError,
}

/// Where file systems are mounted.
#[derive(Debug, Clone, Copy, PartialEq, Eq, Structural)]
pub enum Place {
    Root,
    Dev,
    Proc,
    Usb,
    Boot,
    Install,
    Run,
    Tmp,
    Home,
    VarLog,
}

/// The path of a place.
pub open spec fn path_of(at: Place) -> Seq<u8> {
    match at {
        Place::Root => seq![47u8],
        Place::Dev => seq![47u8, 100, 101, 118],
        Place::Proc => seq![47u8, 112, 114, 111, 99],
        Place::Usb => seq![47u8, 109, 110, 116, 47, 117, 115, 98],
        Place::Boot => seq![47u8, 98, 111, 111, 116],
        Place::Install => seq![
            47u8, 109, 101, 100, 105, 97, 47, 105, 110, 115, 116, 97, 108, 108,
        ],
        Place::Run => seq![47u8, 114, 117, 110],
        Place::Tmp => seq![47u8, 116, 109, 112],
        Place::Home => seq![47u8, 104, 111, 109, 101],
        Place::VarLog => seq![47u8, 118, 97, 114, 47, 108, 111, 103],
    }
}

/// The path of a place, such as `/dev` or `/var/log`.
pub fn place_path(at: Place) -> (r: Vec<u8>)
    ensures
        r@ == path_of(at),
{
    let p: Vec<u8> = match at {
        Place::Root => vec![47u8],
        Place::Dev => vec![47u8, 100, 101, 118],
        Place::Proc => vec![47u8, 112, 114, 111, 99],
        Place::Usb => vec![47u8, 109, 110, 116, 47, 117, 115, 98],
        Place::Boot => vec![47u8, 98, 111, 111, 116],
        Place::Install => vec![
            47u8, 109, 101, 100, 105, 97, 47, 105, 110, 115, 116, 97, 108, 108,
        ],
        Place::Run => vec![47u8, 114, 117, 110],
        Place::Tmp => vec![47u8, 116, 109, 112],
        Place::Home => vec![47u8, 104, 111, 109, 101],
        Place::VarLog => vec![47u8, 118, 97, 114, 47, 108, 111, 103],
    };
    proof {
        assert(p@ =~= path_of(at));
    }
    p
}

/// What is mounted.
#[derive(Debug, Clone, Copy, PartialEq, Eq, Structural)]
pub enum FsKind {
    /// The system disk, through what all share.
    SystemDisk,
    /// The devices.
    Devices,
    /// The processes.
    Processes,
    /// The image of a system that is not to be changed.
    LiveSystem,
    /// The medium that the image came from.
    InstallMedia,
    /// The files that came with the kernel.
    InitialRam,
    /// Memory that is empty at first.
    EmptyRam,
    Fat32,
    Fat16,
}

/// A step on the way to a running system.
#[derive(Debug, Clone, Copy, PartialEq, Eq, Structural)]
pub enum Step {
    Mount { at: Place, what: FsKind },
    Unmount { at: Place },
    /// Look for a file system on a USB disk.
    UsbStorage,
    /// Look for a boot partition on a disk.
    BootPartition { bus: u8, dsk: u8 },
}

/// Where the system may be.
#[derive(Debug, Clone, Copy, PartialEq, Eq, Structural)]
pub enum Source {
    Ata { bus: u8, dsk: u8 },
    Virtio,
    /// The image on the boot partition.
    BootImage,
    /// The image on an optical disk.
    OpticalImage,
    /// The image on a USB disk.
    UsbImage,
    /// Nowhere: the files that came with the kernel must do.
    Nowhere,
}

/// Where to look after `tried` places did not have the system.
pub open spec fn source_order(tried: int, usb_ready: bool) -> Source {
    if 0 <= tried < 4 {
        Source::Ata { bus: (tried / 2) as u8, dsk: (tried % 2) as u8 }
    } else if tried == 4 {
        Source::Virtio
    } else if tried == 5 {
        Source::BootImage
    } else if tried == 6 {
        Source::OpticalImage
    } else if tried == 7 && usb_ready {
        Source::UsbImage
    } else {
        Source::Nowhere
    }
}

pub fn next_source(tried: usize, usb_ready: bool) -> (r: Source)
    ensures
        r == source_order(tried as int, usb_ready),
{
    if tried < 4 {
        Source::Ata { bus: (tried / 2) as u8, dsk: (tried % 2) as u8 }
    } else if tried == 4 {
        Source::Virtio
    } else if tried == 5 {
        Source::BootImage
    } else if tried == 6 {
        Source::OpticalImage
    } else if tried == 7 && usb_ready {
        Source::UsbImage
    } else {
        Source::Nowhere
    }
}

/// Whether a system disk could be made the one that all share.
#[derive(Debug, Clone, Copy, PartialEq, Eq, Structural)]
pub enum Shared {
    Done,
    /// There is one already.
    Already,
    Failed,
}

/// The devices and the processes; a system that is not to be changed gets memory for
/// what programs write.
pub open spec fn pseudo_steps(live: bool) -> Seq<Step> {
    let base = seq![
        Step::Mount { at: Place::Dev, what: FsKind::Devices },
        Step::Mount { at: Place::Proc, what: FsKind::Processes },
    ];
    if live {
        base + seq![
            Step::Mount { at: Place::Run, what: FsKind::EmptyRam },
            Step::Mount { at: Place::Tmp, what: FsKind::EmptyRam },
            Step::Mount { at: Place::Home, what: FsKind::EmptyRam },
            Step::Mount { at: Place::VarLog, what: FsKind::EmptyRam },
        ]
    } else {
        base
    }
}

pub fn mount_pseudo_filesystems(live: bool) -> (r: Vec<Step>)
    ensures
        r@ == pseudo_steps(live),
{
    let mut s: Vec<Step> = Vec::new();
    s.push(Step::Mount { at: Place::Dev, what: FsKind::Devices });
    s.push(Step::Mount { at: Place::Proc, what: FsKind::Processes });
    if live {
        s.push(Step::Mount { at: Place::Run, what: FsKind::EmptyRam });
        s.push(Step::Mount { at: Place::Tmp, what: FsKind::EmptyRam });
        s.push(Step::Mount { at: Place::Home, what: FsKind::EmptyRam });
        s.push(Step::Mount { at: Place::VarLog, what: FsKind::EmptyRam });
    }
    proof {
        assert(s@ =~= pseudo_steps(live));
    }
    s
}

/// The steps once the system was found.
pub open spec fn steps_for(source: Source, shared: Shared) -> Seq<Step> {
    match source {
        Source::Ata { bus, dsk } => if shared != Shared::Done {
            Seq::empty()
        } else {
            seq![Step::Mount { at: Place::Root, what: FsKind::SystemDisk }] + pseudo_steps(false)
                + seq![Step::UsbStorage, Step::BootPartition { bus, dsk }]
        },
        Source::Virtio => if shared == Shared::Failed {
            Seq::empty()
        } else {
            seq![
                Step::Unmount { at: Place::Root },
                Step::Mount { at: Place::Root, what: FsKind::SystemDisk },
            ] + pseudo_steps(false) + seq![Step::UsbStorage]
        },
        Source::BootImage => seq![Step::Mount { at: Place::Root, what: FsKind::LiveSystem }]
            + pseudo_steps(true),
        Source::OpticalImage | Source::UsbImage => seq![
            Step::Mount { at: Place::Root, what: FsKind::LiveSystem },
            Step::Mount { at: Place::Install, what: FsKind::InstallMedia },
        ] + pseudo_steps(true),
        Source::Nowhere => pseudo_steps(false) + seq![
            Step::UsbStorage,
            Step::Mount { at: Place::Root, what: FsKind::InitialRam },
        ],
    }
}

fn append(out: &mut Vec<Step>, more: &Vec<Step>)
    ensures
        final(out)@ == old(out)@ + more@,
{
    let ghost o = out@;
    let mut i: usize = 0;
    proof {
        assert(o + more@.take(0) =~= o);
    }
    while i < more.len()
        invariant
            i <= more@.len(),
            out@ == o + more@.take(i as int),
        decreases more@.len() - i,
    {
        out.push(more[i]);
        proof {
            assert(out@ =~= o + more@.take(i + 1));
        }
        i = i + 1;
    }
    proof {
        assert(more@.take(i as int) =~= more@);
    }
}

/// What is to be done once it is known where the system is.
pub fn init(source: Source, shared: Shared) -> (r: Vec<Step>)
    ensures
        r@ == steps_for(source, shared),
{
    let mut s: Vec<Step> = Vec::new();
    match source {
        Source::Ata { bus, dsk } => {
            if shared == Shared::Done {
                s.push(Step::Mount { at: Place::Root, what: FsKind::SystemDisk });
                append(&mut s, &mount_pseudo_filesystems(false));
                s.push(Step::UsbStorage);
                s.push(Step::BootPartition { bus, dsk });
            }
        },
        Source::Virtio => {
            if shared != Shared::Failed {
                s.push(Step::Unmount { at: Place::Root });
                s.push(Step::Mount { at: Place::Root, what: FsKind::SystemDisk });
                append(&mut s, &mount_pseudo_filesystems(false));
                s.push(Step::UsbStorage);
            }
        },
        Source::BootImage => {
            s.push(Step::Mount { at: Place::Root, what: FsKind::LiveSystem });
            append(&mut s, &mount_pseudo_filesystems(true));
        },
        Source::OpticalImage | Source::UsbImage => {
            s.push(Step::Mount { at: Place::Root, what: FsKind::LiveSystem });
            s.push(Step::Mount { at: Place::Install, what: FsKind::InstallMedia });
            append(&mut s, &mount_pseudo_filesystems(true));
        },
        Source::Nowhere => {
            append(&mut s, &mount_pseudo_filesystems(false));
            s.push(Step::UsbStorage);
            s.push(Step::Mount { at: Place::Root, what: FsKind::InitialRam });
        },
    }
    proof {
        assert(s@ =~= steps_for(source, shared));
    }
    s
}

/// Whether some step mounts something at a place.
pub open spec fn mounts_at(s: Seq<Step>, at: Place) -> bool {
    exists|i: int| 0 <= i < s.len() && is_mount_at(#[trigger] s[i], at)
}

pub open spec fn is_mount_at(s: Step, at: Place) -> bool {
    s matches Step::Mount { at: p, .. } && p == at
}

/// Wherever the system is, in the end there is a root, and with it the devices and the
/// processes.
pub proof fn lemma_root_mounted(source: Source)
    ensures
        mounts_at(steps_for(source, Shared::Done), Place::Root),
        mounts_at(steps_for(source, Shared::Done), Place::Dev),
        mounts_at(steps_for(source, Shared::Done), Place::Proc),
{
    let s = steps_for(source, Shared::Done);
    let root = match source {
        Source::Virtio => 1int,
        Source::Nowhere => 3int,
        _ => 0int,
    };
    let dev = match source {
        Source::Ata { .. } | Source::BootImage => 1int,
        Source::Virtio | Source::OpticalImage | Source::UsbImage => 2int,
        Source::Nowhere => 0int,
    };
    assert(is_mount_at(s[root], Place::Root));
    assert(is_mount_at(s[dev], Place::Dev));
    assert(is_mount_at(s[dev + 1], Place::Proc));
}

/// How often the USB drivers are let run, at most, until there is a USB disk.
pub const USB_POLLS: usize = 16;

/// What is done next on the way to a running system.
#[derive(Debug, Clone, Copy, PartialEq, Eq, Structural)]
pub enum Task {
    /// Let the USB drivers run once.
    PollUsb,
    /// Look whether the system is there, and say so.
    Look(Source),
    /// Make the system disk the one that all share, and say whether that worked.
    Share,
    Perform(Step),
    Finish,
}

/// What came of a task.
#[derive(Debug, Clone, Copy, PartialEq, Eq, Structural)]
pub enum Told {
    Done,
    Looked(bool),
    Shared(Shared),
}

/// How far the way to a running system is.
#[derive(Debug, Clone, Copy, PartialEq, Eq, Structural)]
pub enum Boot {
    /// The USB drivers ran so often.
    Waiting(usize),
    /// The boot partition was looked for, where the next source is a disk.
    Ready(usize),
    /// It is asked whether the system is at this source.
    Searching(usize),
    /// The system disk is being shared.
    Sharing(Source),
    /// So many steps were done.
    Acting(Source, Shared, usize),
}

/// The step after `done` others, if one is left.
pub open spec fn acting(source: Source, shared: Shared, done: int) -> (Task, Boot) {
    if 0 <= done < steps_for(source, shared).len() {
        (
            Task::Perform(steps_for(source, shared)[done]),
            Boot::Acting(source, shared, (done + 1) as usize),
        )
    } else {
        (Task::Finish, Boot::Acting(source, shared, done as usize))
    }
}

/// The search after `tried` places did not have the system. Before a disk is looked at its
/// boot partition is.
pub open spec fn searching(tried: int, usb_ready: bool) -> (Task, Boot) {
    match source_order(tried, usb_ready) {
        Source::Nowhere => acting(Source::Nowhere, Shared::Done, 0),
        Source::Ata { bus, dsk } => (
            Task::Perform(Step::BootPartition { bus, dsk }),
            Boot::Ready(tried as usize),
        ),
        source => (Task::Look(source), Boot::Searching(tried as usize)),
    }
}

/// What follows: first there is a wait for a USB disk, then the search, then what is to be
/// done for the place where the system is.
pub open spec fn booting(b: Boot, told: Told, usb_ready: bool) -> (Task, Boot) {
    match b {
        Boot::Waiting(polls) => if usb_ready || polls >= USB_POLLS {
            searching(0, usb_ready)
        } else {
            (Task::PollUsb, Boot::Waiting((polls + 1) as usize))
        },
        Boot::Ready(tried) => (
            Task::Look(source_order(tried as int, usb_ready)),
            Boot::Searching(tried),
        ),
        Boot::Searching(tried) => if told == Told::Looked(true) {
            match source_order(tried as int, usb_ready) {
                Source::Ata { bus, dsk } => (Task::Share, Boot::Sharing(Source::Ata { bus, dsk })),
                Source::Virtio => (Task::Share, Boot::Sharing(Source::Virtio)),
                source => acting(source, Shared::Done, 0),
            }
        } else {
            searching(tried + 1, usb_ready)
        },
        Boot::Sharing(source) => match told {
            Told::Shared(shared) => acting(source, shared, 0),
            _ => acting(source, Shared::Failed, 0),
        },
        Boot::Acting(source, shared, done) => acting(source, shared, done as int),
    }
}

impl Boot {
    /// Whether this can be reached.
    pub open spec fn wf(self) -> bool {
        match self {
            Boot::Waiting(polls) => polls <= USB_POLLS,
            Boot::Ready(tried) => tried < 4,
            Boot::Searching(tried) => tried < 8,
            Boot::Sharing(_) => true,
            Boot::Acting(source, shared, done) => done <= steps_for(source, shared).len(),
        }
    }

    pub fn new() -> (r: Self)
        ensures
            r == Boot::Waiting(0),
            r.wf(),
    {
        Boot::Waiting(0)
    }

    fn act(source: Source, shared: Shared, done: usize) -> (r: (Task, Boot))
        requires
            done <= steps_for(source, shared).len(),
        ensures
            r == acting(source, shared, done as int),
            r.1.wf(),
    {
        let steps: Vec<Step> = init(source, shared);
        if done < steps.len() {
            (Task::Perform(steps[done]), Boot::Acting(source, shared, done + 1))
        } else {
            (Task::Finish, Boot::Acting(source, shared, done))
        }
    }

    fn search(tried: usize, usb_ready: bool) -> (r: (Task, Boot))
        ensures
            r == searching(tried as int, usb_ready),
            r.1.wf(),
    {
        match next_source(tried, usb_ready) {
            Source::Nowhere => Self::act(Source::Nowhere, Shared::Done, 0),
            Source::Ata { bus, dsk } => (
                Task::Perform(Step::BootPartition { bus, dsk }),
                Boot::Ready(tried),
            ),
            source => (Task::Look(source), Boot::Searching(tried)),
        }
    }

    /// What is done next, by what came of the last task and whether there is a USB disk.
    pub fn next(&mut self, told: Told, usb_ready: bool) -> (r: Task)
        requires
            old(self).wf(),
        ensures
            (r, *final(self)) == booting(*old(self), told, usb_ready),
            final(self).wf(),
    {
        let (task, next): (Task, Boot) = match *self {
            Boot::Waiting(polls) => {
                if usb_ready || polls >= USB_POLLS {
                    Self::search(0, usb_ready)
                } else {
                    (Task::PollUsb, Boot::Waiting(polls + 1))
                }
            },
            Boot::Ready(tried) => (
                Task::Look(next_source(tried, usb_ready)),
                Boot::Searching(tried),
            ),
            Boot::Searching(tried) => {
                let found: bool = match told {
                    Told::Looked(x) => x,
                    _ => false,
                };
                if found {
                    match next_source(tried, usb_ready) {
                        Source::Ata { bus, dsk } => (
                            Task::Share,
                            Boot::Sharing(Source::Ata { bus, dsk }),
                        ),
                        Source::Virtio => (Task::Share, Boot::Sharing(Source::Virtio)),
                        source => Self::act(source, Shared::Done, 0),
                    }
                } else {
                    Self::search(tried + 1, usb_ready)
                }
            },
            Boot::Sharing(source) => match told {
                Told::Shared(shared) => Self::act(source, shared, 0),
                _ => Self::act(source, Shared::Failed, 0),
            },
            Boot::Acting(source, shared, done) => Self::act(source, shared, done),
        };
        *self = next;
        task
    }
}

/// A bound on what is still to be done.
pub open spec fn ahead(b: Boot) -> int {
    match b {
        Boot::Waiting(polls) => 60 + USB_POLLS - polls,
        Boot::Ready(tried) => 41 - 2 * tried,
        Boot::Searching(tried) => 40 - 2 * tried,
        Boot::Sharing(_) => 20,
        Boot::Acting(source, shared, done) => steps_for(source, shared).len() - done,
    }
}

/// The way to a running system has an end, whatever comes of its tasks.
pub proof fn lemma_boot_ends(b: Boot, told: Told, usb_ready: bool)
    requires
        b.wf(),
    ensures
        ahead(b) >= 0,
        booting(b, told, usb_ready).0 == Task::Finish || ahead(booting(b, told, usb_ready).1)
            < ahead(b),
{
    assert forall|source: Source, shared: Shared| (#[trigger] steps_for(source, shared)).len()
        < 10 by {}
}

/// What becomes of a search for a boot partition.
#[derive(Debug, Clone, Copy, PartialEq, Eq, Structural)]
pub enum BootChoice {
    Already,
    Mount(FsKind),
    Absent,
}

/// Which boot partition is mounted. Of each kind it is told whether the disk has one, and
/// if so, whether it could be read.
pub open spec fn boot_choice(already: bool, fat32: Option<bool>, fat16: Option<bool>) -> BootChoice {
    if already {
        BootChoice::Already
    } else if fat32 == Some(true) {
        BootChoice::Mount(FsKind::Fat32)
    } else if fat16 == Some(true) {
        BootChoice::Mount(FsKind::Fat16)
    } else {
        BootChoice::Absent
    }
}

pub fn try_mount_boot(vfs: &Vfs, fat32: Option<bool>, fat16: Option<bool>) -> (r: BootChoice)
    ensures
        r == boot_choice(
            exists|i: int|
                0 <= i < vfs@.len() && (#[trigger] vfs@[i]).prefix == path_of(Place::Boot),
            fat32,
            fat16,
        ),
{
    let boot: Vec<u8> = place_path(Place::Boot);
    if vfs.is_mounted(&boot) {
        return BootChoice::Already;
    }
    match fat32 {
        Some(ok) => {
            if ok {
                return BootChoice::Mount(FsKind::Fat32);
            }
        },
        None => {},
    }
    match fat16 {
        Some(ok) => {
            if ok {
                return BootChoice::Mount(FsKind::Fat16);
            }
        },
        None => {},
    }
    BootChoice::Absent
}

/// What is to be done for a USB disk with a file system.
#[derive(Debug, Clone, Copy, PartialEq, Eq, Structural)]
pub struct UsbPlan {
    pub make_mnt: bool,
    pub make_usb: bool,
    pub mount: bool,
}

/// A USB disk is mounted once; directories that lack for it are made.
pub fn try_init_usb_storage(vfs: &Vfs, has_mnt: bool, has_usb: bool) -> (r: UsbPlan)
    ensures
        ({
            let mounted = exists|i: int|
                0 <= i < vfs@.len() && (#[trigger] vfs@[i]).prefix == path_of(Place::Usb);
            r == (UsbPlan {
                make_mnt: !mounted && !has_mnt,
                make_usb: !mounted && !has_usb,
                mount: !mounted,
            })
        }),
{
    let usb: Vec<u8> = place_path(Place::Usb);
    let mounted: bool = vfs.is_mounted(&usb);
    UsbPlan { make_mnt: !mounted && !has_mnt, make_usb: !mounted && !has_usb, mount: !mounted }
}

/// When it is a source's turn.
pub open spec fn turn_of(source: Source) -> int {
    match source {
        Source::Ata { bus, dsk } => 2 * bus + dsk,
        Source::Virtio => 4,
        Source::BootImage => 5,
        Source::OpticalImage => 6,
        Source::UsbImage => 7,
        Source::Nowhere => 8,
    }
}

/// Each source has one turn: the disks first, then the images, and the USB disk only where
/// there is one.
pub proof fn lemma_sources_in_turn(tried: int, usb_ready: bool)
    requires
        0 <= tried,
    ensures
        ({
            let s = source_order(tried, usb_ready);
            &&& s != Source::Nowhere ==> turn_of(s) == tried
            &&& s == Source::Nowhere <==> tried > 7 || (tried == 7 && !usb_ready)
            &&& s matches Source::Ata { bus, dsk } ==> bus < 2 && dsk < 2
            &&& s == Source::UsbImage ==> usb_ready
        }),
{
}

/// A source at which the system is not found is passed over for the next; one at which it is
/// found is taken.
pub proof fn lemma_search_goes_on(tried: usize, usb_ready: bool)
    requires
        tried < 7,
    ensures
        ({
            let here = source_order(tried as int, usb_ready);
            let after = source_order(tried + 1, usb_ready);
            let (task, next) = booting(Boot::Searching(tried), Told::Looked(false), usb_ready);
            let (found, taken) = booting(Boot::Searching(tried), Told::Looked(true), usb_ready);
            &&& after matches Source::Ata { bus, dsk } ==> task == Task::Perform(
                Step::BootPartition { bus, dsk },
            ) && next == Boot::Ready((tried + 1) as usize)
            &&& !(after is Ata) && after != Source::Nowhere ==> task == Task::Look(after) && next
                == Boot::Searching((tried + 1) as usize)
            &&& after == Source::Nowhere ==> (next matches Boot::Acting(s, _, _) && s == after)
            &&& here is Ata || here is Virtio ==> found == Task::Share && taken == Boot::Sharing(here)
            &&& !(here is Ata) && !(here is Virtio) ==> found == Task::Perform(
                steps_for(here, Shared::Done)[0],
            ) && taken == Boot::Acting(here, Shared::Done, 1)
        }),
        booting(Boot::Ready(tried), Told::Done, usb_ready).0 == Task::Look(
            source_order(tried as int, usb_ready),
        ),
{
}

/// The USB drivers get sixteen turns, and no more once there is a disk.
pub proof fn lemma_usb_waited_for(polls: usize, told: Told, usb_ready: bool)
    requires
        polls < usize::MAX,
    ensures
        (booting(Boot::Waiting(polls), told, usb_ready).0 == Task::PollUsb) == (!usb_ready && polls < 16),
        !usb_ready && polls < 16 ==> booting(Boot::Waiting(polls), told, usb_ready).1 == Boot::Waiting(
            (polls + 1) as usize,
        ),
{
}

/// The steps are done one after the other, and then there is nothing more to do.
pub proof fn lemma_steps_in_turn(source: Source, shared: Shared, done: usize, told: Told, usb_ready: bool)
    requires
        done <= steps_for(source, shared).len(),
    ensures
        ({
            let (task, next) = booting(Boot::Acting(source, shared, done), told, usb_ready);
            &&& (task == Task::Finish) == (done == steps_for(source, shared).len())
            &&& task != Task::Finish ==> task == Task::Perform(steps_for(source, shared)[done as int])
                && next == Boot::Acting(source, shared, (done + 1) as usize)
        }),
{
    assert(steps_for(source, shared).len() < 10);
}

/// What the root is, by where the system was found.
pub open spec fn root_kind(source: Source) -> FsKind {
    match source {
        Source::Ata { .. } | Source::Virtio => FsKind::SystemDisk,
        Source::BootImage | Source::OpticalImage | Source::UsbImage => FsKind::LiveSystem,
        Source::Nowhere => FsKind::InitialRam,
    }
}

/// Whether the system that is found there is not to be changed.
pub open spec fn is_live(source: Source) -> bool {
    source is BootImage || source is OpticalImage || source is UsbImage
}

/// What may be mounted where: the root by its source, the devices and the processes at their
/// places, empty memory on a system that is not to be changed, and the medium that an image
/// came from.
pub open spec fn belongs(source: Source, at: Place, what: FsKind) -> bool {
    match at {
        Place::Root => what == root_kind(source),
        Place::Dev => what == FsKind::Devices,
        Place::Proc => what == FsKind::Processes,
        Place::Run | Place::Tmp | Place::Home | Place::VarLog => is_live(source) && what
            == FsKind::EmptyRam,
        Place::Install => (source is OpticalImage || source is UsbImage) && what
            == FsKind::InstallMedia,
        _ => false,
    }
}

/// What is mounted is what belongs at its place, and all that belongs somewhere is mounted;
/// where the system disk could not be shared, nothing is.
pub proof fn lemma_what_is_mounted(source: Source, shared: Shared, at: Place, what: FsKind)
    ensures
        steps_for(source, shared).contains(Step::Mount { at, what }) == (belongs(source, at, what) && (
        shared == Shared::Done || !(source is Ata || source is Virtio) || (source is Virtio && shared
            == Shared::Already))),
{
    let s = steps_for(source, shared);
    let step = Step::Mount { at, what };
    let owed = belongs(source, at, what) && (shared == Shared::Done || !(source is Ata || source is Virtio)
        || (source is Virtio && shared == Shared::Already));
    if owed {
        let base = match source {
            Source::Ata { .. } | Source::BootImage => 1int,
            Source::Virtio | Source::OpticalImage | Source::UsbImage => 2int,
            Source::Nowhere => 0int,
        };
        let i = match at {
            Place::Root => match source {
                Source::Virtio => 1int,
                Source::Nowhere => 3int,
                _ => 0int,
            },
            Place::Install => 1int,
            Place::Dev => base,
            Place::Proc => base + 1,
            Place::Run => base + 2,
            Place::Tmp => base + 3,
            Place::Home => base + 4,
            _ => base + 5,
        };
        assert(0 <= i < s.len() && s[i] == step);
    }
}

/// How a path is spelled.
pub open spec fn spelled(b: Seq<u8>, text: Seq<char>) -> bool {
    b.len() == text.len() && forall|i: int| 0 <= i < b.len() ==> #[trigger] b[i] as int == text[i] as int
}

/// The name of a place.
pub open spec fn place_name(at: Place) -> Seq<char> {
    match at {
        Place::Root => "/"@,
        Place::Dev => "/dev"@,
        Place::Proc => "/proc"@,
        Place::Usb => "/mnt/usb"@,
        Place::Boot => "/boot"@,
        Place::Install => "/media/install"@,
        Place::Run => "/run"@,
        Place::Tmp => "/tmp"@,
        Place::Home => "/home"@,
        Place::VarLog => "/var/log"@,
    }
}

/// The paths of the places spell their names.
pub proof fn lemma_places_named(at: Place)
    ensures
        spelled(path_of(at), place_name(at)),
{
    reveal_strlit("/");
    reveal_strlit("/dev");
    reveal_strlit("/proc");
    reveal_strlit("/mnt/usb");
    reveal_strlit("/boot");
    reveal_strlit("/media/install");
    reveal_strlit("/run");
    reveal_strlit("/tmp");
    reveal_strlit("/home");
    reveal_strlit("/var/log");
}

/// A boot partition is mounted once, and as what it was found to be.
pub proof fn lemma_boot_partition_chosen(already: bool, fat32: Option<bool>, fat16: Option<bool>)
    ensures
        match boot_choice(already, fat32, fat16) {
            BootChoice::Already => already,
            BootChoice::Mount(kind) => !already && (kind == FsKind::Fat32 && fat32 == Some(true) || kind
                == FsKind::Fat16 && fat16 == Some(true) && fat32 != Some(true)),
            BootChoice::Absent => !already && fat32 != Some(true) && fat16 != Some(true),
        },
{
}

} // verus!
