//! Finding, checking and formatting volumes.

use crate::block::{block_of, lemma_splice, splice, BlockDeviceIO};
use crate::bytes::{cut, le_digits, le_value, lemma_le_digits_len, lemma_le_round_trip, pow256, push_le, push_repeat, read_u32};
use crate::partition::{
    detect_twilight_partition, detect_twilight_partition_on_device, encode_single,
    lemma_single_table, partition_in, partition_on, single_table, PartitionEntry,
};
use crate::twilight_fs::bitmap::{all_set, is_first_clear, with_bit_at};
use crate::twilight_fs::fs::{inode_at, valid_ino, with_inode, Superblock, TwilightFs, TwilightFsShared};
use crate::twilight_fs::inode::{decode_inode, fresh_inode, Inode, InodeView, MODE_DIR};
use crate::twilight_fs::shared::CacheView;
use crate::twilight_fs::tree::{dot, dot_dot, entry_added, entry_error, zero_block};
use crate::twilight_fs::volume::{
    read_tfs_block, sectors_wf, set_fs_block_offset_bytes, set_fs_block_offset_lba,
    to_u32_saturating, volume_blocks, write_tfs_block, BlockOffset,
};
use vstd::prelude::*;

verus! {

/// What a superblock starts with.
pub const SUPERBLOCK_MAGIC: u32 = 0x3053_4654;

/// The block that a superblock is kept in.
pub open spec fn superblock_record(sb: Superblock) -> Seq<u8> {
    le_digits(0x3053_4654, 4) + le_digits(sb.block_size as nat, 4) + le_digits(
        sb.imap_blocks as nat,
        4,
    ) + le_digits(sb.zmap_blocks as nat, 4) + le_digits(sb.first_data_zone as nat, 4) + le_digits(
        sb.zones as nat,
        4,
    ) + le_digits(sb.ninodes as nat, 4) + Seq::new(2020, |i: int| 0u8)
}

/// The word at `at` of a block.
pub open spec fn word_at(s: Seq<u8>, at: int) -> u32 {
    le_value(s.subrange(at, at + 4)) as u32
}

/// The superblock that a block holds, where it starts as one does.
pub open spec fn superblock_in(s: Seq<u8>) -> Option<Superblock> {
    if word_at(s, 0) == SUPERBLOCK_MAGIC {
        Some(
            Superblock {
                block_size: word_at(s, 4),
                imap_blocks: word_at(s, 8),
                zmap_blocks: word_at(s, 12),
                first_data_zone: word_at(s, 16),
                zones: word_at(s, 20),
                ninodes: word_at(s, 24),
            },
        )
    } else {
        None
    }
}

/// A superblock that was written is read back.
pub proof fn lemma_superblock_round_trip(sb: Superblock)
    ensures
        superblock_record(sb).len() == 2048,
        superblock_in(superblock_record(sb)) == Some(sb),
{
    let s = superblock_record(sb);
    reveal_with_fuel(pow256, 5);
    let v: Seq<u32> = seq![
        SUPERBLOCK_MAGIC,
        sb.block_size,
        sb.imap_blocks,
        sb.zmap_blocks,
        sb.first_data_zone,
        sb.zones,
        sb.ninodes,
    ];
    assert forall|i: int| 0 <= i < 7 implies #[trigger] le_digits(v[i] as nat, 4).len() == 4
        && le_value(le_digits(v[i] as nat, 4)) == v[i] by {
        lemma_le_digits_len(v[i] as nat, 4);
        lemma_le_round_trip(v[i] as nat, 4);
    }
    let a = le_digits(v[0] as nat, 4);
    let b = le_digits(v[1] as nat, 4);
    let c = le_digits(v[2] as nat, 4);
    let d = le_digits(v[3] as nat, 4);
    let e = le_digits(v[4] as nat, 4);
    let f = le_digits(v[5] as nat, 4);
    let g = le_digits(v[6] as nat, 4);
    assert(s == a + b + c + d + e + f + g + Seq::new(2020, |i: int| 0u8));
    assert(s.subrange(0, 4) =~= a);
    assert(s.subrange(4, 8) =~= b);
    assert(s.subrange(8, 12) =~= c);
    assert(s.subrange(12, 16) =~= d);
    assert(s.subrange(16, 20) =~= e);
    assert(s.subrange(20, 24) =~= f);
    assert(s.subrange(24, 28) =~= g);
}

/// The block that a superblock is kept in.
pub fn encode_superblock(sb: &Superblock) -> (r: Vec<u8>)
    ensures
        r@ == superblock_record(*sb),
        r@.len() == 2048,
{
    proof {
        lemma_superblock_round_trip(*sb);
        lemma_le_digits_len(SUPERBLOCK_MAGIC as nat, 4);
        lemma_le_digits_len(sb.block_size as nat, 4);
        lemma_le_digits_len(sb.imap_blocks as nat, 4);
        lemma_le_digits_len(sb.zmap_blocks as nat, 4);
        lemma_le_digits_len(sb.first_data_zone as nat, 4);
        lemma_le_digits_len(sb.zones as nat, 4);
        lemma_le_digits_len(sb.ninodes as nat, 4);
    }
    let mut out: Vec<u8> = Vec::new();
    push_le(&mut out, SUPERBLOCK_MAGIC as u64, 4);
    push_le(&mut out, sb.block_size as u64, 4);
    push_le(&mut out, sb.imap_blocks as u64, 4);
    push_le(&mut out, sb.zmap_blocks as u64, 4);
    push_le(&mut out, sb.first_data_zone as u64, 4);
    push_le(&mut out, sb.zones as u64, 4);
    push_le(&mut out, sb.ninodes as u64, 4);
    push_repeat(&mut out, 0, 2020);
    proof {
        assert(out@ =~= superblock_record(*sb));
    }
    out
}

/// The superblock that a block holds, where it starts as one does.
pub fn decode_superblock(s: &Vec<u8>) -> (r: Option<Superblock>)
    requires
        s@.len() == 2048,
    ensures
        r == superblock_in(s@),
{
    if read_u32(s, 0) != SUPERBLOCK_MAGIC {
        return None;
    }
    Some(
        Superblock {
            block_size: read_u32(s, 4),
            imap_blocks: read_u32(s, 8),
            zmap_blocks: read_u32(s, 12),
            first_data_zone: read_u32(s, 16),
            zones: read_u32(s, 20),
            ninodes: read_u32(s, 24),
        },
    )
}

/// Whether the parts of a volume follow one another and are large enough.
pub fn layout_valid(sb: &Superblock) -> (r: bool)
    ensures
        r == sb.wf(),
{
    let table: u64 = 1 + sb.imap_blocks as u64 + sb.zmap_blocks as u64 + (sb.ninodes as u64 + 15) / 16;
    sb.block_size == 2048 && table <= sb.first_data_zone as u64 && sb.first_data_zone <= sb.zones
        && sb.ninodes as u64 <= sb.imap_blocks as u64 * 16384 && (sb.zones - sb.first_data_zone) as u64
        <= sb.zmap_blocks as u64 * 16384
}

/// Reads the superblock of the volume at `at`.
pub fn read_superblock<D: BlockDeviceIO>(device: &mut D, at: &BlockOffset) -> (res: Result<
    Superblock,
    &'static str,
>)
    requires
        sectors_wf(old(device)),
    ensures
        sectors_wf(final(device)),
        final(device).bytes() == old(device).bytes(),
        final(device).serves() == old(device).serves(),
        ({
            let blocks = volume_blocks(old(device).bytes(), *at);
            match res {
                Ok(sb) => blocks.len() > 0 && superblock_in(blocks[0]) == Some(sb),
                Err(m) => if m == "Invalid TwiligtFS magic" {
                    blocks.len() > 0 && superblock_in(blocks[0]) is None
                } else {
                    m == "Failed to read TwilightFS superblock" && !(old(device).serves()
                        && blocks.len() > 0)
                },
            }
        }),
{
    match read_tfs_block(device, at, 0) {
        Ok(buf) => match decode_superblock(&buf) {
            Some(sb) => Ok(sb),
            None => Err("Invalid TwiligtFS magic"),
        },
        Err(_) => Err("Failed to read TwilightFS superblock"),
    }
}

/// How many blocks a volume at `at` can have.
fn count_blocks<D: BlockDeviceIO>(device: &D, at: &BlockOffset) -> (r: u64)
    requires
        sectors_wf(device),
    ensures
        r == volume_blocks(device.bytes(), *at).len(),
        r <= u32::MAX,
{
    proof {
        device.lemma_geometry();
    }
    let total: u64 = device.block_count() as u64 * 512;
    let start: u64 = (at.bytes / 512) * 512;
    if total < start {
        0
    } else {
        (total - start) / 2048
    }
}

/// The start of the volume on a device: its partition, else the first sector.
pub open spec fn volume_start(entry: Option<PartitionEntry>) -> BlockOffset {
    match entry {
        Some(e) => BlockOffset { bytes: (e.lba_start * 512) as u64 },
        None => BlockOffset { bytes: 0 },
    }
}

/// Why the volume with these blocks is refused, where it is: `unread` where there
/// is no first block, `invalid` where that is no superblock.
pub open spec fn check_error(
    blocks: Seq<Seq<u8>>,
    unread: &'static str,
    invalid: &'static str,
) -> Option<&'static str> {
    if blocks.len() == 0 {
        Some(unread)
    } else {
        match superblock_in(blocks[0]) {
            None => Some(invalid),
            Some(_) => None,
        }
    }
}

/// Whether there is a first inode, in a block of the volume.
pub open spec fn root_readable(blocks: Seq<Seq<u8>>, sb: Superblock) -> bool {
    valid_ino(sb, 1) && sb.itable() < blocks.len()
}

impl<D: BlockDeviceIO> TwilightFs<D> {
    /// Whether this is the volume of `device` as its superblock describes it, with
    /// nothing remembered.
    pub open spec fn freshly_opened(&self, device: &D) -> bool {
        &&& self.mounted()
        &&& self.blocks() == volume_blocks(device.bytes(), self.offset)
        &&& self.serves() == device.serves()
        &&& superblock_in(self.blocks()[0]) == Some(self.superblock)
        &&& self.shared@ == no_caches()
    }

    /// Whether the parts of the volume fit together, and on the device. A volume where they do
    /// not is opened, and can be asked for nothing else.
    pub fn layout_fits(&self) -> (r: bool)
        requires
            self.mounted(),
        ensures
            r == self.wf(),
    {
        layout_valid(&self.superblock) && self.superblock.zones as u64 <= count_blocks(
            &self.device,
            &self.offset,
        )
    }

    /// Opens the volume that starts at `offset`.
    fn open_at(
        device: D,
        offset: BlockOffset,
        unread: &'static str,
        invalid: &'static str,
    ) -> (res: Result<Self, &'static str>)
        requires
            sectors_wf(&device),
        ensures
            ({
                let failure = check_error(volume_blocks(device.bytes(), offset), unread, invalid);
                match res {
                    Ok(fs) => failure is None && fs.offset == offset && fs.freshly_opened(&device),
                    Err(m) => failure == Some(m) || m == unread && !device.serves(),
                }
            }),
    {
        let mut dev: D = device;
        let superblock: Superblock = match read_tfs_block(&mut dev, &offset, 0) {
            Ok(buf) => match decode_superblock(&buf) {
                Some(sb) => sb,
                None => return Err(invalid),
            },
            Err(_) => return Err(unread),
        };
        let shared: TwilightFsShared = TwilightFsShared::new();
        proof {
            assert(shared@ =~= no_caches());
        }
        Ok(TwilightFs { superblock, device: dev, offset, shared })
    }

    /// Opens the volume on an ATA disk, in its partition of the given kind where
    /// the first sector of the disk, if that could be read, names one.
    pub fn check_ata(device: Option<D>, sector: Option<Vec<u8>>, kind: u8) -> (res: Result<
        Self,
        &'static str,
    >)
        requires
            device is Some ==> sectors_wf(&device->0),
        ensures
            ({
                let start = volume_start(
                    match sector {
                        Some(s) => partition_in(s@, kind),
                        None => None,
                    },
                );
                let failure = check_error(
                    volume_blocks(device->0.bytes(), start),
                    "Failed to read Twilight FS superblock",
                    "Invalid Twilight FS superblock magic",
                );
                match res {
                    Ok(fs) => device is Some && failure is None && fs.offset == start
                        && fs.freshly_opened(&device->0),
                    Err(m) => if device is None {
                        m == "Failed to open ATA device"
                    } else {
                        failure == Some(m) || m == "Failed to read Twilight FS superblock"
                            && !device->0.serves()
                    },
                }
            }),
    {
        let mut offset: BlockOffset = BlockOffset { bytes: 0 };
        match detect_twilight_partition(sector, kind) {
            Some(entry) => set_fs_block_offset_lba(&mut offset, entry.lba_start),
            None => set_fs_block_offset_bytes(&mut offset, 0),
        }
        match device {
            Some(d) => Self::open_at(
                d,
                offset,
                "Failed to read Twilight FS superblock",
                "Invalid Twilight FS superblock magic",
            ),
            None => Err("Failed to open ATA device"),
        }
    }

    /// Opens the volume on a virtio disk, in its partition of the given kind where
    /// it has one.
    pub fn check_virtio_blk(device: D, kind: u8) -> (res: Result<Self, &'static str>)
        requires
            sectors_wf(&device),
        ensures
            ({
                let start = volume_start(partition_on(&device, kind));
                let failure = check_error(
                    volume_blocks(device.bytes(), start),
                    "Failed to read Twilight FS superblock",
                    "Invalid Twilight FS superblock magic",
                );
                match res {
                    Ok(fs) => fs.freshly_opened(&device) && (device.serves() ==> failure is None
                        && fs.offset == start),
                    Err(m) => device.serves() ==> failure == Some(m),
                }
            }),
    {
        let mut dev: D = device;
        let mut offset: BlockOffset = BlockOffset { bytes: 0 };
        match detect_twilight_partition_on_device(&mut dev, kind) {
            Some(entry) => set_fs_block_offset_lba(&mut offset, entry.lba_start),
            None => set_fs_block_offset_bytes(&mut offset, 0),
        }
        Self::open_at(
            dev,
            offset,
            "Failed to read Twilight FS superblock",
            "Invalid Twilight FS superblock magic",
        )
    }

    /// Opens the volume on a USB disk, in its partition of the given kind where it
    /// has one. Its root has to be a directory.
    pub fn check_usb_blk(device: D, kind: u8) -> (res: Result<Self, &'static str>)
        requires
            device.wf(),
            device.bs() > 0 && device.count() > 0 ==> device.bs() == 512,
        ensures
            ({
                let start = volume_start(partition_on(&device, kind));
                let blocks = volume_blocks(device.bytes(), start);
                let failure = check_error(
                    blocks,
                    "Failed to read USB Twilight FS superblock",
                    "Invalid Twilight FS superblock magic on USB",
                );
                match res {
                    Ok(fs) => {
                        &&& device.bs() == 512 && device.count() > 0
                        &&& fs.freshly_opened(&device)
                        &&& root_readable(fs.blocks(), fs.superblock)
                        &&& inode_at(fs.blocks(), fs.superblock, 1).dir()
                        &&& device.serves() ==> failure is None && fs.offset == start
                    },
                    Err(m) => if device.bs() == 0 || device.count() == 0 {
                        m == "USB block device not available"
                    } else {
                        device.serves() ==> match failure {
                            Some(f) => m == f,
                            None => {
                                let sb = superblock_in(blocks[0])->0;
                                if root_readable(blocks, sb) {
                                    m == "USB TwilightFS root inode is invalid" && !inode_at(
                                        blocks,
                                        sb,
                                        1,
                                    ).dir()
                                } else {
                                    m == "Failed to read USB TwilightFS root inode"
                                }
                            },
                        }
                    },
                }
            }),
    {
        let mut dev: D = device;
        if dev.block_size() == 0 || dev.block_count() == 0 {
            return Err("USB block device not available");
        }
        let mut offset: BlockOffset = BlockOffset { bytes: 0 };
        match detect_twilight_partition_on_device(&mut dev, kind) {
            Some(entry) => set_fs_block_offset_lba(&mut offset, entry.lba_start),
            None => set_fs_block_offset_bytes(&mut offset, 0),
        }
        let mut fs: Self = match Self::open_at(
            dev,
            offset,
            "Failed to read USB Twilight FS superblock",
            "Invalid Twilight FS superblock magic on USB",
        ) {
            Ok(fs) => fs,
            Err(m) => return Err(m),
        };
        match fs.validate_root_inode() {
            Ok(_) => Ok(fs),
            Err(m) => Err(m),
        }
    }

    /// Checks that the root is a directory.
    pub fn validate_root_inode(&mut self) -> (res: Result<(), &'static str>)
        requires
            old(self).mounted(),
        ensures
            final(self).mounted(),
            final(self).same_but_blocks(old(self)),
            final(self).blocks() == old(self).blocks(),
            ({
                let blocks = old(self).blocks();
                let sb = old(self).superblock;
                match res {
                    Ok(_) => root_readable(blocks, sb) && inode_at(blocks, sb, 1).dir(),
                    Err(m) => if m == "USB TwilightFS root inode is invalid" {
                        root_readable(blocks, sb) && !inode_at(blocks, sb, 1).dir()
                    } else {
                        m == "Failed to read USB TwilightFS root inode" && !(old(self).serves()
                            && root_readable(blocks, sb))
                    },
                }
            }),
    {
        let block: u64 = 1 + self.superblock.imap_blocks as u64 + self.superblock.zmap_blocks as u64;
        if self.superblock.ninodes == 0 || block >= count_blocks(&self.device, &self.offset) {
            return Err("Failed to read USB TwilightFS root inode");
        }
        let buffer: Vec<u8> = match read_tfs_block(&mut self.device, &self.offset, block as u32) {
            Ok(x) => x,
            Err(_) => return Err("Failed to read USB TwilightFS root inode"),
        };
        let record: Vec<u8> = cut(&buffer, 0, 128);
        if decode_inode(&record).is_dir() {
            Ok(())
        } else {
            Err("USB TwilightFS root inode is invalid")
        }
    }

    /// Makes the root directory of a fresh volume.
    pub fn initialize_root_inode(&mut self, time: u64) -> (res: Result<(), &'static str>)
        requires
            old(self).wf(),
        ensures
            final(self).wf(),
            final(self).same_volume(old(self)),
            match res {
                Ok(_) => {
                    &&& root_made(
                        old(self).blocks(),
                        final(self).blocks(),
                        old(self).superblock,
                        old(self).shared@,
                        time,
                    )
                    &&& final(self).shared.generation == if old(self).shared.generation == usize::MAX {
                        0
                    } else {
                        (old(self).shared.generation + 1) as usize
                    }
                    &&& final(self).shared@.files.len() == 0
                    &&& final(self).shared@.dirs.len() == 0
                    &&& old(self).shared.current() ==> final(self).shared@.paths.len() == 0
                },
                Err(m) => {
                    &&& final(self).shared.generation == old(self).shared.generation
                    &&& !old(self).serves() || root_stuck(
                        old(self).blocks(),
                        final(self).blocks(),
                        old(self).superblock,
                        old(self).shared@,
                        final(self).shared@,
                        time,
                        m,
                    )
                },
            },
    {
        let ghost b0 = self.blocks();
        let ghost sb = self.superblock;
        let ghost c0 = self.shared@;
        let i: u32 = match self.allocate_inode() {
            Ok(i) => i,
            Err(_) => return Err("Failed to allocate USB TwilightFS root inode"),
        };
        if i != 0 {
            return Err("Unexpected USB TwilightFS root inode number");
        }
        let zone: u32 = match self.allocate_zone() {
            Ok(z) => z,
            Err(_) => return Err("Failed to allocate USB TwilightFS root directory zone"),
        };
        let mut root: Inode = Inode::new_dir(time, 0o755);
        root.direct_slot_set(0, zone);
        match self.write_inode(1, &root) {
            Ok(_) => {},
            Err(m) => return Err(m),
        }
        let ghost b1 = self.blocks();
        proof {
            assert(root_node(b0, b1, sb, time, zone));
        }
        let one: [u8; 1] = [46u8];
        let two: [u8; 2] = [46u8, 46u8];
        proof {
            assert(one@ =~= dot());
            assert(two@ =~= dot_dot());
        }
        match self.create_dir_entry(1, &one, 1) {
            Ok(_) => {},
            Err(m) => return Err(m),
        }
        let ghost b2 = self.blocks();
        let ghost c2 = self.shared@;
        match self.create_dir_entry(1, &two, 1) {
            Ok(_) => {},
            Err(m) => return Err(m),
        }
        let ghost c3 = self.shared@;
        self.shared.invalidate_namespace();
        proof {
            assert(root_steps(b0, b1, b2, self.blocks(), sb, c0, c2, c3, time, zone));
        }
        Ok(())
    }

    /// Writes the superblock of a volume that starts at sector `start_lba`, and
    /// nothing else.
    pub fn format_superblock(device: D, start_lba: u32, superblock: Superblock) -> (res: Result<
        Self,
        &'static str,
    >)
        requires
            sectors_wf(&device),
            superblock.wf(),
        ensures
            ({
                let start = BlockOffset { bytes: (start_lba * 512) as u64 };
                let b0 = volume_blocks(device.bytes(), start);
                match res {
                    Ok(fs) => {
                        &&& fs.wf()
                        &&& fs.serves() == device.serves()
                        &&& fs.superblock == superblock
                        &&& fs.offset == start
                        &&& fs.shared@ == no_caches()
                        &&& fs.shared.current()
                        &&& b0.len() > 0
                        &&& fs.blocks() == b0.update(0, superblock_record(superblock))
                    },
                    Err(m) => if superblock.zones > b0.len() {
                        m == "Device too small"
                    } else {
                        m == "Failed to write TwilightFS superblock" && !(device.serves()
                            && b0.len() > 0)
                    },
                }
            }),
    {
        let mut dev: D = device;
        let mut offset: BlockOffset = BlockOffset { bytes: 0 };
        set_fs_block_offset_lba(&mut offset, start_lba);
        let count: u64 = count_blocks(&dev, &offset);
        if superblock.zones as u64 > count {
            return Err("Device too small");
        }
        let record: Vec<u8> = encode_superblock(&superblock);
        match write_tfs_block(&mut dev, &offset, 0, &record) {
            Ok(_) => {},
            Err(_) => return Err("Failed to write TwilightFS superblock"),
        }
        let shared: TwilightFsShared = TwilightFsShared::new();
        proof {
            assert(shared@ =~= no_caches());
        }
        Ok(TwilightFs { superblock, device: dev, offset, shared })
    }

    /// Formats a device: writes the superblock, clears what lies before the data
    /// zones and makes the root directory.
    pub fn format(device: D, start_lba: u32, superblock: Superblock, time: u64) -> (res: Result<
        Self,
        &'static str,
    >)
        requires
            sectors_wf(&device),
            superblock.wf(),
        ensures
            match res {
                Ok(fs) => {
                    &&& fs.wf()
                    &&& fs.superblock == superblock
                    &&& fs.offset == (BlockOffset { bytes: (start_lba * 512) as u64 })
                    &&& fs.shared@ == no_caches()
                    &&& formatted(
                        volume_blocks(device.bytes(), fs.offset),
                        fs.blocks(),
                        superblock,
                        time,
                    )
                },
                Err(m) => {
                    let b0 = volume_blocks(
                        device.bytes(),
                        BlockOffset { bytes: (start_lba * 512) as u64 },
                    );
                    if superblock.zones > b0.len() {
                        m == "Device too small"
                    } else {
                        device.serves() ==> root_refused(
                            cleared(b0, superblock),
                            superblock,
                            no_caches(),
                            time,
                            m,
                        )
                    }
                },
            },
    {
        let ghost serving = device.serves();
        let ghost b0 = volume_blocks(
            device.bytes(),
            BlockOffset { bytes: (start_lba * 512) as u64 },
        );
        let fresh: Self = match Self::format_superblock(device, start_lba, superblock) {
            Ok(fs) => fs,
            Err(m) => return Err(m),
        };
        let mut dev: D = fresh.device;
        let offset: BlockOffset = fresh.offset;
        let mut zero: Vec<u8> = Vec::new();
        push_repeat(&mut zero, 0, 2048);
        proof {
            assert(zero@ =~= zero_block());
        }
        let mut b: u32 = 1;
        while b < superblock.first_data_zone
            invariant
                sectors_wf(&dev),
                dev.serves() == serving,
                serving == device.serves(),
                b0 == volume_blocks(
                    device.bytes(),
                    BlockOffset { bytes: (start_lba * 512) as u64 },
                ),
                superblock.wf(),
                superblock.zones <= b0.len(),
                zero@ == zero_block(),
                zero@.len() == 2048,
                1 <= b <= superblock.first_data_zone,
                volume_blocks(dev.bytes(), offset).len() == b0.len(),
                forall|k: int|
                    0 <= k < b0.len() ==> #[trigger] volume_blocks(dev.bytes(), offset)[k] == if k
                        == 0 {
                        superblock_record(superblock)
                    } else if k < b {
                        zero_block()
                    } else {
                        b0[k]
                    },
            decreases superblock.first_data_zone - b,
        {
            match write_tfs_block(&mut dev, &offset, b, &zero) {
                Ok(_) => {},
                Err(_) => return Err("Failed to clear USB TwilightFS metadata"),
            }
            b = b + 1;
        }
        proof {
            assert(volume_blocks(dev.bytes(), offset) =~= cleared(b0, superblock));
        }
        let mut fs: Self = TwilightFs { superblock, device: dev, offset, shared: fresh.shared };
        match fs.initialize_root_inode(time) {
            Ok(_) => {
                proof {
                    assert(fs.shared@ =~= no_caches());
                }
                Ok(fs)
            },
            Err(m) => Err(m),
        }
    }
}

/// Nothing is remembered.
pub open spec fn no_caches() -> CacheView {
    CacheView {
        paths: Seq::<(Seq<u8>, u32)>::empty(),
        files: Seq::<(u32, Seq<u8>)>::empty(),
        dirs: Seq::<(u32, crate::twilight_fs::cache::IndexView)>::empty(),
    }
}

/// `blocks` with a superblock, and zeros up to the data zones.
pub open spec fn cleared(blocks: Seq<Seq<u8>>, sb: Superblock) -> Seq<Seq<u8>> {
    Seq::new(
        blocks.len(),
        |k: int|
            if k == 0 {
                superblock_record(sb)
            } else if k < sb.first_data_zone {
                zero_block()
            } else {
                blocks[k]
            },
    )
}

/// Whether a volume was formatted.
pub open spec fn formatted(b0: Seq<Seq<u8>>, b1: Seq<Seq<u8>>, sb: Superblock, time: u64) -> bool {
    root_made(cleared(b0, sb), b1, sb, no_caches(), time)
}

/// Whether the inode of the root directory was made, with the first free zone.
pub open spec fn root_node(
    b0: Seq<Seq<u8>>,
    b1: Seq<Seq<u8>>,
    sb: Superblock,
    time: u64,
    z: u32,
) -> bool {
    let c = with_bit_at(b0, 1, 0, true);
    let d = with_bit_at(c, sb.zmap(), z - sb.first_data_zone, true);
    let node = fresh_inode(time, MODE_DIR | (0o755u16 & 0o7777u16));
    &&& is_first_clear(b0, 1, sb.ninodes as int, 0)
    &&& is_first_clear(c, sb.zmap(), sb.data_zones(), z - sb.first_data_zone)
    &&& b1 == with_inode(d, sb, 1, InodeView { direct: node.direct.update(0, z), ..node })
}

/// Why the root directory cannot be made, in words, and what is left behind then: no inode is
/// free, the first is taken, no zone is free, or the directory does not take its two entries.
pub open spec fn root_stuck(
    b0: Seq<Seq<u8>>,
    b3: Seq<Seq<u8>>,
    sb: Superblock,
    c0: CacheView,
    c3: CacheView,
    time: u64,
    m: &'static str,
) -> bool {
    let taken = with_bit_at(b0, 1, 0, true);
    if all_set(b0, 1, sb.ninodes as int) {
        m == "Failed to allocate USB TwilightFS root inode" && b3 == b0 && c3 == c0
    } else if !is_first_clear(b0, 1, sb.ninodes as int, 0) {
        &&& m == "Unexpected USB TwilightFS root inode number"
        &&& exists|i: int|
            is_first_clear(b0, 1, sb.ninodes as int, i) && b3 == #[trigger] with_bit_at(b0, 1, i, true)
        &&& c3 == c0
    } else if all_set(taken, sb.zmap(), sb.data_zones()) {
        m == "Failed to allocate USB TwilightFS root directory zone" && b3 == taken && c3 == c0
    } else {
        exists|b1: Seq<Seq<u8>>, z: u32| #[trigger]
            root_node(b0, b1, sb, time, z) && entry_error(b3, sb, c3, 1, m) && ((b3 == b1 && c3 == c0)
                || entry_added(b1, b3, sb, c0, c3, 1, dot(), 1))
    }
}

/// Whether the root directory cannot be made, for `m`.
pub open spec fn root_refused(
    b0: Seq<Seq<u8>>,
    sb: Superblock,
    c0: CacheView,
    time: u64,
    m: &'static str,
) -> bool {
    exists|b3: Seq<Seq<u8>>, c3: CacheView| #[trigger] root_stuck(b0, b3, sb, c0, c3, time, m)
}

/// The steps by which the root directory is made.
pub open spec fn root_steps(
    b0: Seq<Seq<u8>>,
    b1: Seq<Seq<u8>>,
    b2: Seq<Seq<u8>>,
    b3: Seq<Seq<u8>>,
    sb: Superblock,
    c0: CacheView,
    c2: CacheView,
    c3: CacheView,
    time: u64,
    z: u32,
) -> bool {
    &&& root_node(b0, b1, sb, time, z)
    &&& entry_added(b1, b2, sb, c0, c2, 1, dot(), 1)
    &&& entry_added(b2, b3, sb, c2, c3, 1, dot_dot(), 1)
}

/// Whether the root directory was made, as inode one.
pub open spec fn root_made(
    b0: Seq<Seq<u8>>,
    b3: Seq<Seq<u8>>,
    sb: Superblock,
    c0: CacheView,
    time: u64,
) -> bool {
    exists|b1: Seq<Seq<u8>>, b2: Seq<Seq<u8>>, c2: CacheView, c3: CacheView, z: u32| #[trigger]
        root_steps(b0, b1, b2, b3, sb, c0, c2, c3, time, z)
}

/// The partition that a USB device of `total_sectors` sectors without one is
/// given: from sector 2048 to its end.
pub open spec fn usb_partition(total_sectors: int, kind: u8) -> PartitionEntry {
    PartitionEntry { boot: 0, kind, lba_start: 2048, sectors: (total_sectors - 2048) as u32 }
}

/// How many sectors of a device the partition table can name.
pub open spec fn usb_sectors<D: BlockDeviceIO>(device: &D) -> int {
    if device.count() < u32::MAX {
        device.count() as int
    } else {
        u32::MAX as int
    }
}

/// A whole device of `total_sectors` blocks that are no sectors.
pub open spec fn whole_device(total_sectors: int, kind: u8) -> PartitionEntry {
    PartitionEntry { boot: 0, kind, lba_start: 0, sectors: total_sectors as u32 }
}

/// Whether `e` is where a volume goes on a USB device: the partition of the given
/// kind that it has, and nothing was written, or the one that it was given, and
/// then the device holds `after`, which begins with the table. A device that
/// carries out every request is given one only where it has none. A device whose blocks
/// are no sectors has no partitions: a volume takes all of it.
pub open spec fn area_chosen<D: BlockDeviceIO>(
    device: &D,
    kind: u8,
    e: PartitionEntry,
    after: Seq<u8>,
) -> bool {
    ||| device.bs() != 512 && e == whole_device(usb_sectors(device), kind) && after == device.bytes()
    ||| device.bs() == 512 && partition_on(device, kind) == Some(e) && after == device.bytes()
    ||| {
        &&& device.bs() == 512
        &&& e == usb_partition(usb_sectors(device), kind)
        &&& after == splice(device.bytes(), 0, single_table(e))
        &&& device.serves() ==> partition_on(device, kind) is None
    }
}

/// Finds the partition of the given kind on a USB device, or gives it one.
pub fn usb_area<D: BlockDeviceIO>(device: &mut D, kind: u8) -> (r: Result<
    PartitionEntry,
    &'static str,
>)
    requires
        old(device).wf(),
    ensures
        final(device).wf(),
        final(device).bs() == old(device).bs(),
        final(device).count() == old(device).count(),
        final(device).serves() == old(device).serves(),
        match r {
            Ok(e) => {
                &&& old(device).bs() > 0
                &&& old(device).count() > 4096
                &&& area_chosen(old(device), kind, e, final(device).bytes())
                &&& old(device).bs() == 512 ==> partition_on(final(device), kind) == Some(e)
            },
            Err(m) => if old(device).bs() == 0 || old(device).count() == 0 {
                m == "USB block device not available"
            } else if old(device).count() <= 4096 {
                m == "USB device too small"
            } else {
                m == "Failed to write USB partition table" && !old(device).serves()
            },
        },
{
    let block_count: usize = device.block_count();
    if device.block_size() == 0 || block_count == 0 {
        return Err("USB block device not available");
    }
    let total_sectors: u32 = to_u32_saturating(block_count as u64);
    if total_sectors <= 4096 {
        return Err("USB device too small");
    }
    if device.block_size() != 512 {
        return Ok(PartitionEntry::new(0x00, kind, 0, total_sectors));
    }
    match detect_twilight_partition_on_device(device, kind) {
        Some(entry) => return Ok(entry),
        None => {},
    }
    let entry: PartitionEntry = PartitionEntry::new(0x00, kind, 2048, total_sectors - 2048);
    let table: Vec<u8> = encode_single(entry);
    let ghost before = device.bytes();
    proof {
        device.lemma_geometry();
        assert(device.bytes().len() == 512 * device.count()) by (nonlinear_arith)
            requires
                device.bytes().len() == device.bs() * device.count(),
                device.bs() == 512,
        ;
        lemma_splice(before, 0, table@);
    }
    match device.write_blocks(0, &table) {
        Ok(_) => {
            proof {
                lemma_single_table(entry);
                assert(block_of(device, 0) == single_table(entry));
            }
            Ok(entry)
        },
        Err(_) => Err("Failed to write USB partition table"),
    }
}

impl<D: BlockDeviceIO> TwilightFs<D> {
    /// Formats a USB device, in its partition of the given kind, which it is given
    /// where it has none, with the layout that `superblock` describes.
    pub fn format_usb_blk(device: D, kind: u8, superblock: Superblock, time: u64) -> (res: Result<
        Self,
        &'static str,
    >)
        requires
            device.wf(),
            device.bs() > 0 && device.count() > 0 ==> device.bs() == 512,
            superblock.wf(),
        ensures
            match res {
                Ok(fs) => {
                    &&& device.bs() == 512 && device.count() > 4096
                    &&& fs.wf()
                    &&& fs.superblock == superblock
                    &&& fs.shared@ == no_caches()
                    &&& exists|e: PartitionEntry, after: Seq<u8>| #[trigger]
                        area_chosen(&device, kind, e, after) && fs.offset == volume_start(Some(e))
                            && formatted(
                            volume_blocks(after, fs.offset),
                            fs.blocks(),
                            superblock,
                            time,
                        )
                },
                Err(m) => if device.bs() == 0 || device.count() == 0 {
                    m == "USB block device not available"
                } else if device.count() <= 4096 {
                    m == "USB device too small"
                } else {
                    device.serves() ==> exists|e: PartitionEntry, after: Seq<u8>| #[trigger]
                        area_chosen(&device, kind, e, after) && ({
                            let b0 = volume_blocks(after, volume_start(Some(e)));
                            if superblock.zones > b0.len() {
                                m == "Device too small"
                            } else {
                                root_refused(
                                    cleared(b0, superblock),
                                    superblock,
                                    no_caches(),
                                    time,
                                    m,
                                )
                            }
                        })
                },
            },
    {
        let mut dev: D = device;
        match usb_area(&mut dev, kind) {
            Ok(entry) => {
                proof {
                    assert(area_chosen(&device, kind, entry, dev.bytes()));
                }
                Self::format(dev, entry.lba_start, superblock, time)
            },
            Err(m) => Err(m),
        }
    }
}

/// Stands for the mounted root volume.
pub struct TfsProxy;

impl TfsProxy {
    pub fn fs_type_name(&self) -> (r: &'static str)
        ensures
            r == "twilightfs",
    {
        "twilightfs"
    }

    pub fn source_name(&self) -> (r: &'static str)
        ensures
            r == "/dev/disk0",
    {
        "/dev/disk0"
    }
}

} // verus!
