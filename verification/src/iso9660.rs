//! Read-only ISO 9660 volumes without extensions.

use crate::block::{read_range, same_device, BlockDeviceIO};
use crate::bytes::{
    cut, find, first_pos, is_utf8, le_value, lemma_first_pos, lemma_first_pos_is, pieces,
    read_u16, read_u32, same, split, to_upper, to_vec, trim_end_len, trim_end_spec, upper,
    upper_byte, views,
};
use crate::vfs::{FileType, FsStats, Metadata};
use vstd::prelude::*;

verus! {

pub const ISO_BLOCK_SIZE: usize = 2048;

pub const PVD_LBA: usize = 16;

pub const FLAG_DIRECTORY: u8 = 0x02;

pub const FLAG_MULTI_EXTENT: u8 = 0x80;

/// A directory record: a name, the first block, the length in bytes, and flags.
pub struct IsoEntry {
    pub name: Vec<u8>,
    pub extent: u32,
    pub size: u32,
    pub flags: u8,
}

/// What a directory record says.
pub struct EntryView {
    pub name: Seq<u8>,
    pub extent: u32,
    pub size: u32,
    pub flags: u8,
}

impl View for IsoEntry {
    type V = EntryView;

    open spec fn view(&self) -> EntryView {
        EntryView { name: self.name@, extent: self.extent, size: self.size, flags: self.flags }
    }
}

impl EntryView {
    pub open spec fn dir(self) -> bool {
        self.flags & FLAG_DIRECTORY != 0
    }
}

/// How many bytes a read of a file at `offset` gives where there is room for `room`.
pub open spec fn read_len(e: EntryView, offset: int, room: int) -> int {
    let left = if offset >= e.size {
        0
    } else {
        e.size - offset
    };
    if room < left {
        room
    } else {
        left
    }
}

/// The byte of the volume that byte `offset` of a file is.
pub open spec fn read_from(e: EntryView, offset: int) -> int {
    e.extent * 2048 + offset
}

impl IsoEntry {
    /// Whether the record is that of a directory.
    pub fn is_dir(&self) -> (r: bool)
        ensures
            r == self@.dir(),
    {
        self.flags & FLAG_DIRECTORY != 0
    }

    /// A copy of the record.
    pub fn copy(&self) -> (r: IsoEntry)
        ensures
            r@ == self@,
    {
        IsoEntry {
            name: to_vec(&self.name),
            extent: self.extent,
            size: self.size,
            flags: self.flags,
        }
    }
}

/// The name that a record's identifier field stands for.
pub open spec fn record_name(raw: Seq<u8>) -> Option<Seq<u8>> {
    if raw == seq![0u8] {
        Some(seq![46u8])
    } else if raw == seq![1u8] {
        Some(seq![46u8, 46u8])
    } else if vstd::utf8::valid_utf8(raw) {
        Some(raw)
    } else {
        None
    }
}

/// The directory record at the start of `data`.
pub open spec fn record_at(data: Seq<u8>) -> Option<EntryView> {
    if data.len() < 34 || data[0] < 34 || data[0] > data.len() || 33 + data[32] > data[0] {
        None
    } else {
        match record_name(data.subrange(33, 33 + data[32])) {
            Some(name) => Some(
                EntryView {
                    name,
                    extent: le_value(data.subrange(2, 6)) as u32,
                    size: le_value(data.subrange(10, 14)) as u32,
                    flags: data[25],
                },
            ),
            None => None,
        }
    }
}

pub open spec fn opt_view(e: Option<IsoEntry>) -> Option<EntryView> {
    match e {
        Some(e) => Some(e@),
        None => None,
    }
}

/// Parses the directory record at the start of `data`.
pub fn parse_record(data: &[u8]) -> (r: Option<IsoEntry>)
    ensures
        opt_view(r) == record_at(data@),
{
    if data.len() < 34 {
        return None;
    }
    let record_len: usize = data[0] as usize;
    if record_len < 34 || record_len > data.len() {
        return None;
    }
    let name_len: usize = data[32] as usize;
    if 33 + name_len > record_len {
        return None;
    }
    let extent: u32 = read_u32(data, 2);
    let size: u32 = read_u32(data, 10);
    let flags: u8 = data[25];
    let raw_name: Vec<u8> = cut(data, 33, 33 + name_len);
    let name: Vec<u8> = if raw_name.len() == 1 && raw_name[0] == 0 {
        proof {
            assert(raw_name@ =~= seq![0u8]);
        }
        vec![46u8]
    } else if raw_name.len() == 1 && raw_name[0] == 1 {
        proof {
            assert(raw_name@ =~= seq![1u8]);
        }
        vec![46u8, 46u8]
    } else if is_utf8(&raw_name) {
        raw_name
    } else {
        return None;
    };
    proof {
        assert(record_name(raw_name@) == Some(name@)) by {
            assert(seq![0u8][0] == 0u8 && seq![1u8][0] == 1u8);
            if raw_name@ == seq![0u8] {
                assert(name@ =~= seq![46u8]);
            } else if raw_name@ == seq![1u8] {
                assert(name@ =~= seq![46u8, 46u8]);
            }
        }
    }
    Some(IsoEntry { name, extent, size, flags })
}

/// A path component as it is compared: without its version, without dots at its
/// end, in upper case.
pub open spec fn component(name: Seq<u8>) -> Seq<u8> {
    upper(trim_end_spec(name.take(first_pos(name, 59)), 46))
}

/// A path component as it is compared: without its version, without dots at its
/// end, in upper case.
pub fn normalize_component(name: &[u8]) -> (r: Vec<u8>)
    ensures
        r@ == component(name@),
{
    let end: usize = find(name, 59);
    let base: Vec<u8> = cut(name, 0, end);
    proof {
        assert(base@ =~= name@.take(end as int));
    }
    let n: usize = trim_end_len(&base, 46);
    let kept: Vec<u8> = cut(&base, 0, n);
    proof {
        assert(kept@ =~= base@.take(n as int));
    }
    to_upper(&kept)
}

/// Reads `out.len()` bytes from byte `offset` on: a partial first block, whole
/// blocks, a partial last block.
pub fn read_exact_at<D: BlockDeviceIO>(dev: &mut D, offset: u64, out: &mut [u8]) -> (r: Result<
    (),
    (),
>)
    requires
        old(dev).wf(),
    ensures
        final(dev).wf(),
        final(dev).bytes() == old(dev).bytes(),
        final(dev).bs() == old(dev).bs(),
        final(dev).count() == old(dev).count(),
        final(dev).serves() == old(dev).serves(),
        final(out)@.len() == old(out)@.len(),
        match r {
            Ok(_) => old(out)@.len() > 0 ==> {
                &&& offset + old(out)@.len() <= old(dev).bytes().len()
                &&& final(out)@ == old(dev).bytes().subrange(
                    offset as int,
                    offset + old(out)@.len(),
                )
            },
            Err(_) => old(out)@.len() > 0 && !(old(dev).serves() && offset + old(out)@.len()
                <= old(dev).bytes().len()),
        },
{
    if out.len() == 0 {
        return Ok(());
    }
    match read_range(dev, offset, out.len()) {
        Ok(data) => {
            let mut i: usize = 0;
            let ghost n = out@.len();
            while i < out.len()
                invariant
                    out@.len() == n,
                    data@.len() == n,
                    i <= n,
                    forall|j: int| 0 <= j < i ==> out@[j] == data@[j],
                decreases n - i,
            {
                out[i] = data[i];
                i = i + 1;
            }
            proof {
                assert(out@ =~= data@);
            }
            Ok(())
        },
        Err(_) => Err(()),
    }
}

/// The records from byte `offset` of a directory's contents on, without those of
/// the directory itself and its parent. A zero length ends a block. `None` where
/// a record is malformed or spans several extents.
pub open spec fn records(bytes: Seq<u8>, offset: int) -> Option<Seq<EntryView>>
    decreases bytes.len() - offset,
{
    if offset < 0 || offset >= bytes.len() {
        Some(Seq::<EntryView>::empty())
    } else if bytes[offset] == 0 {
        if (offset / 2048 + 1) * 2048 >= bytes.len() {
            Some(Seq::<EntryView>::empty())
        } else {
            records(bytes, (offset / 2048 + 1) * 2048)
        }
    } else if offset + bytes[offset] > bytes.len() {
        None
    } else {
        match record_at(bytes.subrange(offset, offset + bytes[offset])) {
            Some(e) => if e.flags & FLAG_MULTI_EXTENT != 0 {
                None
            } else {
                match records(bytes, offset + bytes[offset]) {
                    Some(rest) => Some(
                        if e.name == seq![46u8] || e.name == seq![46u8, 46u8] {
                            rest
                        } else {
                            seq![e] + rest
                        },
                    ),
                    None => None,
                }
            },
            None => None,
        }
    }
}

/// The entries of the directory `dir` of the volume `volume`.
pub open spec fn listing(volume: Seq<u8>, dir: EntryView) -> Option<Seq<EntryView>> {
    if !dir.dir() {
        None
    } else if dir.size == 0 {
        Some(Seq::<EntryView>::empty())
    } else if dir.extent * 2048 + dir.size > volume.len() {
        None
    } else {
        records(volume.subrange(dir.extent * 2048, dir.extent * 2048 + dir.size), 0)
    }
}

/// The first entry whose name compares equal to `wanted`.
pub open spec fn first_named(entries: Seq<EntryView>, wanted: Seq<u8>) -> Option<EntryView>
    decreases entries.len(),
{
    if entries.len() == 0 {
        None
    } else if component(entries[0].name) == wanted {
        Some(entries[0])
    } else {
        first_named(entries.skip(1), wanted)
    }
}

/// The entry that the components `path` lead to from `cur`.
pub open spec fn walk(volume: Seq<u8>, cur: EntryView, path: Seq<Seq<u8>>) -> Option<EntryView>
    decreases path.len(),
{
    if path.len() == 0 {
        Some(cur)
    } else {
        match listing(volume, cur) {
            Some(entries) => match first_named(entries, path[0]) {
                Some(e) => walk(volume, e, path.skip(1)),
                None => None,
            },
            None => None,
        }
    }
}

/// The components of a path as they are compared, empty ones left out.
pub open spec fn components(parts: Seq<Seq<u8>>) -> Seq<Seq<u8>>
    decreases parts.len(),
{
    if parts.len() == 0 {
        Seq::<Seq<u8>>::empty()
    } else if parts.last().len() == 0 {
        components(parts.drop_last())
    } else {
        components(parts.drop_last()).push(component(parts.last()))
    }
}

/// What a path leads to from the directory `root`.
pub open spec fn lookup(volume: Seq<u8>, root: EntryView, path: Seq<u8>) -> Option<EntryView> {
    walk(volume, root, components(pieces(path, 47)))
}

pub open spec fn entry_views(v: Seq<IsoEntry>) -> Seq<EntryView> {
    v.map_values(|e: IsoEntry| e@)
}

/// Whether `m` holds the attributes of the entry `e`.
pub open spec fn describes(m: Metadata, e: EntryView) -> bool {
    &&& m.ino == e.extent
    &&& m.uid == 0
    &&& m.gid == 0
    &&& m.name@ == e.name
    &&& m.file_type == if e.dir() {
        FileType::Dir
    } else {
        FileType::File
    }
    &&& m.mode == if e.dir() {
        0o040555u16
    } else {
        0o100444u16
    }
    &&& m.size == e.size
    &&& m.created_time == 0
    &&& m.access_time == 0
    &&& m.modified_time == 0
}

/// A mounted volume.
pub struct Iso9660Fs<D: BlockDeviceIO> {
    pub device: D,
    pub root: IsoEntry,
}

/// What is wrong with the volume descriptors from block `lba` on, if anything:
/// they end with a terminator or with the 32nd block.
pub open spec fn descriptor_fault(volume: Seq<u8>, lba: int) -> Option<&'static str>
    decreases 48 - lba,
{
    if lba >= 48 {
        None
    } else if (lba + 1) * 2048 > volume.len() {
        Some("failed to read ISO9660 volume descriptors")
    } else if volume.subrange(lba * 2048 + 1, lba * 2048 + 6) != seq![67u8, 68u8, 48u8, 48u8, 49u8] {
        Some("malformed ISO9660 volume descriptor")
    } else if volume[lba * 2048] == 2 {
        Some("Joliet and supplementary volumes are unsupported")
    } else if volume[lba * 2048] == 255 {
        None
    } else {
        descriptor_fault(volume, lba + 1)
    }
}

/// The root directory of a volume, or why there is none.
pub open spec fn probed(volume: Seq<u8>) -> Result<EntryView, &'static str> {
    if volume.len() < 34816 {
        Err("failed to read ISO9660 primary volume descriptor")
    } else {
        let pvd = volume.subrange(32768, 34816);
        if pvd[0] != 1 || pvd.subrange(1, 6) != seq![67u8, 68u8, 48u8, 48u8, 49u8] || pvd[6] != 1 {
            Err("ISO9660 primary volume descriptor not found")
        } else if descriptor_fault(volume, 17) is Some {
            Err(descriptor_fault(volume, 17)->0)
        } else if le_value(pvd.subrange(128, 130)) != 2048 {
            Err("unsupported ISO9660 logical block size")
        } else {
            match record_at(pvd.skip(156)) {
                None => Err("invalid ISO9660 root directory"),
                Some(root) => if root.dir() {
                    Ok(root)
                } else {
                    Err("ISO9660 root record is not a directory")
                },
            }
        }
    }
}

/// Whether the five bytes from `at` on are the standard identifier.
fn has_identifier(block: &[u8], at: usize) -> (r: bool)
    requires
        at + 5 <= block@.len(),
    ensures
        r == (block@.subrange(at as int, at + 5) == seq![67u8, 68u8, 48u8, 48u8, 49u8]),
{
    let _len: usize = block.len();
    let id: Vec<u8> = cut(block, at, at + 5);
    let want: Vec<u8> = vec![67u8, 68u8, 48u8, 48u8, 49u8];
    proof {
        assert(want@ =~= seq![67u8, 68u8, 48u8, 48u8, 49u8]);
    }
    same(&id, &want)
}

impl<D: BlockDeviceIO> Iso9660Fs<D> {
    /// Mounts the volume on `device`.
    pub fn probe(device: D) -> (r: Result<Self, &'static str>)
        requires
            device.wf(),
        ensures
            match r {
                Ok(fs) => probed(device.bytes()) == Ok::<EntryView, &'static str>(fs.root@)
                    && same_device(&device, &fs.device),
                Err(m) => probed(device.bytes()) == Err::<EntryView, &'static str>(m) || (
                !device.serves() && (m == "failed to read ISO9660 primary volume descriptor" || m
                    == "failed to read ISO9660 volume descriptors")),
            },
    {
        let mut dev: D = device;
        let ghost volume = dev.bytes();
        let pvd: Vec<u8> = match read_range(&mut dev, 32768, ISO_BLOCK_SIZE) {
            Ok(v) => v,
            Err(_) => return Err("failed to read ISO9660 primary volume descriptor"),
        };
        proof {
            assert(pvd@ == volume.subrange(32768, 34816));
        }
        let id: bool = has_identifier(&pvd, 1);
        if pvd[0] != 1 || !id || pvd[6] != 1 {
            return Err("ISO9660 primary volume descriptor not found");
        }
        let mut lba: u64 = 17;
        let mut ended: bool = false;
        while lba < 48 && !ended
            invariant
                17 <= lba <= 48,
                volume == device.bytes(),
                volume.len() >= 34816,
                same_device(&device, &dev),
                dev.wf(),
                !ended ==> descriptor_fault(volume, 17) == descriptor_fault(volume, lba as int),
                ended ==> descriptor_fault(volume, 17) is None,
                pvd@ == volume.subrange(32768, 34816),
                pvd@[0] == 1,
                pvd@.subrange(1, 6) == seq![67u8, 68u8, 48u8, 48u8, 49u8],
                pvd@[6] == 1,
            decreases 49 - lba - if ended { 1int } else { 0int },
        {
            let descriptor: Vec<u8> = match read_range(&mut dev, lba * 2048, ISO_BLOCK_SIZE) {
                Ok(v) => v,
                Err(_) => return Err("failed to read ISO9660 volume descriptors"),
            };
            proof {
                assert(descriptor@ == volume.subrange(lba * 2048, (lba + 1) * 2048));
                assert(descriptor@.subrange(1, 6) =~= volume.subrange(lba * 2048 + 1, lba * 2048 + 6));
                assert(descriptor@[0] == volume[lba * 2048]);
            }
            if !has_identifier(&descriptor, 1) {
                return Err("malformed ISO9660 volume descriptor");
            }
            if descriptor[0] == 2 {
                return Err("Joliet and supplementary volumes are unsupported");
            }
            if descriptor[0] == 255 {
                ended = true;
            } else {
                lba = lba + 1;
            }
        }
        let logical_block_size: u16 = read_u16(&pvd, 128);
        if logical_block_size as usize != ISO_BLOCK_SIZE {
            return Err("unsupported ISO9660 logical block size");
        }
        let root_bytes: Vec<u8> = cut(&pvd, 156, 2048);
        proof {
            assert(root_bytes@ =~= pvd@.skip(156));
        }
        let root: IsoEntry = match parse_record(&root_bytes) {
            Some(e) => e,
            None => return Err("invalid ISO9660 root directory"),
        };
        if !root.is_dir() {
            return Err("ISO9660 root record is not a directory");
        }
        Ok(Iso9660Fs { device: dev, root })
    }

    /// The entries of a directory.
    pub fn read_directory(&mut self, dir: &IsoEntry) -> (r: Result<Vec<IsoEntry>, ()>)
        requires
            old(self).device.wf(),
        ensures
            same_device(&old(self).device, &final(self).device),
            final(self).root == old(self).root,
            match r {
                Ok(v) => listing(old(self).device.bytes(), dir@) == Some(entry_views(v@)),
                Err(_) => listing(old(self).device.bytes(), dir@) is None || !old(
                    self,
                ).device.serves(),
            },
    {
        if !dir.is_dir() {
            return Err(());
        }
        let ghost volume = self.device.bytes();
        let bytes: Vec<u8> = match read_range(
            &mut self.device,
            dir.extent as u64 * 2048,
            dir.size as usize,
        ) {
            Ok(v) => v,
            Err(_) => return Err(()),
        };
        let mut entries: Vec<IsoEntry> = Vec::new();
        let mut offset: usize = 0;
        let ghost whole = records(bytes@, 0);
        proof {
            assert(entry_views(entries@) =~= Seq::<EntryView>::empty());
            if whole is Some {
                assert(entry_views(entries@) + whole->0 =~= whole->0);
            }
            assert(dir.size == 0 ==> whole == Some(Seq::<EntryView>::empty()));
            assert(whole == listing(volume, dir@));
        }
        while offset < bytes.len()
            invariant
                bytes@.len() == dir.size,
                same_device(&old(self).device, &self.device),
                self.root == old(self).root,
                whole == listing(old(self).device.bytes(), dir@),
                whole is None <==> records(bytes@, offset as int) is None,
                whole is Some ==> whole->0 == entry_views(entries@) + records(
                    bytes@,
                    offset as int,
                )->0,
            decreases bytes@.len() - offset,
        {
            let record_len: usize = bytes[offset] as usize;
            if record_len == 0 {
                let next: u64 = (offset as u64 / 2048 + 1) * 2048;
                if next >= bytes.len() as u64 {
                    proof {
                        assert(records(bytes@, next as int) == Some(Seq::<EntryView>::empty()));
                    }
                    offset = bytes.len();
                    proof {
                        assert(records(bytes@, offset as int) == Some(Seq::<EntryView>::empty()));
                    }
                } else {
                    offset = next as usize;
                }
                continue;
            }
            if record_len > bytes.len() - offset {
                return Err(());
            }
            let raw: Vec<u8> = cut(&bytes, offset, offset + record_len);
            let record: IsoEntry = match parse_record(&raw) {
                Some(e) => e,
                None => return Err(()),
            };
            if record.flags & FLAG_MULTI_EXTENT != 0 {
                return Err(());
            }
            let dot: bool = record.name.len() == 1 && record.name[0] == 46;
            let dotdot: bool = record.name.len() == 2 && record.name[0] == 46 && record.name[1]
                == 46;
            proof {
                let n = record.name@;
                assert(dot == (n == seq![46u8])) by {
                    assert(seq![46u8][0] == 46u8);
                    if dot {
                        assert(n =~= seq![46u8]);
                    }
                }
                assert(dotdot == (n == seq![46u8, 46u8])) by {
                    assert(seq![46u8, 46u8][0] == 46u8 && seq![46u8, 46u8][1] == 46u8);
                    if dotdot {
                        assert(n =~= seq![46u8, 46u8]);
                    }
                }
            }
            let ghost before = entries@;
            let ghost rest = records(bytes@, offset + record_len);
            if !dot && !dotdot {
                let ghost e = record@;
                entries.push(record);
                proof {
                    assert(entry_views(entries@) =~= entry_views(before).push(e));
                    if rest is Some {
                        assert(entry_views(entries@) + rest->0 =~= entry_views(before) + (seq![e]
                            + rest->0));
                    }
                }
            }
            offset = offset + record_len;
        }
        proof {
            if whole is Some {
                assert(entry_views(entries@) + Seq::<EntryView>::empty() =~= entry_views(entries@));
            }
        }
        Ok(entries)
    }

    /// The entry that `path` names, letter case and versions aside.
    pub fn find_entry(&mut self, path: &[u8]) -> (r: Result<IsoEntry, ()>)
        requires
            old(self).device.wf(),
        ensures
            same_device(&old(self).device, &final(self).device),
            final(self).root == old(self).root,
            match r {
                Ok(e) => lookup(old(self).device.bytes(), old(self).root@, path@) == Some(e@),
                Err(_) => lookup(old(self).device.bytes(), old(self).root@, path@) is None || !old(
                    self,
                ).device.serves(),
            },
    {
        let parts: Vec<Vec<u8>> = split(path, 47);
        let wanted: Vec<Vec<u8>> = compared_components(&parts);
        let mut current: IsoEntry = self.root.copy();
        let mut i: usize = 0;
        let ghost goal = lookup(self.device.bytes(), self.root@, path@);
        proof {
            assert(views(wanted@).skip(0) =~= views(wanted@));
        }
        while i < wanted.len()
            invariant
                i <= wanted@.len(),
                same_device(&old(self).device, &self.device),
                self.device.wf(),
                self.root == old(self).root,
                goal == lookup(old(self).device.bytes(), old(self).root@, path@),
                goal == walk(self.device.bytes(), current@, views(wanted@).skip(i as int)),
            decreases wanted@.len() - i,
        {
            proof {
                assert(views(wanted@).skip(i as int)[0] == wanted@[i as int]@);
                assert(views(wanted@).skip(i as int).skip(1) =~= views(wanted@).skip(i + 1));
            }
            if !current.is_dir() {
                return Err(());
            }
            let entries: Vec<IsoEntry> = match self.read_directory(&current) {
                Ok(v) => v,
                Err(_) => return Err(()),
            };
            match find_named(&entries, &wanted[i]) {
                Some(e) => {
                    current = e;
                },
                None => return Err(()),
            }
            i = i + 1;
        }
        Ok(current)
    }

    /// The attributes of an entry.
    pub fn metadata_for(entry: &IsoEntry) -> (r: Metadata)
        ensures
            describes(r, entry@),
    {
        let is_dir: bool = entry.is_dir();
        Metadata {
            ino: entry.extent,
            uid: 0,
            gid: 0,
            name: to_vec(&entry.name),
            file_type: if is_dir {
                FileType::Dir
            } else {
                FileType::File
            },
            mode: if is_dir {
                0o040555
            } else {
                0o100444
            },
            size: entry.size as usize,
            created_time: 0,
            access_time: 0,
            modified_time: 0,
        }
    }

    /// The attributes of what `path` names, and the node that reads it.
    pub fn open(&mut self, path: &[u8]) -> (r: Result<(Metadata, IsoNode), ()>)
        requires
            old(self).device.wf(),
        ensures
            same_device(&old(self).device, &final(self).device),
            final(self).root == old(self).root,
            match r {
                Ok(m) => lookup(old(self).device.bytes(), old(self).root@, path@) == Some(m.1.entry@)
                    && describes(m.0, m.1.entry@),
                Err(_) => lookup(old(self).device.bytes(), old(self).root@, path@) is None || !old(
                    self,
                ).device.serves(),
            },
    {
        match self.find_entry(path) {
            Ok(entry) => {
                let metadata: Metadata = Self::metadata_for(&entry);
                Ok((metadata, IsoNode { entry }))
            },
            Err(_) => Err(()),
        }
    }

    /// The attributes of what `path` names.
    pub fn metadata(&mut self, path: &[u8]) -> (r: Result<Metadata, ()>)
        requires
            old(self).device.wf(),
        ensures
            same_device(&old(self).device, &final(self).device),
            final(self).root == old(self).root,
            match r {
                Ok(m) => lookup(old(self).device.bytes(), old(self).root@, path@) is Some
                    && describes(m, lookup(old(self).device.bytes(), old(self).root@, path@)->0),
                Err(_) => lookup(old(self).device.bytes(), old(self).root@, path@) is None || !old(
                    self,
                ).device.serves(),
            },
    {
        match self.find_entry(path) {
            Ok(entry) => Ok(Self::metadata_for(&entry)),
            Err(_) => Err(()),
        }
    }

    /// The attributes of the entries of the directory that `path` names.
    pub fn ls(&mut self, path: &[u8]) -> (r: Result<Vec<Metadata>, ()>)
        requires
            old(self).device.wf(),
        ensures
            same_device(&old(self).device, &final(self).device),
            final(self).root == old(self).root,
            ({
                let volume = old(self).device.bytes();
                let dir = lookup(volume, old(self).root@, path@);
                match r {
                    Ok(v) => {
                        &&& dir is Some
                        &&& listing(volume, dir->0) is Some
                        &&& v@.len() == listing(volume, dir->0)->0.len()
                        &&& forall|i: int|
                            0 <= i < v@.len() ==> #[trigger] describes(
                                v@[i],
                                listing(volume, dir->0)->0[i],
                            )
                    },
                    Err(_) => dir is None || listing(volume, dir->0) is None || !old(
                        self,
                    ).device.serves(),
                }
            }),
    {
        let dir: IsoEntry = match self.find_entry(path) {
            Ok(e) => e,
            Err(_) => return Err(()),
        };
        let entries: Vec<IsoEntry> = match self.read_directory(&dir) {
            Ok(v) => v,
            Err(_) => return Err(()),
        };
        let mut out: Vec<Metadata> = Vec::new();
        let mut i: usize = 0;
        while i < entries.len()
            invariant
                i <= entries@.len(),
                out@.len() == i,
                forall|j: int| 0 <= j < i ==> #[trigger] describes(
                    out@[j],
                    entry_views(entries@)[j],
                ),
            decreases entries@.len() - i,
        {
            let m: Metadata = Self::metadata_for(&entries[i]);
            out.push(m);
            proof {
                assert(entry_views(entries@)[i as int] == entries@[i as int]@);
            }
            i = i + 1;
        }
        Ok(out)
    }

    /// The totals of a volume.
    pub fn stats(&self) -> (r: Result<FsStats, ()>)
        ensures
            r == Ok::<FsStats, ()>(
                FsStats {
                    fs_type: 0,
                    block_size: 2048,
                    blocks: 0,
                    blocks_free: 0,
                    blocks_available: 0,
                    files: 0,
                    files_free: 0,
                    name_length: 31,
                    fragment_size: 2048,
                    flags: 1,
                },
            ),
    {
        Ok(
            FsStats {
                fs_type: 0,
                block_size: 2048,
                blocks: 0,
                blocks_free: 0,
                blocks_available: 0,
                files: 0,
                files_free: 0,
                name_length: 31,
                fragment_size: 2048,
                flags: 1,
            },
        )
    }
}

/// The components of a path as they are compared, empty ones left out.
fn compared_components(parts: &Vec<Vec<u8>>) -> (r: Vec<Vec<u8>>)
    ensures
        views(r@) == components(views(parts@)),
{
    let mut out: Vec<Vec<u8>> = Vec::new();
    let mut i: usize = 0;
    proof {
        assert(views(out@) =~= components(views(parts@).take(0)));
    }
    while i < parts.len()
        invariant
            i <= parts@.len(),
            views(out@) == components(views(parts@).take(i as int)),
        decreases parts@.len() - i,
    {
        let ghost before = out@;
        proof {
            let t = views(parts@).take(i + 1);
            assert(t.last() == parts@[i as int]@);
            assert(t.drop_last() =~= views(parts@).take(i as int));
        }
        if parts[i].len() != 0 {
            let c: Vec<u8> = normalize_component(&parts[i]);
            out.push(c);
            proof {
                assert(views(out@) =~= views(before).push(c@));
            }
        }
        i = i + 1;
    }
    proof {
        assert(views(parts@).take(i as int) =~= views(parts@));
    }
    out
}

/// The first entry whose name compares equal to `wanted`.
fn find_named(entries: &Vec<IsoEntry>, wanted: &Vec<u8>) -> (r: Option<IsoEntry>)
    ensures
        opt_view(r) == first_named(entry_views(entries@), wanted@),
{
    let mut i: usize = 0;
    proof {
        assert(entry_views(entries@).skip(0) =~= entry_views(entries@));
    }
    while i < entries.len()
        invariant
            i <= entries@.len(),
            first_named(entry_views(entries@), wanted@) == first_named(
                entry_views(entries@).skip(i as int),
                wanted@,
            ),
        decreases entries@.len() - i,
    {
        proof {
            assert(entry_views(entries@).skip(i as int)[0] == entries@[i as int]@);
            assert(entry_views(entries@).skip(i as int).skip(1) =~= entry_views(entries@).skip(
                i + 1,
            ));
        }
        let name: Vec<u8> = normalize_component(&entries[i].name);
        if same(&name, wanted) {
            return Some(entries[i].copy());
        }
        i = i + 1;
    }
    None
}

/// An open file or directory of a volume.
pub struct IsoNode {
    pub entry: IsoEntry,
}

impl IsoNode {
    /// Reads from byte `offset` of the file on, as much as there is and as `out`
    /// takes.
    pub fn read<D: BlockDeviceIO>(&self, device: &mut D, offset: usize, out: &mut [u8]) -> (r: Result<
        usize,
        (),
    >)
        requires
            old(device).wf(),
        ensures
            same_device(old(device), final(device)),
            final(out)@.len() == old(out)@.len(),
            ({
                let e = self.entry@;
                let n = read_len(e, offset as int, old(out)@.len() as int);
                let at = read_from(e, offset as int);
                match r {
                    Ok(k) => {
                        &&& !e.dir()
                        &&& k == n
                        &&& n > 0 ==> at + n <= old(device).bytes().len() && final(out)@ == old(
                            device,
                        ).bytes().subrange(at, at + n) + old(out)@.skip(n)
                        &&& n == 0 ==> final(out)@ == old(out)@
                    },
                    Err(_) => if e.dir() {
                        final(out)@ == old(out)@
                    } else {
                        n > 0 && !(old(device).serves() && at + n <= old(device).bytes().len())
                    },
                }
            }),
    {
        if self.entry.is_dir() {
            return Err(());
        }
        if offset as u64 >= self.entry.size as u64 {
            return Ok(0);
        }
        let left: usize = self.entry.size as usize - offset;
        let count: usize = if out.len() < left {
            out.len()
        } else {
            left
        };
        let data: Vec<u8> = match read_range(
            device,
            self.entry.extent as u64 * 2048 + offset as u64,
            count,
        ) {
            Ok(v) => v,
            Err(_) => return Err(()),
        };
        let mut i: usize = 0;
        let ghost before = out@;
        while i < count
            invariant
                i <= count == data@.len() <= before.len() == out@.len(),
                out@ == data@.take(i as int) + before.skip(i as int),
            decreases count - i,
        {
            out[i] = data[i];
            i = i + 1;
            proof {
                assert(out@ =~= data@.take(i as int) + before.skip(i as int));
            }
        }
        proof {
            assert(data@.take(count as int) =~= data@);
        }
        Ok(count)
    }
}

/// Normalising a component a second time changes nothing.
pub proof fn lemma_component_idempotent(name: Seq<u8>)
    ensures
        component(component(name)) == component(name),
{
    let base = name.take(first_pos(name, 59));
    lemma_first_pos_is(name, 59);
    let t = trim_end_spec(base, 46);
    lemma_trim_end(base, 46);
    let c = upper(t);
    assert forall|i: int| 0 <= i < c.len() implies c[i] != 59 by {
        assert(c[i] == upper_byte(t[i]));
        assert(t[i] == base[i] && base[i] == name[i]);
    }
    lemma_first_pos(c, 59, c.len() as int);
    assert(c.take(c.len() as int) =~= c);
    if c.len() > 0 {
        assert(c.last() == upper_byte(t.last()));
    }
    assert(trim_end_spec(c, 46) == c);
    assert(upper(c) =~= c) by {
        assert forall|i: int| 0 <= i < c.len() implies upper(c)[i] == c[i] by {
            assert(c[i] == upper_byte(t[i]));
        }
    }
}

proof fn lemma_trim_end(s: Seq<u8>, b: u8)
    ensures
        trim_end_spec(s, b).len() <= s.len(),
        trim_end_spec(s, b) == s.take(trim_end_spec(s, b).len() as int),
        trim_end_spec(s, b).len() > 0 ==> trim_end_spec(s, b).last() != b,
    decreases s.len(),
{
    if s.len() > 0 && s.last() == b {
        lemma_trim_end(s.drop_last(), b);
        let t = trim_end_spec(s.drop_last(), b);
        assert(s.drop_last().take(t.len() as int) =~= s.take(t.len() as int));
    } else {
        assert(s.take(s.len() as int) =~= s);
    }
}

/// A device in memory of its own.
pub fn boxed_device<D: BlockDeviceIO>(device: D) -> (r: Box<D>)
    ensures
        *r == device,
{
    Box::new(device)
}

impl<D: BlockDeviceIO> Iso9660Fs<D> {
    /// Nothing on an optical disk can be changed.
    pub fn mkdir(&mut self, _parent_dir: &[u8], _path: &[u8], _mode: u16) -> (r: Result<(), ()>)
        ensures
            r is Err,
            *final(self) == *old(self),
    {
        Err(())
    }

    pub fn rmdir(&mut self, _path: &[u8]) -> (r: Result<(), ()>)
        ensures
            r is Err,
            *final(self) == *old(self),
    {
        Err(())
    }

    pub fn rm(&mut self, _path: &[u8]) -> (r: Result<(), ()>)
        ensures
            r is Err,
            *final(self) == *old(self),
    {
        Err(())
    }

    pub fn touch(&mut self, _parent_path: &[u8], _filename: &[u8], _mode: u16) -> (r: Result<(), ()>)
        ensures
            r is Err,
            *final(self) == *old(self),
    {
        Err(())
    }
}

} // verus!
