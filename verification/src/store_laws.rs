//! What holds of files in memory, of mounts, of partitions, of disks and of optical volumes.

use crate::block::{lemma_splice, splice, BlockDeviceIO};
use crate::bytes::{
    has_prefix, le_digits, le_value, lemma_le_digits_len, lemma_le_round_trip, pieces, pow256,
};
use crate::disk::{disk_ioctl, read_result, size_of_disk, write_result, IoctlReply};
use crate::fs::spelled;
use crate::iso9660::{
    component, components, describes, descriptor_fault, first_named, listing, lookup, probed,
    read_from, read_len, record_at, records, walk, EntryView,
};
use crate::memfd::{byte_read, count_at, pages_for, put_at, resized};
use crate::partition::{first_of_kind, partition_in, PartitionEntry};
use crate::syscall::path_laws::{lemma_one_piece, lemma_pieces_meet};
use crate::vfs::{
    below, blk_meta, chr_meta, dir_meta, longest_first, mount_pos, mounted, serves_path, FileType,
    Metadata, MountView,
};
use vstd::prelude::*;

verus! {

/// A file that was cut or grown has the length that was asked for: it holds what it did as far
/// as that goes, and zeros behind it.
pub proof fn lemma_resized(s: Seq<u8>, n: int, k: int)
    requires
        0 <= k < n,
    ensures
        resized(s, n).len() == n,
        k < s.len() ==> resized(s, n)[k] == s[k],
        k >= s.len() ==> resized(s, n)[k] == 0,
{
}

/// A write changes no byte of a file that it is not for; between the old end and the place of
/// the write there are zeros.
pub proof fn lemma_write_keeps_others(v: Seq<u8>, offset: int, data: Seq<u8>, k: int)
    requires
        0 <= offset,
        data.len() > 0,
    ensures
        ({
            let end = offset + data.len();
            let w = put_at(v, offset, data);
            &&& w.len() == if end > v.len() {
                end
            } else {
                v.len() as int
            }
            &&& 0 <= k < v.len() && (k < offset || k >= end) ==> w[k] == v[k]
            &&& v.len() <= k < offset ==> w[k] == 0
            &&& offset <= k < end ==> w[k] == data[k - offset]
        }),
{
    let end = offset + data.len();
    let r = resized(
        v,
        if end > v.len() {
            end
        } else {
            v.len() as int
        },
    );
    lemma_splice(r, offset, data);
    let w = splice(r, offset, data);
    if offset <= k < end {
        assert(w.subrange(offset, end)[k - offset] == w[k]);
    }
}

/// A file has no more pages than its bytes need.
pub proof fn lemma_pages_needed(len: int)
    requires
        0 <= len,
    ensures
        pages_for(len) * 4096 >= len,
        pages_for(len) * 4096 < len + 4096,
{
}

/// A file system that is mounted is there beside the others, and they keep their order, by
/// which longer prefixes come first.
pub proof fn lemma_mount_adds(s: Seq<MountView>, m: MountView)
    requires
        longest_first(s),
    ensures
        mounted(s, m).len() == s.len() + 1,
        longest_first(mounted(s, m)),
        exists|k: int|
            0 <= k <= s.len() && #[trigger] mounted(s, m)[k] == m && mounted(s, m).remove(k) == s && (
            forall|i: int| 0 <= i < k ==> (#[trigger] s[i]).prefix.len() >= m.prefix.len()),
    decreases s.len(),
{
    let all = mounted(s, m);
    if s.len() > 0 && s.last().prefix.len() < m.prefix.len() {
        let front = s.drop_last();
        assert forall|i: int, j: int| 0 <= i < j < front.len() implies (#[trigger] front[i]).prefix.len()
            >= (#[trigger] front[j]).prefix.len() by {
            assert(s[i].prefix.len() >= s[j].prefix.len());
        }
        lemma_mount_adds(front, m);
        let part = mounted(front, m);
        let k = choose|k: int|
            0 <= k <= front.len() && #[trigger] part[k] == m && part.remove(k) == front && (forall|
                i: int,
            |
                0 <= i < k ==> (#[trigger] front[i]).prefix.len() >= m.prefix.len());
        assert(all == part.push(s.last()));
        assert(all[k] == m);
        assert(all.remove(k) =~= s) by {
            assert forall|i: int| 0 <= i < s.len() implies all.remove(k)[i] == s[i] by {
                if i < front.len() {
                    assert(part.remove(k)[i] == front[i]);
                }
            }
        }
        assert forall|i: int| 0 <= i < k implies (#[trigger] s[i]).prefix.len() >= m.prefix.len() by {
            assert(front[i] == s[i]);
        }
        assert forall|i: int, j: int| 0 <= i < j < all.len() implies (#[trigger] all[i]).prefix.len() >= (
        #[trigger] all[j]).prefix.len() by {
            if j < part.len() {
                assert(part[i].prefix.len() >= part[j].prefix.len());
            } else {
                if i < k {
                    assert(part.remove(k)[i] == front[i]);
                    assert(s[i].prefix.len() >= s[s.len() - 1].prefix.len());
                } else if i > k {
                    assert(part.remove(k)[i - 1] == front[i - 1]);
                    assert(s[i - 1].prefix.len() >= s[s.len() - 1].prefix.len());
                }
            }
        }
    } else {
        let k = s.len() as int;
        assert(all[k] == m);
        assert(all.remove(k) =~= s);
        assert forall|i: int| 0 <= i < k implies (#[trigger] s[i]).prefix.len() >= m.prefix.len() by {
            if i < s.len() - 1 {
                assert(s[i].prefix.len() >= s[s.len() - 1].prefix.len());
            }
        }
        assert forall|i: int, j: int| 0 <= i < j < all.len() implies (#[trigger] all[i]).prefix.len() >= (
        #[trigger] all[j]).prefix.len() by {
            if j < s.len() {
                assert(s[i].prefix.len() >= s[j].prefix.len());
            } else {
                assert(s[i].prefix.len() >= m.prefix.len());
            }
        }
    }
}

/// A path below a mount point is the path of the mount point and what is left of it there; the
/// mount point itself is the root there.
pub proof fn lemma_below(path: Seq<u8>, m: MountView)
    requires
        has_prefix(path, m.prefix),
    ensures
        serves_path(m, path),
        path.len() > m.prefix.len() ==> m.prefix + below(path, m.prefix) == path,
        path.len() == m.prefix.len() ==> below(path, m.prefix) == seq![47u8],
{
    if path.len() > m.prefix.len() {
        assert(m.prefix + below(path, m.prefix) =~= path);
    }
}

/// A path goes to no file system whose mount point it does not start with, but that a dot is
/// the root.
pub proof fn lemma_not_served(path: Seq<u8>, m: MountView)
    requires
        serves_path(m, path),
        path != seq![46u8],
    ensures
        has_prefix(path, m.prefix),
{
}

/// The mount point that is found by its prefix is the first one that has it.
pub proof fn lemma_mount_found(s: Seq<MountView>, prefix: Seq<u8>)
    ensures
        0 <= mount_pos(s, prefix) <= s.len(),
        mount_pos(s, prefix) < s.len() ==> s[mount_pos(s, prefix)].prefix == prefix,
        forall|i: int| 0 <= i < mount_pos(s, prefix) ==> (#[trigger] s[i]).prefix != prefix,
    decreases s.len(),
{
    if s.len() > 0 && s[0].prefix != prefix {
        lemma_mount_found(s.skip(1), prefix);
        assert forall|i: int| 0 <= i < mount_pos(s, prefix) implies (#[trigger] s[i]).prefix
            != prefix by {
            if i > 0 {
                assert(s.skip(1)[i - 1] == s[i]);
            }
        }
    }
}

/// The partition that is found is the first one of its kind in a table, and one is found where
/// there is one.
pub proof fn lemma_partition_found(es: Seq<PartitionEntry>, kind: u8)
    ensures
        match first_of_kind(es, kind) {
            Some(e) => exists|i: int|
                0 <= i < es.len() && #[trigger] es[i] == e && e.kind == kind && (forall|j: int|
                    0 <= j < i ==> (#[trigger] es[j]).kind != kind),
            None => forall|j: int| 0 <= j < es.len() ==> (#[trigger] es[j]).kind != kind,
        },
    decreases es.len(),
{
    if es.len() > 0 {
        let rest = es.skip(1);
        if es[0].kind == kind {
            assert(es[0] == es[0]);
        } else {
            lemma_partition_found(rest, kind);
            match first_of_kind(es, kind) {
                Some(e) => {
                    let i = choose|i: int|
                        0 <= i < rest.len() && #[trigger] rest[i] == e && e.kind == kind && (forall|j: int|
                            0 <= j < i ==> (#[trigger] rest[j]).kind != kind);
                    assert(es[i + 1] == e);
                    assert forall|j: int| 0 <= j < i + 1 implies (#[trigger] es[j]).kind != kind by {
                        if j > 0 {
                            assert(rest[j - 1] == es[j]);
                        }
                    }
                },
                None => {
                    assert forall|j: int| 0 <= j < es.len() implies (#[trigger] es[j]).kind != kind by {
                        if j > 0 {
                            assert(rest[j - 1] == es[j]);
                        }
                    }
                },
            }
        }
    }
}

/// A sector without the mark of a table names no partition.
pub proof fn lemma_unmarked_sector(sector: Seq<u8>, kind: u8)
    requires
        sector.len() != 512 || sector[510] != 0x55 || sector[511] != 0xAA,
    ensures
        partition_in(sector, kind) is None,
{
}

/// What is read from a disk is what it holds there, as far as it goes; behind that the buffer is
/// as it was.
pub proof fn lemma_disk_read<D: BlockDeviceIO>(
    dev: &Option<D>,
    offset: int,
    before: Seq<u8>,
    r: Result<usize, ()>,
    after: Seq<u8>,
    k: int,
)
    requires
        read_result(dev, offset, before, r, after),
        r is Ok,
        size_of_disk(dev) is Some,
        0 <= offset,
        0 <= k < before.len(),
        dev->0.bytes().len() == size_of_disk(dev)->0,
    ensures
        ({
            let n = r->Ok_0;
            let size = size_of_disk(dev)->0;
            &&& n <= before.len()
            &&& offset + n <= size || n == 0
            &&& offset < size && offset + before.len() <= size ==> n == before.len()
            &&& offset < size && offset + before.len() > size ==> offset + n == size
            &&& k < n ==> after[k] == dev->0.bytes()[offset + k]
            &&& k >= n ==> after[k] == before[k]
        }),
{
}

/// What was written to a disk is what it holds there then, and the rest of it is as before;
/// nothing is written beyond its end.
pub proof fn lemma_disk_written<D: BlockDeviceIO>(
    before: &Option<D>,
    offset: int,
    data: Seq<u8>,
    r: Result<(), ()>,
    after: &Option<D>,
)
    requires
        write_result(before, offset, data, r, after),
        r is Ok,
        data.len() > 0,
        0 <= offset,
        size_of_disk(before) is Some ==> before->0.bytes().len() == size_of_disk(before)->0,
    ensures
        size_of_disk(before) is Some,
        offset + data.len() <= size_of_disk(before)->0,
        after->0.bytes().len() == before->0.bytes().len(),
        after->0.bytes().subrange(offset, offset + data.len()) == data,
        forall|k: int|
            0 <= k < before->0.bytes().len() && (k < offset || k >= offset + data.len())
                ==> #[trigger] after->0.bytes()[k] == before->0.bytes()[k],
{
    lemma_splice(before->0.bytes(), offset, data);
}

/// A disk tells its size in bytes and in sectors of 512 bytes, and the size of its blocks.
pub proof fn lemma_disk_tells<D: BlockDeviceIO>(dev: &Option<D>, arg: usize)
    requires
        size_of_disk(dev) is Some,
        size_of_disk(dev)->0 <= u64::MAX,
        arg != 0,
    ensures
        disk_ioctl(dev, 0x8008_1272, arg) == IoctlReply::Int64(size_of_disk(dev)->0 as u64),
        disk_ioctl(dev, 0x1260, arg) matches IoctlReply::Int64(n) && n * 512 <= size_of_disk(dev)->0
            < n * 512 + 512,
        dev->0.bs() <= i32::MAX ==> (disk_ioctl(dev, 0x1268, arg) matches IoctlReply::Int32(n) && n
            == dev->0.bs()),
        disk_ioctl(dev, 0x8008_1272, 0) matches IoctlReply::Code(n) && n == -14,
        size_of_disk(dev)->0 == dev->0.bs() * dev->0.count(),
{
}

/// The bytes of a directory record.
pub open spec fn record_bytes(name: Seq<u8>, extent: u32, size: u32, flags: u8) -> Seq<u8> {
    seq![(33 + name.len()) as u8, 0u8] + le_digits(extent as nat, 4) + Seq::new(4, |i: int| 0u8)
        + le_digits(size as nat, 4) + Seq::new(11, |i: int| 0u8) + seq![flags] + Seq::new(
        6,
        |i: int| 0u8,
    ) + seq![name.len() as u8] + name
}

/// A directory record is read back: the name, and where and how large what it names is.
pub proof fn lemma_record_read(name: Seq<u8>, extent: u32, size: u32, flags: u8)
    requires
        0 < name.len() <= 222,
        vstd::utf8::valid_utf8(name),
        name != seq![0u8],
        name != seq![1u8],
    ensures
        record_at(record_bytes(name, extent, size, flags)) == Some(
            EntryView { name, extent, size, flags },
        ),
{
    let r = record_bytes(name, extent, size, flags);
    lemma_le_digits_len(extent as nat, 4);
    lemma_le_digits_len(size as nat, 4);
    reveal_with_fuel(pow256, 5);
    lemma_le_round_trip(extent as nat, 4);
    lemma_le_round_trip(size as nat, 4);
    assert(r.len() == 33 + name.len());
    assert(r.subrange(2, 6) =~= le_digits(extent as nat, 4));
    assert(r.subrange(10, 14) =~= le_digits(size as nat, 4));
    assert(r.subrange(33, 33 + name.len() as int) =~= name);
    assert(r[25] == flags);
    assert(r[32] == name.len());
}

/// Going down a path is going down its first part, and from there its second.
pub proof fn lemma_walk_on(volume: Seq<u8>, cur: EntryView, p: Seq<Seq<u8>>, q: Seq<Seq<u8>>)
    ensures
        walk(volume, cur, p + q) == match walk(volume, cur, p) {
            Some(e) => walk(volume, e, q),
            None => None,
        },
    decreases p.len(),
{
    if p.len() == 0 {
        assert(p + q =~= q);
    } else {
        assert((p + q).skip(1) =~= p.skip(1) + q);
        assert((p + q)[0] == p[0]);
        match listing(volume, cur) {
            Some(entries) => match first_named(entries, p[0]) {
                Some(e) => {
                    lemma_walk_on(volume, e, p.skip(1), q);
                },
                None => {},
            },
            None => {},
        }
    }
}

/// A path with a name behind it leads to the entry of that name in the directory that the path
/// leads to, whatever the case of its letters.
pub proof fn lemma_lookup_child(volume: Seq<u8>, root: EntryView, path: Seq<u8>, name: Seq<u8>)
    requires
        name.len() > 0,
        forall|i: int| 0 <= i < name.len() ==> name[i] != 47,
    ensures
        lookup(volume, root, path + seq![47u8] + name) == match lookup(volume, root, path) {
            Some(d) => match listing(volume, d) {
                Some(entries) => first_named(entries, component(name)),
                None => None,
            },
            None => None,
        },
        lookup(volume, root, Seq::<u8>::empty()) == Some(root),
{
    lemma_pieces_meet(path, name, 47);
    lemma_one_piece(name, 47);
    let ps = pieces(path, 47);
    let all = ps + seq![name];
    assert(all.drop_last() =~= ps);
    assert(all.last() == name);
    assert(components(all) =~= components(ps) + seq![component(name)]);
    lemma_walk_on(volume, root, components(ps), seq![component(name)]);
    let one = seq![component(name)];
    assert(one.skip(1) =~= Seq::<Seq<u8>>::empty());
    reveal_with_fuel(walk, 2);
    let e = Seq::<u8>::empty();
    lemma_one_piece(e, 47);
    assert(seq![e].drop_last() =~= Seq::<Seq<u8>>::empty());
    reveal_with_fuel(components, 2);
    assert(components(seq![e]) =~= Seq::<Seq<u8>>::empty());
}

/// The entry that is found under a name has that name, and none before it has.
pub proof fn lemma_first_named(es: Seq<EntryView>, wanted: Seq<u8>)
    ensures
        match first_named(es, wanted) {
            Some(e) => es.contains(e) && component(e.name) == wanted,
            None => forall|i: int| 0 <= i < es.len() ==> component((#[trigger] es[i]).name) != wanted,
        },
    decreases es.len(),
{
    if es.len() > 0 {
        let rest = es.skip(1);
        if component(es[0].name) == wanted {
            assert(es.contains(es[0]));
        } else {
            lemma_first_named(rest, wanted);
            match first_named(es, wanted) {
                Some(e) => {
                    let i = choose|i: int| 0 <= i < rest.len() && rest[i] == e;
                    assert(es[i + 1] == e);
                },
                None => {
                    assert forall|i: int| 0 <= i < es.len() implies component((#[trigger] es[i]).name)
                        != wanted by {
                        if i > 0 {
                            assert(rest[i - 1] == es[i]);
                        }
                    }
                },
            }
        }
    }
}

/// What is told of an entry of an optical volume: its name and its size, whether it is a
/// directory, and that all may read it and none may write it.
pub proof fn lemma_entry_described(m: Metadata, e: EntryView)
    requires
        describes(m, e),
    ensures
        m.size == e.size,
        m.name@ == e.name,
        (m.file_type == FileType::Dir) == (e.flags & 2 != 0),
        m.mode == 16749 || m.mode == 33060,
        m.ino == e.extent,
{
}

/// A file on an optical disk is its bytes from the start of its extent on: a read gives as many of
/// them as there are and as there is room for, and the next read goes on where the last one
/// stopped.
pub proof fn lemma_disc_read(e: EntryView, offset: int, room: int, more: int)
    requires
        0 <= offset,
        0 <= room,
        0 <= more,
    ensures
        0 <= read_len(e, offset, room) <= room,
        offset + read_len(e, offset, room) <= e.size || read_len(e, offset, room) == 0,
        offset + room <= e.size ==> read_len(e, offset, room) == room,
        read_len(e, offset, room) < room ==> offset + read_len(e, offset, room) >= e.size,
        read_from(e, 0) == e.extent * 2048,
        read_from(e, offset + read_len(e, offset, room)) == read_from(e, offset) + read_len(
            e,
            offset,
            room,
        ),
        offset + room <= e.size ==> read_len(e, offset, room) + read_len(e, offset + room, more)
            == read_len(e, offset, room + more),
{
}

/// What was written to a file in memory is what is read there, byte for byte; what stands in front
/// of it is as it was, and the file is as long as it has to be.
pub proof fn lemma_memory_file_read_back(v: Seq<u8>, offset: int, data: Seq<u8>, room: int, i: int)
    requires
        0 <= offset,
        0 <= i < data.len(),
        data.len() <= room,
    ensures
        ({
            let w = put_at(v, offset, data);
            &&& count_at(w, offset, data.len() as int) == data.len()
            &&& byte_read(w, offset, i) == data[i]
            &&& count_at(w, 0, offset + room) == w.len() || w.len() > offset + room
            &&& w.len() == if offset + data.len() > v.len() {
                offset + data.len()
            } else {
                v.len() as int
            }
            &&& forall|k: int| 0 <= k < offset && k < v.len() ==> #[trigger] byte_read(w, 0, k) == v[k]
        }),
{
    let n = if offset + data.len() > v.len() {
        offset + data.len()
    } else {
        v.len() as int
    };
    let grown = resized(v, n);
    assert(put_at(v, offset, data) == splice(grown, offset, data));
}

/// A read at the end of a file gives nothing, and one that ends early ends at the end.
pub proof fn lemma_memory_file_ends(v: Seq<u8>, offset: int, room: int)
    requires
        0 <= offset,
        0 <= room,
    ensures
        0 <= count_at(v, offset, room) <= room,
        offset >= v.len() ==> count_at(v, offset, room) == 0,
        count_at(v, offset, room) < room && offset < v.len() ==> offset + count_at(v, offset, room) == v.len(),
{
}

/// A node that is made up is of the kind that its mode tells: all may enter a directory and use a
/// character device, and only its owner and their group a block device, which is as long as the
/// disk. It belongs to the first user.
pub proof fn lemma_made_up_nodes(ino: u32, name: Seq<u8>, size: usize)
    ensures
        ({
            let (d, c, b) = (dir_meta(ino, name), chr_meta(ino, name), blk_meta(ino, name, size));
            &&& d.file_type == FileType::Dir && d.mode / 0o10000 == 4 && d.mode % 0o10000 == 0o755
            &&& c.file_type == FileType::CharDevice && c.mode / 0o10000 == 2 && c.mode % 0o10000 == 0o666
            &&& b.file_type == FileType::BlockDevice && b.mode / 0o10000 == 6 && b.mode % 0o10000 == 0o660
            &&& d.ino == ino && c.ino == ino && b.ino == ino
            &&& d.name == name && c.name == name && b.name == name
            &&& d.size == 0 && c.size == 0 && b.size == size
            &&& d.uid == 0 && c.uid == 0 && b.uid == 0
            &&& d.gid == 0 && c.gid == 0 && b.gid == 0
            &&& d.modified_time == 0 && c.modified_time == 0 && b.modified_time == 0
        }),
{
}

/// A record in a directory is one of its entries, in front of those that follow it; those of the
/// directory itself and of its parent are left out.
pub proof fn lemma_directory_read(bytes: Seq<u8>, offset: int, name: Seq<u8>, extent: u32, size: u32, flags: u8)
    requires
        0 < name.len() <= 222,
        vstd::utf8::valid_utf8(name),
        name != seq![0u8],
        name != seq![1u8],
        flags & 0x80 == 0,
        0 <= offset,
        offset + 33 + name.len() <= bytes.len(),
        bytes.subrange(offset, offset + 33 + name.len()) == record_bytes(name, extent, size, flags),
    ensures
        match records(bytes, offset + 33 + name.len()) {
            Some(rest) => records(bytes, offset) == Some(
                if name == seq![46u8] || name == seq![46u8, 46u8] {
                    rest
                } else {
                    seq![EntryView { name, extent, size, flags }] + rest
                },
            ),
            None => records(bytes, offset) is None,
        },
{
    let r = record_bytes(name, extent, size, flags);
    lemma_record_read(name, extent, size, flags);
    lemma_le_digits_len(extent as nat, 4);
    lemma_le_digits_len(size as nat, 4);
    assert(bytes.subrange(offset, offset + 33 + name.len())[0] == bytes[offset]);
    assert(r[0] == 33 + name.len());
}

/// A volume that is taken has its descriptor in the seventeenth block: the mark of one, the standard
/// name, the first version and blocks of the usual size; its root is the record in the descriptor,
/// and is a directory.
pub proof fn lemma_volume_taken(volume: Seq<u8>, root: EntryView)
    requires
        probed(volume) == Ok::<EntryView, &'static str>(root),
    ensures
        volume.len() >= 34816,
        volume[32768] == 1,
        spelled(volume.subrange(32769, 32774), "CD001"@),
        volume[32774] == 1,
        le_value(volume.subrange(32896, 32898)) == 2048,
        record_at(volume.subrange(32924, 34816)) == Some(root),
        root.flags & 2 != 0,
{
    reveal_strlit("CD001");
    let pvd = volume.subrange(32768, 34816);
    assert(pvd.subrange(1, 6) =~= volume.subrange(32769, 32774));
    assert(pvd.subrange(128, 130) =~= volume.subrange(32896, 32898));
    assert(pvd.skip(156) =~= volume.subrange(32924, 34816));
}

/// None of the descriptors of a volume that is taken, up to the one that ends them, is one of a
/// supplementary volume.
pub proof fn lemma_no_supplement(volume: Seq<u8>, lba: int, k: int)
    requires
        descriptor_fault(volume, lba) is None,
        0 <= lba <= k < 48,
        forall|j: int| lba <= j < k ==> volume[#[trigger] (j * 2048)] != 255,
    ensures
        volume[k * 2048] != 2,
        volume.len() >= (k + 1) * 2048,
    decreases 48 - lba,
{
    if lba < k {
        assert(volume[lba * 2048] != 255);
        lemma_no_supplement(volume, lba + 1, k);
    }
}

} // verus!
