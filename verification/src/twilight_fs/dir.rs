//! Directories: their entries, what is remembered of them, and how they are read.

use crate::block::BlockDeviceIO;
use crate::bytes::{cut, find, first_pos, is_utf8, le_value, read_u32, same, trim_end_len, trim_end_spec};
use crate::twilight_fs::cache::{
    at_key, dir_at, dir_pos, lemma_dir_pos, DirIndexEntry, IndexView, NameMap,
};
use crate::twilight_fs::fs::{inode_at, valid_ino, Superblock, TwilightFs};
use crate::twilight_fs::inode::{Inode, InodeView};
use crate::twilight_fs::read::on_volume;
use crate::twilight_fs::shared::{dir_set, CacheView};
use crate::twilight_fs::volume::{saturated, to_u32_saturating, FsError};
use crate::vfs::{meta_views, FileType, MetaView, Metadata};
use vstd::prelude::*;

verus! {

/// The number of entries in the blocks that an inode names itself.
pub const DIR_SLOTS: usize = 384;

/// A directory entry.
#[derive(Clone, Copy)]
pub struct DirEntry {
    pub inode: u32,
    pub name: [u8; 60],
}

/// The inode number in entry `k` of a directory block; zero where it is free.
pub open spec fn entry_ino(block: Seq<u8>, k: int) -> u32 {
    le_value(block.subrange(64 * k, 64 * k + 4)) as u32
}

/// The name field of entry `k` of a directory block.
pub open spec fn entry_raw(block: Seq<u8>, k: int) -> Seq<u8> {
    block.subrange(64 * k + 4, 64 * k + 64)
}

/// The text in a name field: empty where it is not UTF-8.
pub open spec fn name_text(raw: Seq<u8>) -> Seq<u8> {
    if vstd::utf8::valid_utf8(raw) {
        trim_end_spec(raw, 0)
    } else {
        Seq::<u8>::empty()
    }
}

/// The name that a name field holds.
pub open spec fn dir_name(raw: Seq<u8>) -> Option<Seq<u8>> {
    if name_text(raw).len() == 0 {
        None
    } else {
        Some(name_text(raw))
    }
}

/// Whether entry `s` of a directory is in use.
pub open spec fn entry_used(blocks: Seq<Seq<u8>>, direct: Seq<u32>, s: int) -> bool {
    direct[s / 32] != 0 && entry_ino(blocks[direct[s / 32] as int], s % 32) != 0
}

/// The names in the first `n` entries of a directory; of two entries with one name
/// the later counts.
pub open spec fn dir_names(blocks: Seq<Seq<u8>>, direct: Seq<u32>, n: int) -> Map<Seq<u8>, u32>
    decreases n,
{
    if n <= 0 {
        Map::<Seq<u8>, u32>::empty()
    } else {
        let front = dir_names(blocks, direct, n - 1);
        let s = n - 1;
        if !entry_used(blocks, direct, s) {
            front
        } else {
            let block = blocks[direct[s / 32] as int];
            match dir_name(entry_raw(block, s % 32)) {
                Some(name) => front.insert(name, entry_ino(block, s % 32)),
                None => front,
            }
        }
    }
}

/// The first free entry among the first `n`, else the number of all entries.
pub open spec fn first_free(blocks: Seq<Seq<u8>>, direct: Seq<u32>, n: int) -> int
    decreases n,
{
    if n <= 0 {
        384
    } else {
        let h = first_free(blocks, direct, n - 1);
        if h == 384 && !entry_used(blocks, direct, n - 1) {
            n - 1
        } else {
            h
        }
    }
}

/// What the blocks of a directory say.
pub open spec fn dir_index(blocks: Seq<Seq<u8>>, direct: Seq<u32>) -> IndexView {
    IndexView {
        names: dir_names(blocks, direct, 384),
        hint: first_free(blocks, direct, 384) as usize,
    }
}

/// What is known of the directory `parent`, or what its blocks say.
pub open spec fn index_of(
    blocks: Seq<Seq<u8>>,
    caches: CacheView,
    parent: u32,
    direct: Seq<u32>,
) -> IndexView {
    match dir_at(caches.dirs, parent) {
        Some(e) => e,
        None => dir_index(blocks, direct),
    }
}

/// What is remembered once the directory `parent` is known.
pub open spec fn dir_known(
    blocks: Seq<Seq<u8>>,
    caches: CacheView,
    parent: u32,
    direct: Seq<u32>,
) -> CacheView {
    match dir_at(caches.dirs, parent) {
        Some(_) => caches,
        None => CacheView {
            dirs: dir_set(caches.dirs, parent, dir_index(blocks, direct)),
            ..caches
        },
    }
}

/// Whether entry `s` of a directory has the name `name`.
pub open spec fn entry_named(
    blocks: Seq<Seq<u8>>,
    direct: Seq<u32>,
    name: Seq<u8>,
    s: int,
) -> bool {
    entry_used(blocks, direct, s) && name_text(
        entry_raw(blocks[direct[s / 32] as int], s % 32),
    ) == name
}

/// Whether `s` is the first entry with the name `name`.
pub open spec fn is_first_named(
    blocks: Seq<Seq<u8>>,
    direct: Seq<u32>,
    name: Seq<u8>,
    s: int,
) -> bool {
    &&& 0 <= s < 384
    &&& entry_named(blocks, direct, name, s)
    &&& forall|t: int| 0 <= t < s ==> !#[trigger] entry_named(blocks, direct, name, t)
}

/// The attributes of the node with the inode `v`.
pub open spec fn node_meta(name: Seq<u8>, ino: u32, v: InodeView) -> MetaView {
    MetaView {
        ino,
        uid: v.uid,
        gid: v.gid,
        name,
        file_type: if v.dir() {
            FileType::Dir
        } else {
            FileType::File
        },
        mode: v.mode,
        size: v.size as usize,
        created_time: saturated(v.created_time),
        access_time: saturated(v.access_time),
        modified_time: saturated(v.modified_time),
    }
}

/// A listing in the making: what is listed, how many bytes of entries were seen,
/// whether an entry with an invalid inode came up, or a zone that is not on the volume, and
/// whether the blocks have ended.
pub struct ListView {
    pub list: Seq<MetaView>,
    pub seen: int,
    pub bad: bool,
    pub lost: bool,
    pub end: bool,
}

/// The listing of a directory after its first `n` entries.
pub open spec fn dir_list(blocks: Seq<Seq<u8>>, sb: Superblock, dir: InodeView, n: int) -> ListView
    decreases n,
{
    if n <= 0 {
        ListView { list: Seq::<MetaView>::empty(), seen: 0, bad: false, lost: false, end: false }
    } else {
        let p = dir_list(blocks, sb, dir, n - 1);
        let s = n - 1;
        let block = blocks[dir.direct[s / 32] as int];
        let ino = entry_ino(block, s % 32);
        let raw = entry_raw(block, s % 32);
        let name = raw.take(first_pos(raw, 0));
        if p.bad || p.lost || p.end {
            p
        } else if dir.direct[s / 32] == 0 {
            ListView { end: true, ..p }
        } else if dir.direct[s / 32] >= blocks.len() {
            ListView { lost: true, ..p }
        } else if p.seen >= dir.size as usize || ino == 0 {
            p
        } else if !valid_ino(sb, ino as int) {
            ListView { bad: true, ..p }
        } else if vstd::utf8::valid_utf8(name) && name.len() > 0 {
            ListView {
                list: p.list.push(node_meta(name, ino, inode_at(blocks, sb, ino as int))),
                seen: p.seen + 64,
                ..p
            }
        } else {
            ListView { seen: p.seen + 64, ..p }
        }
    }
}

/// The entries in use among the first `n` of a directory.
pub open spec fn used_entries(blocks: Seq<Seq<u8>>, direct: Seq<u32>, n: int) -> Seq<(u32, Seq<u8>)>
    decreases n,
{
    if n <= 0 {
        Seq::<(u32, Seq<u8>)>::empty()
    } else {
        let front = used_entries(blocks, direct, n - 1);
        let s = n - 1;
        if entry_used(blocks, direct, s) {
            let block = blocks[direct[s / 32] as int];
            front.push((entry_ino(block, s % 32), entry_raw(block, s % 32)))
        } else {
            front
        }
    }
}

pub open spec fn entry_views(v: Seq<DirEntry>) -> Seq<(u32, Seq<u8>)> {
    v.map_values(|e: DirEntry| (e.inode, e.name@))
}

/// The text in a name field.
pub fn entry_text(raw: &[u8]) -> (r: Vec<u8>)
    ensures
        r@ == name_text(raw@),
{
    if is_utf8(raw) {
        let n: usize = trim_end_len(raw, 0);
        let r: Vec<u8> = cut(raw, 0, n);
        proof {
            assert(r@ =~= raw@.take(n as int));
        }
        r
    } else {
        Vec::new()
    }
}

/// The name that a name field holds.
pub fn decode_dir_name(raw: &[u8]) -> (r: Option<Vec<u8>>)
    ensures
        match r {
            Some(n) => dir_name(raw@) == Some(n@),
            None => dir_name(raw@) is None,
        },
{
    let text: Vec<u8> = entry_text(raw);
    if text.len() == 0 {
        None
    } else {
        Some(text)
    }
}

/// Turns a name field into an array.
fn name_array(raw: &Vec<u8>) -> (r: [u8; 60])
    requires
        raw@.len() == 60,
    ensures
        r@ == raw@,
{
    let mut out: [u8; 60] = [0u8; 60];
    let mut i: usize = 0;
    while i < 60
        invariant
            i <= 60,
            raw@.len() == 60,
            forall|k: int| 0 <= k < i ==> out@[k] == raw@[k],
        decreases 60 - i,
    {
        out[i] = raw[i];
        i = i + 1;
    }
    proof {
        assert(out@ =~= raw@);
    }
    out
}

impl<D: BlockDeviceIO> TwilightFs<D> {
    /// Reads what the blocks of a directory say.
    fn build_dir_index_entry(&mut self, parent_inode: &Inode) -> (res: Result<DirIndexEntry, FsError>)
        requires
            old(self).wf(),
        ensures
            final(self).wf(),
            final(self).same_but_blocks(old(self)),
            final(self).blocks() == old(self).blocks(),
            match res {
                Ok(e) => e@ == dir_index(old(self).blocks(), parent_inode@.direct) && on_volume(
                    old(self).blocks(),
                    parent_inode@.direct,
                ),
                Err(e) => e == FsError::InvalidInode && !(old(self).serves() && on_volume(
                    old(self).blocks(),
                    parent_inode@.direct,
                )),
            },
    {
        let ghost blocks = self.blocks();
        let ghost direct = parent_inode@.direct;
        let mut names: NameMap = NameMap::new();
        let mut hint: usize = DIR_SLOTS;
        let mut b: usize = 0;
        while b < 12
            invariant
                self.wf(),
                self.same_but_blocks(old(self)),
                blocks == old(self).blocks(),
                self.blocks() == blocks,
                direct == parent_inode@.direct,
                b <= 12,
                names@ == dir_names(blocks, direct, 32 * b),
                hint == first_free(blocks, direct, 32 * b),
                forall|i: int| 0 <= i < b ==> #[trigger] direct[i] < blocks.len(),
            decreases 12 - b,
        {
            let zone: u32 = parent_inode.direct_slot_get(b);
            if zone == 0 {
                proof {
                    lemma_no_zone(blocks, direct, b as int, 32);
                }
                if hint == DIR_SLOTS {
                    hint = 32 * b;
                }
            } else {
                let buf: Vec<u8> = match self.get_block(zone) {
                    Ok(x) => x,
                    Err(e) => return Err(e),
                };
                let mut k: usize = 0;
                while k < 32
                    invariant
                        direct[b as int] == zone,
                        zone != 0,
                        buf@ == blocks[zone as int],
                        buf@.len() == 2048,
                        b < 12,
                        k <= 32,
                        names@ == dir_names(blocks, direct, 32 * b + k),
                        hint == first_free(blocks, direct, 32 * b + k),
                    decreases 32 - k,
                {
                    let ino: u32 = read_u32(&buf, 64 * k);
                    proof {
                        let s = 32 * b + k;
                        assert(s / 32 == b && s % 32 == k);
                    }
                    if ino == 0 {
                        if hint == DIR_SLOTS {
                            hint = 32 * b + k;
                        }
                    } else {
                        let raw: Vec<u8> = cut(&buf, 64 * k + 4, 64 * k + 64);
                        match decode_dir_name(&raw) {
                            Some(name) => names.insert(name, ino),
                            None => {},
                        }
                    }
                    k = k + 1;
                }
            }
            b = b + 1;
        }
        Ok(DirIndexEntry { names, next_free_slot_hint: hint })
    }

    /// What is known of a directory; it is read where nothing is.
    pub(crate) fn ensure_dir_index_entry(
        &mut self,
        parent_inode_num: u32,
        parent_inode: &Inode,
    ) -> (res: Result<DirIndexEntry, FsError>)
        requires
            old(self).wf(),
        ensures
            final(self).wf(),
            final(self).same_volume(old(self)),
            final(self).blocks() == old(self).blocks(),
            final(self).shared.generation == old(self).shared.generation,
            match res {
                Ok(e) => {
                    &&& e@ == index_of(
                        old(self).blocks(),
                        old(self).shared@,
                        parent_inode_num,
                        parent_inode@.direct,
                    )
                    &&& final(self).shared@ == dir_known(
                        old(self).blocks(),
                        old(self).shared@,
                        parent_inode_num,
                        parent_inode@.direct,
                    )
                    &&& dir_at(old(self).shared@.dirs, parent_inode_num) is Some || on_volume(
                        old(self).blocks(),
                        parent_inode@.direct,
                    )
                },
                Err(e) => {
                    &&& e == FsError::InvalidInode
                    &&& final(self).shared@ == old(self).shared@
                    &&& dir_at(old(self).shared@.dirs, parent_inode_num) is None
                    &&& !(old(self).serves() && on_volume(
                        old(self).blocks(),
                        parent_inode@.direct,
                    ))
                },
            },
    {
        match self.shared.dir_index_get(parent_inode_num) {
            Some(e) => return Ok(e),
            None => {},
        }
        match self.build_dir_index_entry(parent_inode) {
            Ok(e) => {
                self.shared.dir_index_set(parent_inode_num, e.copy());
                Ok(e)
            },
            Err(e) => Err(e),
        }
    }

    /// The entries of a directory that are in use.
    pub fn read_dir_entries(&mut self, inode: &Inode) -> (res: Result<Vec<DirEntry>, &'static str>)
        requires
            old(self).wf(),
        ensures
            final(self).wf(),
            final(self).same_but_blocks(old(self)),
            final(self).blocks() == old(self).blocks(),
            match res {
                Ok(v) => entry_views(v@) == used_entries(old(self).blocks(), inode@.direct, 384)
                    && on_volume(old(self).blocks(), inode@.direct),
                Err(m) => m == "Failed to read block" && !(old(self).serves() && on_volume(
                    old(self).blocks(),
                    inode@.direct,
                )),
            },
    {
        let ghost blocks = self.blocks();
        let ghost direct = inode@.direct;
        let mut out: Vec<DirEntry> = Vec::new();
        let mut b: usize = 0;
        proof {
            self.lemma_block_len();
            assert(entry_views(out@) =~= Seq::<(u32, Seq<u8>)>::empty());
        }
        while b < 12
            invariant
                self.wf(),
                self.same_but_blocks(old(self)),
                blocks == old(self).blocks(),
                self.blocks() == blocks,
                direct == inode@.direct,
                direct.len() == 12,
                blocks.len() > 0,
                b <= 12,
                entry_views(out@) == used_entries(blocks, direct, 32 * b),
                forall|i: int| 0 <= i < b ==> #[trigger] direct[i] < blocks.len(),
            decreases 12 - b,
        {
            let zone: u32 = inode.direct_slot_get(b);
            if zone == 0 {
                proof {
                    lemma_no_zone(blocks, direct, b as int, 32);
                }
            } else {
                let buf: Vec<u8> = match self.get_block(zone) {
                    Ok(x) => x,
                    Err(_) => return Err("Failed to read block"),
                };
                let mut k: usize = 0;
                while k < 32
                    invariant
                        direct[b as int] == zone,
                        zone != 0,
                        buf@ == blocks[zone as int],
                        buf@.len() == 2048,
                        b < 12,
                        k <= 32,
                        entry_views(out@) == used_entries(blocks, direct, 32 * b + k),
                    decreases 32 - k,
                {
                    let ino: u32 = read_u32(&buf, 64 * k);
                    proof {
                        let s = 32 * b + k;
                        assert(s / 32 == b && s % 32 == k);
                    }
                    if ino != 0 {
                        let raw: Vec<u8> = cut(&buf, 64 * k + 4, 64 * k + 64);
                        let ghost before = out@;
                        let e: DirEntry = DirEntry { inode: ino, name: name_array(&raw) };
                        out.push(e);
                        proof {
                            assert(entry_views(out@) =~= entry_views(before).push(
                                (e.inode, e.name@),
                            ));
                        }
                    }
                    k = k + 1;
                }
            }
            b = b + 1;
        }
        Ok(out)
    }

    /// What `name` stands for in a directory.
    pub fn find_dir_entry(&mut self, parent_inode_num: u32, name: &[u8]) -> (res: Result<
        Option<u32>,
        &'static str,
    >)
        requires
            old(self).wf(),
        ensures
            final(self).wf(),
            final(self).same_volume(old(self)),
            final(self).blocks() == old(self).blocks(),
            final(self).shared.generation == old(self).shared.generation,
            ({
                let blocks = old(self).blocks();
                let sb = old(self).superblock;
                match res {
                    Ok(r) => {
                        &&& !lookup_fails(blocks, sb, old(self).shared@, parent_inode_num)
                        &&& (r, final(self).shared@) == found_in(
                            blocks,
                            sb,
                            old(self).shared@,
                            parent_inode_num,
                            name@,
                        )
                    },
                    Err(m) => {
                        &&& final(self).shared@ == old(self).shared@
                        &&& if !valid_ino(sb, parent_inode_num as int) {
                            m == "Invalid inode number"
                        } else {
                            m == "Failed to read inode block" || m
                                == "Failed to build directory index"
                        }
                        &&& !old(self).serves() || lookup_fails(
                            blocks,
                            sb,
                            old(self).shared@,
                            parent_inode_num,
                        )
                    },
                }
            }),
    {
        let parent_inode: Inode = match self.read_inode(parent_inode_num) {
            Ok(i) => i,
            Err(m) => return Err(m),
        };
        if parent_inode.direct_slot_get(0) == 0 {
            return Ok(None);
        }
        match self.ensure_dir_index_entry(parent_inode_num, &parent_inode) {
            Ok(_) => {},
            Err(_) => return Err("Failed to build directory index"),
        }
        proof {
            lemma_dir_set(
                old(self).shared@.dirs,
                parent_inode_num,
                dir_index(self.blocks(), parent_inode@.direct),
            );
        }
        Ok(self.shared.dir_index_lookup(parent_inode_num, name))
    }

    /// Lists block `b` of a directory.
    fn list_block(
        &mut self,
        buf: &Vec<u8>,
        b: usize,
        dir_inode: &Inode,
        out: &mut Vec<Metadata>,
        seen: &mut usize,
    ) -> (res: Result<(), &'static str>)
        requires
            old(self).wf(),
            b < 12,
            dir_inode@.direct[b as int] != 0,
            dir_inode@.direct[b as int] < old(self).blocks().len(),
            buf@ == old(self).blocks()[dir_inode@.direct[b as int] as int],
            buf@.len() == 2048,
            *old(seen) <= 2048 * b,
            ({
                let l = dir_list(old(self).blocks(), old(self).superblock, dir_inode@, 32 * b);
                &&& !l.bad
                &&& !l.lost
                &&& !l.end
                &&& *old(seen) == l.seen
                &&& meta_views(old(out)@) == l.list
            }),
        ensures
            final(self).wf(),
            final(self).same_but_blocks(old(self)),
            final(self).blocks() == old(self).blocks(),
            ({
                let l = dir_list(old(self).blocks(), old(self).superblock, dir_inode@, 32 * b + 32);
                match res {
                    Ok(_) => {
                        &&& !l.bad
                        &&& !l.lost
                        &&& !l.end
                        &&& *final(seen) == l.seen
                        &&& *final(seen) <= 2048 * b + 2048
                        &&& meta_views(final(out)@) == l.list
                    },
                    Err(m) => l.bad && m == "Invalid inode number" || !old(self).serves(),
                }
            }),
    {
        let ghost blocks = self.blocks();
        let ghost sb = self.superblock;
        let ghost dir = dir_inode@;
        let ghost zone = dir_inode@.direct[b as int];
        let total: usize = dir_inode.size as usize;
        let mut k: usize = 0;
        while k < 32
            invariant
                self.wf(),
                self.same_but_blocks(old(self)),
                blocks == old(self).blocks(),
                self.blocks() == blocks,
                sb == old(self).superblock,
                dir == dir_inode@,
                total == dir.size as usize,
                dir.direct[b as int] == zone,
                zone != 0,
                zone < blocks.len(),
                buf@ == blocks[zone as int],
                buf@.len() == 2048,
                b < 12,
                k <= 32,
                *seen <= 2048 * b + 64 * k,
                !dir_list(blocks, sb, dir, 32 * b + k).bad,
                !dir_list(blocks, sb, dir, 32 * b + k).lost,
                !dir_list(blocks, sb, dir, 32 * b + k).end,
                *seen == dir_list(blocks, sb, dir, 32 * b + k).seen,
                meta_views(out@) == dir_list(blocks, sb, dir, 32 * b + k).list,
            decreases 32 - k,
        {
            let ino: u32 = read_u32(buf, 64 * k);
            proof {
                let s = 32 * b + k;
                assert(s / 32 == b && s % 32 == k);
            }
            if *seen < total && ino != 0 {
                *seen = *seen + 64;
                let inode: Inode = match self.read_inode(ino) {
                    Ok(i) => i,
                    Err(m) => {
                        proof {
                            if !valid_ino(sb, ino as int) {
                                lemma_bad(blocks, sb, dir, 32 * b + k + 1, 32 * b + 32);
                            }
                        }
                        return Err(m);
                    },
                };
                let raw: Vec<u8> = cut(buf, 64 * k + 4, 64 * k + 64);
                let name_end: usize = find(&raw, 0);
                proof {
                    crate::bytes::lemma_first_pos_is(raw@, 0);
                }
                let name: Vec<u8> = cut(&raw, 0, name_end);
                proof {
                    assert(name@ =~= raw@.take(name_end as int));
                }
                if is_utf8(&name) && name.len() > 0 {
                    let ghost before = out@;
                    let m: Metadata = Self::describe(name, ino, &inode);
                    out.push(m);
                    proof {
                        assert(meta_views(out@) =~= meta_views(before).push(m@));
                    }
                }
            }
            k = k + 1;
        }
        Ok(())
    }

    /// Lists a directory.
    pub fn list_dir(&mut self, dir_inode_num: u32) -> (res: Result<Vec<Metadata>, &'static str>)
        requires
            old(self).wf(),
        ensures
            final(self).wf(),
            final(self).same_but_blocks(old(self)),
            final(self).blocks() == old(self).blocks(),
            ({
                let blocks = old(self).blocks();
                let sb = old(self).superblock;
                let dir = inode_at(blocks, sb, dir_inode_num as int);
                let l = dir_list(blocks, sb, dir, 384);
                match res {
                    Ok(v) => valid_ino(sb, dir_inode_num as int) && !l.bad && !l.lost && meta_views(v@)
                        == l.list,
                    Err(m) => if !valid_ino(sb, dir_inode_num as int) {
                        m == "Invalid inode number"
                    } else {
                        ||| !old(self).serves()
                        ||| l.bad && m == "Invalid inode number"
                        ||| l.lost && m == "Failed to read directory data block"
                    },
                }
            }),
    {
        let dir_inode: Inode = match self.read_inode(dir_inode_num) {
            Ok(i) => i,
            Err(m) => return Err(m),
        };
        let ghost blocks = self.blocks();
        let ghost sb = self.superblock;
        let ghost dir = dir_inode@;
        let mut out: Vec<Metadata> = Vec::new();
        let mut seen: usize = 0;
        let mut b: usize = 0;
        let mut end: bool = false;
        proof {
            assert(meta_views(out@) =~= Seq::<MetaView>::empty());
        }
        while b < 12 && !end
            invariant
                self.wf(),
                self.same_but_blocks(old(self)),
                blocks == old(self).blocks(),
                self.blocks() == blocks,
                sb == old(self).superblock,
                valid_ino(sb, dir_inode_num as int),
                dir == inode_at(blocks, sb, dir_inode_num as int),
                dir == dir_inode@,
                b <= 12,
                seen <= 2048 * b,
                ({
                    let l = dir_list(blocks, sb, dir, 32 * b);
                    &&& !l.bad
                    &&& !l.lost
                    &&& l.end == end
                    &&& seen == l.seen
                    &&& meta_views(out@) == l.list
                }),
            decreases 12 - b,
        {
            let zone: u32 = dir_inode.direct_slot_get(b);
            if zone == 0 {
                end = true;
                proof {
                    assert((32 * b) / 32 == b);
                    lemma_ended(blocks, sb, dir, 32 * b + 1, 32 * b + 32);
                }
            } else {
                let buf: Vec<u8> = match self.get_block(zone) {
                    Ok(x) => x,
                    Err(_) => {
                        proof {
                            assert((32 * b) / 32 == b);
                            if zone >= blocks.len() {
                                lemma_bad(blocks, sb, dir, 32 * b + 1, 384);
                            }
                        }
                        return Err("Failed to read directory data block");
                    },
                };
                match self.list_block(&buf, b, &dir_inode, &mut out, &mut seen) {
                    Ok(_) => {},
                    Err(m) => {
                        proof {
                            if dir_list(blocks, sb, dir, 32 * b + 32).bad {
                                lemma_bad(blocks, sb, dir, 32 * b + 32, 384);
                            }
                        }
                        return Err(m);
                    },
                }
            }
            b = b + 1;
        }
        proof {
            if b < 12 {
                lemma_ended(blocks, sb, dir, 32 * b, 384);
            }
        }
        Ok(out)
    }

    /// The attributes of a node.
    pub(crate) fn describe(name: Vec<u8>, ino: u32, inode: &Inode) -> (m: Metadata)
        ensures
            m@ == node_meta(name@, ino, inode@),
    {
        Metadata {
            ino,
            uid: inode.uid,
            gid: inode.gid,
            name,
            file_type: if inode.is_dir() {
                FileType::Dir
            } else {
                FileType::File
            },
            mode: inode.mode,
            size: inode.size as usize,
            created_time: to_u32_saturating(inode.created_time),
            access_time: to_u32_saturating(inode.access_time),
            modified_time: to_u32_saturating(inode.modified_time),
        }
    }

    /// Where the entry `name` of a directory is: its zone, its place there and its
    /// inode.
    pub(crate) fn find_dir_entry_slot(&mut self, parent_inode_num: u32, name: &[u8]) -> (res: Result<
        Option<(u32, usize, u32)>,
        FsError,
    >)
        requires
            old(self).wf(),
        ensures
            final(self).wf(),
            final(self).same_but_blocks(old(self)),
            final(self).blocks() == old(self).blocks(),
            ({
                let blocks = old(self).blocks();
                let sb = old(self).superblock;
                let direct = inode_at(blocks, sb, parent_inode_num as int).direct;
                match res {
                    Ok(Some(t)) => valid_ino(sb, parent_inode_num as int) && entry_place(
                        blocks,
                        direct,
                        name@,
                        t,
                    ),
                    Ok(None) => valid_ino(sb, parent_inode_num as int) && entry_missing(
                        blocks,
                        direct,
                        name@,
                    ),
                    Err(e) => e == FsError::InvalidInode && (!old(self).serves() || !valid_ino(
                        sb,
                        parent_inode_num as int,
                    ) || search_fails(blocks, direct, name@)),
                }
            }),
    {
        let parent_inode: Inode = match self.read_inode(parent_inode_num) {
            Ok(i) => i,
            Err(_) => return Err(FsError::InvalidInode),
        };
        let ghost blocks = self.blocks();
        let ghost sb = self.superblock;
        let ghost direct = parent_inode@.direct;
        let mut b: usize = 0;
        while b < 12
            invariant
                self.wf(),
                self.same_but_blocks(old(self)),
                blocks == old(self).blocks(),
                self.blocks() == blocks,
                sb == old(self).superblock,
                valid_ino(sb, parent_inode_num as int),
                direct == inode_at(blocks, sb, parent_inode_num as int).direct,
                direct == parent_inode@.direct,
                b <= 12,
                direct.len() == 12,
                self.serves() == old(self).serves(),
                blocks.len() > 0,
                forall|t: int| 0 <= t < 32 * b ==> !#[trigger] entry_named(blocks, direct, name@, t),
                forall|i: int| 0 <= i < b ==> #[trigger] direct[i] < blocks.len(),
            decreases 12 - b,
        {
            let zone: u32 = parent_inode.direct_slot_get(b);
            if zone != 0 {
                let buf: Vec<u8> = match self.get_block(zone) {
                    Ok(x) => x,
                    Err(e) => {
                        proof {
                            if self.serves() {
                                assert(search_stops(blocks, direct, name@, b as int));
                            }
                        }
                        return Err(e);
                    },
                };
                let mut k: usize = 0;
                while k < 32
                    invariant
                        self.wf(),
                        self.same_but_blocks(old(self)),
                        blocks == old(self).blocks(),
                        self.blocks() == blocks,
                        sb == old(self).superblock,
                        valid_ino(sb, parent_inode_num as int),
                        direct == inode_at(blocks, sb, parent_inode_num as int).direct,
                        direct[b as int] == zone,
                        zone != 0,
                        zone < blocks.len(),
                        buf@ == blocks[zone as int],
                        buf@.len() == 2048,
                        b < 12,
                        k <= 32,
                        forall|t: int|
                            0 <= t < 32 * b + k ==> !#[trigger] entry_named(
                                blocks,
                                direct,
                                name@,
                                t,
                            ),
                        forall|i: int| 0 <= i < b ==> #[trigger] direct[i] < blocks.len(),
                    decreases 32 - k,
                {
                    let ino: u32 = read_u32(&buf, 64 * k);
                    let ghost s = 32 * b + k;
                    proof {
                        assert(s / 32 == b && s % 32 == k);
                    }
                    if ino != 0 {
                        let raw: Vec<u8> = cut(&buf, 64 * k + 4, 64 * k + 64);
                        let text: Vec<u8> = entry_text(&raw);
                        if same(&text, name) {
                            let t: (u32, usize, u32) = (zone, 64 * k, ino);
                            proof {
                                assert(slot_found(blocks, direct, name@, s, t));
                                assert(entry_place(blocks, direct, name@, t));
                            }
                            return Ok(Some(t));
                        }
                    }
                    k = k + 1;
                }
            } else {
                proof {
                    assert forall|t: int| 32 * b <= t < 32 * b + 32 implies !#[trigger] entry_named(
                        blocks,
                        direct,
                        name@,
                        t,
                    ) by {
                        assert(t / 32 == b);
                    }
                }
            }
            b = b + 1;
        }
        Ok(None)
    }
}

/// Whether no entry of a directory has the name `name`.
pub open spec fn entry_missing(blocks: Seq<Seq<u8>>, direct: Seq<u32>, name: Seq<u8>) -> bool {
    &&& on_volume(blocks, direct)
    &&& forall|t: int| 0 <= t < 384 ==> !#[trigger] entry_named(blocks, direct, name, t)
}

/// Whether a search for `name` ends at zone `b` of a directory, which is not on the volume,
/// before it has found the name.
pub open spec fn search_stops(blocks: Seq<Seq<u8>>, direct: Seq<u32>, name: Seq<u8>, b: int) -> bool {
    &&& 0 <= b < 12
    &&& direct[b] >= blocks.len()
    &&& forall|i: int| 0 <= i < b ==> #[trigger] direct[i] < blocks.len()
    &&& forall|t: int| 0 <= t < 32 * b ==> !#[trigger] entry_named(blocks, direct, name, t)
}

/// Whether a search for `name` comes to a zone that is not on the volume before it has found
/// the name.
pub open spec fn search_fails(blocks: Seq<Seq<u8>>, direct: Seq<u32>, name: Seq<u8>) -> bool {
    exists|b: int| #[trigger] search_stops(blocks, direct, name, b)
}

/// Whether `t` is the place of `s`, the first entry with the name `name`: its
/// zone, its offset there and its inode. The zones up to it are on the volume.
pub open spec fn slot_found(
    blocks: Seq<Seq<u8>>,
    direct: Seq<u32>,
    name: Seq<u8>,
    s: int,
    t: (u32, usize, u32),
) -> bool {
    &&& is_first_named(blocks, direct, name, s)
    &&& t.0 == direct[s / 32]
    &&& t.0 < blocks.len()
    &&& forall|i: int| 0 <= i < s / 32 ==> #[trigger] direct[i] < blocks.len()
    &&& t.1 == 64 * (s % 32)
    &&& t.2 == entry_ino(blocks[t.0 as int], s % 32)
}

/// Whether `t` is the place of the first entry with the name `name`.
pub open spec fn entry_place(
    blocks: Seq<Seq<u8>>,
    direct: Seq<u32>,
    name: Seq<u8>,
    t: (u32, usize, u32),
) -> bool {
    exists|s: int| #[trigger] slot_found(blocks, direct, name, s, t)
}

/// Whether a directory cannot be searched: it has no inode, or must be read and its
/// zones are not on the volume.
pub open spec fn lookup_fails(
    blocks: Seq<Seq<u8>>,
    sb: Superblock,
    caches: CacheView,
    parent: u32,
) -> bool {
    let direct = inode_at(blocks, sb, parent as int).direct;
    ||| !valid_ino(sb, parent as int)
    ||| direct[0] != 0 && dir_at(caches.dirs, parent) is None && !on_volume(blocks, direct)
}

/// What looking for a name in a directory gives: what the name stands for, and
/// what is remembered then.
pub open spec fn found_in(
    blocks: Seq<Seq<u8>>,
    sb: Superblock,
    caches: CacheView,
    parent: u32,
    name: Seq<u8>,
) -> (Option<u32>, CacheView) {
    let direct = inode_at(blocks, sb, parent as int).direct;
    if direct[0] == 0 {
        (None, caches)
    } else {
        (
            at_key(index_of(blocks, caches, parent, direct).names, name),
            dir_known(blocks, caches, parent, direct),
        )
    }
}

proof fn lemma_no_zone(blocks: Seq<Seq<u8>>, direct: Seq<u32>, b: int, k: int)
    requires
        0 <= b < 12,
        0 <= k <= 32,
        direct[b] == 0,
    ensures
        dir_names(blocks, direct, 32 * b + k) == dir_names(blocks, direct, 32 * b),
        used_entries(blocks, direct, 32 * b + k) == used_entries(blocks, direct, 32 * b),
        k > 0 ==> first_free(blocks, direct, 32 * b + k) == if first_free(blocks, direct, 32 * b)
            == 384 {
            32 * b
        } else {
            first_free(blocks, direct, 32 * b)
        },
    decreases k,
{
    if k > 0 {
        lemma_no_zone(blocks, direct, b, k - 1);
        assert((32 * b + k - 1) / 32 == b);
    }
}

/// A directory that was read is known.
pub proof fn lemma_dir_set(dirs: Seq<(u32, IndexView)>, parent: u32, e: IndexView)
    requires
        dirs.len() <= 512,
    ensures
        dir_at(dir_set(dirs, parent, e), parent) == Some(e),
{
    let p = dir_pos(dirs, parent);
    lemma_dir_pos_is(dirs, parent);
    let after = dir_set(dirs, parent, e);
    if p < dirs.len() {
        lemma_dir_pos(after, parent, p);
    } else if dirs.len() < 512 {
        lemma_dir_pos(after, parent, p);
    } else {
        assert forall|i: int| 0 <= i < p - 1 implies (#[trigger] after[i]).0 != parent by {
            assert(after[i] == dirs[i + 1]);
        }
        lemma_dir_pos(after, parent, p - 1);
    }
}

pub proof fn lemma_dir_pos_is(s: Seq<(u32, IndexView)>, parent: u32)
    ensures
        0 <= dir_pos(s, parent) <= s.len(),
        dir_pos(s, parent) < s.len() ==> s[dir_pos(s, parent)].0 == parent,
        forall|i: int| 0 <= i < dir_pos(s, parent) ==> (#[trigger] s[i]).0 != parent,
    decreases s.len(),
{
    if s.len() > 0 && s[0].0 != parent {
        lemma_dir_pos_is(s.skip(1), parent);
        assert forall|i: int| 0 <= i < dir_pos(s, parent) implies (#[trigger] s[i]).0 != parent by {
            if i > 0 {
                assert(s.skip(1)[i - 1] == s[i]);
            }
        }
    }
}

proof fn lemma_ended(blocks: Seq<Seq<u8>>, sb: Superblock, dir: InodeView, m: int, n: int)
    requires
        m <= n,
        dir_list(blocks, sb, dir, m).end,
        m > 0,
    ensures
        dir_list(blocks, sb, dir, n) == dir_list(blocks, sb, dir, m),
    decreases n,
{
    if m < n {
        lemma_ended(blocks, sb, dir, m, n - 1);
    }
}

proof fn lemma_bad(blocks: Seq<Seq<u8>>, sb: Superblock, dir: InodeView, m: int, n: int)
    requires
        m <= n,
        dir_list(blocks, sb, dir, m).bad || dir_list(blocks, sb, dir, m).lost,
        m > 0,
    ensures
        dir_list(blocks, sb, dir, n) == dir_list(blocks, sb, dir, m),
    decreases n,
{
    if m < n {
        lemma_bad(blocks, sb, dir, m, n - 1);
    }
}

} // verus!
