//! The file system as the rest of the kernel sees it.

use crate::block::BlockDeviceIO;
use crate::bytes::{cut, to_vec};
use crate::paths::{base_name, last_part};
use crate::twilight_fs::bitmap::{
    all_set, clear_count, is_first_clear, lemma_clear_count_set, lemma_clear_count_zero, with_bit_at,
};
use crate::twilight_fs::dir::{dir_list, node_meta};
use crate::twilight_fs::fs::{inode_at, valid_ino, with_inode, Superblock, TwilightFs};
use crate::twilight_fs::inode::{
    flag_of, with_flag, with_mode, Inode, IFLAG_ENCRYPTED, MODE_TYPE_MASK,
};
use crate::twilight_fs::names::{error_of, remove_result, rename_result, resolved};
use crate::twilight_fs::shared::CacheView;
use crate::twilight_fs::tree::{create_dir_result, create_file_result};
use crate::twilight_fs::order::lowest_taken;
use crate::twilight_fs::volume::{write_tfs_blocks, FsError, TfsError};
use crate::twilight_fs::zones::{lemma_avail_same, lemma_mark, marked, zmap_grew};
use crate::vfs::{meta_views, MetaView, Metadata, VfsError};
use vstd::prelude::*;

verus! {

/// An open file or directory.
pub struct TfsNode {
    pub inode: Inode,
    pub full_path: Vec<u8>,
    pub inode_no: u32,
}

/// What making a directory at a path gives. Where the parent does not resolve,
/// nothing is made and nothing is reported.
pub open spec fn mkdir_result(
    b0: Seq<Seq<u8>>,
    b1: Seq<Seq<u8>>,
    sb: Superblock,
    c0: CacheView,
    c1: CacheView,
    parent_dir: Seq<u8>,
    name: Seq<u8>,
    mode: u16,
    time: u64,
    ok: bool,
) -> bool {
    let (r, c) = resolved(b0, sb, c0, parent_dir);
    match r {
        Err(_) => ok && b1 == b0 && c1 == c,
        Ok(p) => if valid_ino(sb, p as int) && inode_at(b0, sb, p as int).dir() {
            exists|x: Result<u32, FsError>| #[trigger]
                create_dir_result(b0, b1, sb, true, c, c1, p, name, mode, time, x) && ok == (x is Ok)
        } else {
            !ok && b1 == b0 && c1 == c
        },
    }
}

/// What making a file at a path gives.
pub open spec fn touch_result(
    b0: Seq<Seq<u8>>,
    b1: Seq<Seq<u8>>,
    sb: Superblock,
    c0: CacheView,
    c1: CacheView,
    parent_path: Seq<u8>,
    name: Seq<u8>,
    mode: u16,
    time: u64,
    ok: bool,
) -> bool {
    let (r, c) = resolved(b0, sb, c0, parent_path);
    match r {
        Err(_) => !ok && b1 == b0 && c1 == c,
        Ok(p) => if valid_ino(sb, p as int) && inode_at(b0, sb, p as int).dir() {
            exists|x: Result<u32, FsError>| #[trigger]
                create_file_result(b0, b1, sb, true, c, c1, p, name, mode, time, x) && ok == (x is Ok)
        } else {
            !ok && b1 == b0 && c1 == c
        },
    }
}

/// The node that a path resolves to, where it has an inode.
pub open spec fn node_at(blocks: Seq<Seq<u8>>, sb: Superblock, caches: CacheView, path: Seq<u8>) -> Option<
    u32,
> {
    match resolved(blocks, sb, caches, path).0 {
        Ok(i) => if valid_ino(sb, i as int) {
            Some(i)
        } else {
            None
        },
        Err(_) => None,
    }
}

impl<D: BlockDeviceIO> TwilightFs<D> {
    /// Resolves a path and reads its inode; an error tells whether the path
    /// resolves.
    fn node(&mut self, path: &[u8]) -> (res: Result<(u32, Inode), bool>)
        requires
            old(self).wf(),
        ensures
            final(self).wf(),
            final(self).same_volume(old(self)),
            final(self).blocks() == old(self).blocks(),
            final(self).shared.generation == old(self).shared.generation,
            ({
                let b = old(self).blocks();
                let sb = old(self).superblock;
                let (r, c) = resolved(b, sb, old(self).shared@, path@);
                match res {
                    Ok((i, n)) => {
                        &&& r == Ok::<u32, FsError>(i)
                        &&& final(self).shared@ == c
                        &&& valid_ino(sb, i as int)
                        &&& n@ == inode_at(b, sb, i as int)
                    },
                    Err(found) => old(self).serves() ==> {
                        &&& final(self).shared@ == c
                        &&& node_at(b, sb, old(self).shared@, path@) is None
                        &&& found == (r is Ok)
                    },
                }
            }),
    {
        let ino: u32 = match self.resolve_path(path) {
            Ok(i) => i,
            Err(_) => return Err(false),
        };
        match self.read_inode(ino) {
            Ok(n) => Ok((ino, n)),
            Err(_) => Err(true),
        }
    }

    /// Opens a file or a directory.
    pub fn open(&mut self, path: &[u8]) -> (res: Result<(Metadata, TfsNode), ()>)
        requires
            old(self).wf(),
        ensures
            final(self).wf(),
            final(self).same_volume(old(self)),
            final(self).shared.generation == old(self).shared.generation,
            old(self).serves() || res is Ok ==> final(self).shared@ == resolved(
                old(self).blocks(),
                old(self).superblock,
                old(self).shared@,
                path@,
            ).1,
            final(self).blocks() == old(self).blocks(),
            ({
                let b = old(self).blocks();
                let sb = old(self).superblock;
                let at = node_at(b, sb, old(self).shared@, path@);
                match res {
                    Ok((m, n)) => {
                        &&& at == Some(n.inode_no)
                        &&& n.inode@ == inode_at(b, sb, n.inode_no as int)
                        &&& n.full_path@ == path@
                        &&& meta_at(b, sb, old(self).shared@, path@) == Some(m@)
                    },
                    Err(_) => old(self).serves() ==> at is None,
                }
            }),
    {
        match self.node(path) {
            Ok((ino, inode)) => {
                let m: Metadata = Self::describe(last_part(path), ino, &inode);
                Ok((m, TfsNode { inode, full_path: to_vec(path), inode_no: ino }))
            },
            Err(_) => Err(()),
        }
    }

    /// The attributes of a file or a directory.
    pub fn metadata(&mut self, path: &[u8]) -> (res: Result<Metadata, ()>)
        requires
            old(self).wf(),
        ensures
            final(self).wf(),
            final(self).same_volume(old(self)),
            final(self).shared.generation == old(self).shared.generation,
            old(self).serves() || res is Ok ==> final(self).shared@ == resolved(
                old(self).blocks(),
                old(self).superblock,
                old(self).shared@,
                path@,
            ).1,
            final(self).blocks() == old(self).blocks(),
            ({
                let b = old(self).blocks();
                let sb = old(self).superblock;
                let told = meta_at(b, sb, old(self).shared@, path@);
                match res {
                    Ok(m) => told == Some(m@),
                    Err(_) => old(self).serves() ==> told is None,
                }
            }),
    {
        match self.node(path) {
            Ok((ino, inode)) => Ok(Self::describe(last_part(path), ino, &inode)),
            Err(_) => Err(()),
        }
    }

    /// Lists the directory at a path.
    pub fn ls(&mut self, path: &[u8]) -> (res: Result<Vec<Metadata>, ()>)
        requires
            old(self).wf(),
        ensures
            final(self).wf(),
            final(self).same_volume(old(self)),
            final(self).shared.generation == old(self).shared.generation,
            old(self).serves() || res is Ok ==> final(self).shared@ == resolved(
                old(self).blocks(),
                old(self).superblock,
                old(self).shared@,
                path@,
            ).1,
            final(self).blocks() == old(self).blocks(),
            ({
                let b = old(self).blocks();
                let sb = old(self).superblock;
                let at = node_at(b, sb, old(self).shared@, path@);
                let dir = inode_at(b, sb, at->0 as int);
                let l = dir_list(b, sb, dir, 384);
                match res {
                    Ok(v) => at is Some && !l.bad && !l.lost && meta_views(v@) == l.list,
                    Err(_) => old(self).serves() ==> at is None || l.bad || l.lost,
                }
            }),
    {
        match self.resolve_path(path) {
            Ok(ino) => match self.list_dir(ino) {
                Ok(v) => Ok(v),
                Err(_) => Err(()),
            },
            Err(_) => Err(()),
        }
    }

    /// Makes a directory. Where its parent cannot be resolved, nothing is done and no error
    /// is told.
    pub fn mkdir(&mut self, parent_dir: &[u8], path: &[u8], mode: u16, time: u64) -> (res: Result<
        (),
        (),
    >)
        requires
            old(self).wf(),
        ensures
            final(self).wf(),
            final(self).same_volume(old(self)),
            final(self).shared.generation == old(self).shared.generation,
            old(self).serves() || res is Ok && final(self).blocks() != old(self).blocks()
                ==> mkdir_result(
                old(self).blocks(),
                final(self).blocks(),
                old(self).superblock,
                old(self).shared@,
                final(self).shared@,
                parent_dir@,
                path@,
                mode,
                time,
                res is Ok,
            ),
    {
        match self.node(parent_dir) {
            Ok((ino, inode)) => {
                if inode.is_dir() {
                    let ghost c = self.shared@;
                    let x: Result<u32, FsError> = self.create_dir_with_mode(ino, path, mode, time);
                    proof {
                        if self.serves() || x is Ok {
                            assert(create_dir_result(
                                old(self).blocks(),
                                self.blocks(),
                                self.superblock,
                                true,
                                c,
                                self.shared@,
                                ino,
                                path@,
                                mode,
                                time,
                                x,
                            ));
                        }
                    }
                    match x {
                        Ok(_) => Ok(()),
                        Err(_) => Err(()),
                    }
                } else {
                    Err(())
                }
            },
            Err(true) => Err(()),
            Err(false) => Ok(()),
        }
    }

    /// Makes a file.
    pub fn touch(&mut self, parent_path: &[u8], filename: &[u8], mode: u16, time: u64) -> (res: Result<
        (),
        (),
    >)
        requires
            old(self).wf(),
        ensures
            final(self).wf(),
            final(self).same_volume(old(self)),
            final(self).shared.generation == old(self).shared.generation,
            old(self).serves() || res is Ok ==> touch_result(
                old(self).blocks(),
                final(self).blocks(),
                old(self).superblock,
                old(self).shared@,
                final(self).shared@,
                parent_path@,
                filename@,
                mode,
                time,
                res is Ok,
            ),
    {
        match self.node(parent_path) {
            Ok((ino, inode)) => {
                if inode.is_dir() {
                    let ghost c = self.shared@;
                    let x: Result<u32, FsError> = self.create_file_with_mode(
                        ino,
                        filename,
                        mode,
                        time,
                    );
                    proof {
                        if self.serves() || x is Ok {
                            assert(create_file_result(
                                old(self).blocks(),
                                self.blocks(),
                                self.superblock,
                                true,
                                c,
                                self.shared@,
                                ino,
                                filename@,
                                mode,
                                time,
                                x,
                            ));
                        }
                    }
                    match x {
                        Ok(_) => Ok(()),
                        Err(_) => Err(()),
                    }
                } else {
                    Err(())
                }
            },
            Err(_) => Err(()),
        }
    }

    /// Removes a directory.
    pub fn rmdir(&mut self, path: &[u8]) -> (res: Result<(), ()>)
        requires
            old(self).wf(),
        ensures
            final(self).wf(),
            final(self).same_volume(old(self)),
            final(self).shared.generation == old(self).shared.generation,
            removed_as(old(self), final(self), path@, res is Ok),
    {
        self.rm(path)
    }

    /// Removes a file.
    pub fn rm(&mut self, path: &[u8]) -> (res: Result<(), ()>)
        requires
            old(self).wf(),
        ensures
            final(self).wf(),
            final(self).same_volume(old(self)),
            final(self).shared.generation == old(self).shared.generation,
            removed_as(old(self), final(self), path@, res is Ok),
    {
        let x: Result<(), FsError> = self.remove_entry(path);
        proof {
            assert(remove_result(
                old(self).blocks(),
                self.blocks(),
                old(self).superblock,
                old(self).serves(),
                old(self).shared@,
                self.shared@,
                path@,
                error_of(x),
            ));
        }
        match x {
            Ok(_) => Ok(()),
            Err(_) => Err(()),
        }
    }

    /// Renames a file or a directory.
    pub fn rename(&mut self, old_path: &[u8], new_path: &[u8]) -> (res: Result<(), ()>)
        requires
            old(self).wf(),
        ensures
            final(self).wf(),
            final(self).same_volume(old(self)),
            final(self).shared.generation == old(self).shared.generation,
            old(self).serves() || res is Ok ==> exists|x: Result<(), FsError>| #[trigger]
                rename_result(
                    old(self).blocks(),
                    final(self).blocks(),
                    old(self).superblock,
                    old(self).shared@,
                    final(self).shared@,
                    old_path@,
                    new_path@,
                    x,
                ) && (res is Ok) == (x is Ok),
    {
        let x: Result<(), FsError> = self.rename_entry(old_path, new_path);
        match x {
            Ok(_) => Ok(()),
            Err(_) => Err(()),
        }
    }

    /// Sets the permissions of a node.
    pub fn chmod(&mut self, path: &[u8], mode: u16, time: u64) -> (res: Result<(), VfsError>)
        requires
            old(self).wf(),
        ensures
            final(self).wf(),
            final(self).same_volume(old(self)),
            final(self).shared.generation == old(self).shared.generation,
            old(self).serves() || res is Ok ==> final(self).shared@ == resolved(
                old(self).blocks(),
                old(self).superblock,
                old(self).shared@,
                path@,
            ).1,
            ({
                let b = old(self).blocks();
                let sb = old(self).superblock;
                let (r, c) = resolved(b, sb, old(self).shared@, path@);
                match res {
                    Ok(_) => {
                        let i = r->Ok_0 as int;
                        let v = inode_at(b, sb, i);
                        &&& r is Ok
                        &&& valid_ino(sb, i)
                        &&& final(self).blocks() == with_inode(
                            b,
                            sb,
                            i,
                            with_mode(v, mode, time),
                        )
                    },
                    Err(VfsError::NotFound) => old(self).serves() ==> r is Err
                        && final(self).blocks() == b,
                    Err(e) => e == VfsError::Io && (old(self).serves() ==> r is Ok && !valid_ino(
                        sb,
                        r->Ok_0 as int,
                    ) && final(self).blocks() == b),
                }
            }),
    {
        match self.node(path) {
            Ok((ino, n)) => {
                let mut inode: Inode = n;
                inode.mode = (inode.mode & MODE_TYPE_MASK) | (mode & 0o7777);
                inode.change_time = time;
                match self.write_inode(ino, &inode) {
                    Ok(_) => Ok(()),
                    Err(_) => Err(VfsError::Io),
                }
            },
            Err(true) => Err(VfsError::Io),
            Err(false) => Err(VfsError::NotFound),
        }
    }

    /// Sets or clears the encryption flag of a node; there is no other attribute.
    pub fn set_attr(&mut self, path: &[u8], attr: u32, value: u32) -> (res: Result<(), ()>)
        requires
            old(self).wf(),
        ensures
            final(self).wf(),
            final(self).same_volume(old(self)),
            final(self).shared.generation == old(self).shared.generation,
            attr == IFLAG_ENCRYPTED && (old(self).serves() || res is Ok) ==> final(self).shared@ == resolved(
                old(self).blocks(),
                old(self).superblock,
                old(self).shared@,
                path@,
            ).1,
            attr != IFLAG_ENCRYPTED ==> *final(self) == *old(self),
            ({
                let b = old(self).blocks();
                let sb = old(self).superblock;
                let at = node_at(b, sb, old(self).shared@, path@);
                let v = inode_at(b, sb, at->0 as int);
                match res {
                    Ok(_) => {
                        &&& attr == IFLAG_ENCRYPTED
                        &&& at is Some
                        &&& final(self).blocks() == with_inode(
                            b,
                            sb,
                            at->0 as int,
                            with_flag(v, value),
                        )
                    },
                    Err(_) => attr != IFLAG_ENCRYPTED || (old(self).serves() ==> at is None
                        && final(self).blocks() == b),
                }
            }),
    {
        if attr != IFLAG_ENCRYPTED {
            return Err(());
        }
        match self.node(path) {
            Ok((ino, n)) => {
                let mut inode: Inode = n;
                if value != 0 {
                    inode.flags = inode.flags | IFLAG_ENCRYPTED;
                } else {
                    inode.flags = inode.flags & !IFLAG_ENCRYPTED;
                }
                match self.write_inode(ino, &inode) {
                    Ok(_) => Ok(()),
                    Err(_) => Err(()),
                }
            },
            Err(_) => Err(()),
        }
    }

    /// The encryption flag of a node.
    pub fn get_attr(&mut self, path: &[u8], attr: u32) -> (res: Result<u32, ()>)
        requires
            old(self).wf(),
        ensures
            final(self).wf(),
            final(self).same_volume(old(self)),
            final(self).shared.generation == old(self).shared.generation,
            attr == IFLAG_ENCRYPTED && (old(self).serves() || res is Ok) ==> final(self).shared@ == resolved(
                old(self).blocks(),
                old(self).superblock,
                old(self).shared@,
                path@,
            ).1,
            attr != IFLAG_ENCRYPTED ==> *final(self) == *old(self),
            final(self).blocks() == old(self).blocks(),
            ({
                let b = old(self).blocks();
                let sb = old(self).superblock;
                let at = node_at(b, sb, old(self).shared@, path@);
                match res {
                    Ok(f) => attr == IFLAG_ENCRYPTED && at is Some && f == flag_of(
                        inode_at(b, sb, at->0 as int),
                    ),
                    Err(_) => attr != IFLAG_ENCRYPTED || (old(self).serves() ==> at is None),
                }
            }),
    {
        if attr != IFLAG_ENCRYPTED {
            return Err(());
        }
        match self.node(path) {
            Ok((_, inode)) => Ok(
                if inode.flags & IFLAG_ENCRYPTED != 0 {
                    IFLAG_ENCRYPTED
                } else {
                    0
                },
            ),
            Err(_) => Err(()),
        }
    }

    pub fn fs_type_name(&self) -> (r: &'static str)
        ensures
            r == "twilightfs",
    {
        "twilightfs"
    }

    pub fn source_name(&self) -> (r: &'static str)
        ensures
            r == "/dev/disk0",
    {
        "/dev/disk0"
    }
}

/// The attributes of the node that a path resolves to.
pub open spec fn meta_at(blocks: Seq<Seq<u8>>, sb: Superblock, caches: CacheView, path: Seq<u8>) -> Option<
    MetaView,
> {
    match node_at(blocks, sb, caches, path) {
        Some(i) => Some(node_meta(base_name(path), i, inode_at(blocks, sb, i as int))),
        None => None,
    }
}

/// Whether `path` was removed, as `remove_result` says, and `ok` tells so.
pub open spec fn removed_as<D: BlockDeviceIO>(
    before: &TwilightFs<D>,
    after: &TwilightFs<D>,
    path: Seq<u8>,
    ok: bool,
) -> bool {
    exists|x: Option<FsError>| #[trigger]
        remove_result(
            before.blocks(),
            after.blocks(),
            before.superblock,
            before.serves(),
            before.shared@,
            after.shared@,
            path,
            x,
        ) && ok == (x is None)
}

/// `blocks` with the blocks from `b` on replaced by the pieces of `data`, of `size` bytes
/// each.
pub open spec fn pieces_put(blocks: Seq<Seq<u8>>, b: int, data: Seq<u8>, size: int) -> Seq<Seq<u8>> {
    Seq::new(
        blocks.len(),
        |k: int|
            if b <= k < b + data.len() as int / size {
                data.subrange((k - b) * size, (k - b + 1) * size)
            } else {
                blocks[k]
            },
    )
}

/// Piece `i` of `len` bytes, which are whole pieces, lies within them.
proof fn lemma_pieces(len: int, size: int, i: int)
    requires
        size > 0,
        len >= 0,
        0 <= i,
    ensures
        len / size >= 0,
        i < len / size ==> 0 <= i * size && (i + 1) * size == i * size + size && (i + 1) * size <= len,
{
    vstd::arithmetic::div_mod::lemma_fundamental_div_mod(len, size);
    vstd::arithmetic::div_mod::lemma_div_pos_is_pos(len, size);
    vstd::arithmetic::mul::lemma_mul_is_distributive_add_other_way(size, i, 1);
    if i < len / size {
        vstd::arithmetic::mul::lemma_mul_inequality(i + 1, len / size, size);
        vstd::arithmetic::mul::lemma_mul_nonnegative(i, size);
        assert(size * (len / size) == (len / size) * size) by (nonlinear_arith);
    }
}

/// What a file asks of the volume that it lies on.
pub trait FsCtx {
    spec fn ctx_wf(&self) -> bool;

    /// Whether every request is carried out.
    spec fn ctx_serves(&self) -> bool;

    /// The size of a block.
    spec fn ctx_block_size(&self) -> int;

    /// The blocks of the volume.
    spec fn ctx_blocks(&self) -> Seq<Seq<u8>>;

    /// The zones in use.
    spec fn ctx_used(&self) -> Set<u32>;

    /// How many zones are not in use.
    spec fn ctx_free(&self) -> nat;

    fn block_size(&self) -> (r: usize)
        requires
            self.ctx_wf(),
        ensures
            r == self.ctx_block_size(),
            r > 0,
    ;

    fn read_block(&mut self, lba: u32, buf: &mut [u8]) -> (res: Result<(), ()>)
        requires
            old(self).ctx_wf(),
        ensures
            final(self).ctx_wf(),
            final(self).ctx_serves() == old(self).ctx_serves(),
            final(self).ctx_blocks() == old(self).ctx_blocks(),
            final(buf)@.len() == old(buf)@.len(),
            match res {
                Ok(_) => lba < old(self).ctx_blocks().len() && old(buf)@.len() == old(
                    self,
                ).ctx_block_size() && final(buf)@ == old(self).ctx_blocks()[lba as int],
                Err(_) => !(old(self).ctx_serves() && lba < old(self).ctx_blocks().len() && old(
                    buf,
                )@.len() == old(self).ctx_block_size()),
            },
    ;

    fn write_block(&mut self, lba: u32, buf: &[u8]) -> (res: Result<(), ()>)
        requires
            old(self).ctx_wf(),
        ensures
            final(self).ctx_wf(),
            final(self).ctx_serves() == old(self).ctx_serves(),
            final(self).ctx_block_size() == old(self).ctx_block_size(),
            match res {
                Ok(_) => lba < old(self).ctx_blocks().len() && buf@.len() == old(
                    self,
                ).ctx_block_size() && final(self).ctx_blocks() == old(self).ctx_blocks().update(
                    lba as int,
                    buf@,
                ),
                Err(_) => !(old(self).ctx_serves() && lba < old(self).ctx_blocks().len()
                    && buf@.len() == old(self).ctx_block_size()),
            },
    ;

    /// Writes whole blocks, one after another.
    fn write_blocks(&mut self, start_lba: u32, buf: &[u8]) -> (res: Result<(), ()>)
        requires
            old(self).ctx_wf(),
            start_lba + buf@.len() as int / old(self).ctx_block_size() <= 0x1_0000_0000,
        ensures
            final(self).ctx_wf(),
            final(self).ctx_serves() == old(self).ctx_serves(),
            ({
                let size = old(self).ctx_block_size();
                let n = buf@.len() as int / size;
                let blocks = old(self).ctx_blocks();
                match res {
                    Ok(_) => {
                        &&& buf@.len() as int % size == 0
                        &&& n > 0 ==> start_lba + n <= blocks.len()
                        &&& final(self).ctx_blocks() == pieces_put(
                            blocks,
                            start_lba as int,
                            buf@,
                            size,
                        )
                    },
                    Err(_) => buf@.len() as int % size != 0 || !(old(self).ctx_serves() && start_lba
                        + n <= blocks.len()),
                }
            }),
    {
        let ghost before = self.ctx_blocks();
        let ghost size = self.ctx_block_size();
        let block_size: usize = self.block_size();
        if buf.len() % block_size != 0 {
            return Err(());
        }
        let len: usize = buf.len();
        let blocks: usize = len / block_size;
        proof {
            lemma_pieces(buf@.len() as int, block_size as int, 0);
        }
        let mut i: usize = 0;
        while i < blocks
            invariant
                self.ctx_wf(),
                self.ctx_serves() == old(self).ctx_serves(),
                self.ctx_block_size() == size,
                size == old(self).ctx_block_size(),
                before == old(self).ctx_blocks(),
                block_size == size,
                size > 0,
                len == buf@.len(),
                buf@.len() as int % size == 0,
                blocks == buf@.len() as int / size,
                start_lba + blocks <= 0x1_0000_0000,
                i <= blocks,
                i > 0 ==> start_lba + i <= before.len(),
                self.ctx_blocks().len() == before.len(),
                forall|k: int|
                    0 <= k < before.len() ==> #[trigger] self.ctx_blocks()[k] == if start_lba <= k
                        < start_lba + i {
                        buf@.subrange((k - start_lba) * size, (k - start_lba + 1) * size)
                    } else {
                        before[k]
                    },
            decreases blocks - i,
        {
            proof {
                lemma_pieces(buf@.len() as int, block_size as int, i as int);
            }
            let from: usize = i * block_size;
            let piece: Vec<u8> = cut(buf, from, from + block_size);
            let lba: u32 = (start_lba as u64 + i as u64) as u32;
            match self.write_block(lba, &piece) {
                Ok(_) => {},
                Err(_) => return Err(()),
            }
            i = i + 1;
        }
        proof {
            assert(self.ctx_blocks() =~= pieces_put(before, start_lba as int, buf@, size));
        }
        Ok(())
    }

    /// Takes a zone that is not in use. Where every request is carried out, that fails only
    /// if there is none.
    fn alloc_zone(&mut self) -> (res: Result<u32, TfsError>)
        requires
            old(self).ctx_wf(),
        ensures
            final(self).ctx_wf(),
            final(self).ctx_serves() == old(self).ctx_serves(),
            match res {
                Ok(z) => {
                    &&& !old(self).ctx_used().contains(z)
                    &&& final(self).ctx_used() == old(self).ctx_used().insert(z)
                    &&& old(self).ctx_free() == final(self).ctx_free() + 1
                },
                Err(e) => old(self).ctx_serves() ==> {
                    &&& e == TfsError::NoSpaceLeft
                    &&& old(self).ctx_free() == 0
                    &&& final(self).ctx_used() == old(self).ctx_used()
                    &&& final(self).ctx_free() == old(self).ctx_free()
                },
            },
    ;

    fn free_zone(&mut self, zone: u32) -> (res: Result<(), TfsError>)
        requires
            old(self).ctx_wf(),
        ensures
            final(self).ctx_wf(),
            final(self).ctx_serves() == old(self).ctx_serves(),
            match res {
                Ok(_) => {
                    &&& final(self).ctx_used() == old(self).ctx_used().remove(zone)
                    &&& final(self).ctx_free() == old(self).ctx_free() + if old(
                        self,
                    ).ctx_used().contains(zone) {
                        1nat
                    } else {
                        0nat
                    }
                },
                Err(_) => !(old(self).ctx_serves() && old(self).ctx_used().contains(zone)),
            },
    ;

    fn write_inode_twilight(&mut self, ino: u32, inode: Inode) -> (res: Result<(), &'static str>)
        requires
            old(self).ctx_wf(),
        ensures
            final(self).ctx_wf(),
            final(self).ctx_serves() == old(self).ctx_serves(),
    ;

    fn remove_file(&mut self, path: &[u8]) -> (res: Result<(), ()>)
        requires
            old(self).ctx_wf(),
        ensures
            final(self).ctx_wf(),
            final(self).ctx_serves() == old(self).ctx_serves(),
    ;

    /// Takes `count` zones, or none. Where every request is carried out, that fails only if
    /// fewer are not in use.
    fn alloc_zones(&mut self, count: usize) -> (res: Result<Vec<u32>, TfsError>)
        requires
            old(self).ctx_wf(),
        ensures
            final(self).ctx_wf(),
            final(self).ctx_serves() == old(self).ctx_serves(),
            match res {
                Ok(v) => {
                    &&& v@.len() == count
                    &&& v@.no_duplicates()
                    &&& forall|i: int|
                        0 <= i < v@.len() ==> !old(self).ctx_used().contains(#[trigger] v@[i])
                    &&& final(self).ctx_used() == old(self).ctx_used().union(v@.to_set())
                    &&& old(self).ctx_free() == final(self).ctx_free() + count
                },
                Err(e) => old(self).ctx_serves() ==> {
                    &&& e == TfsError::NoSpaceLeft
                    &&& old(self).ctx_free() < count
                    &&& final(self).ctx_used() == old(self).ctx_used()
                    &&& final(self).ctx_free() == old(self).ctx_free()
                },
            },
    {
        let ghost used = self.ctx_used();
        let ghost free = self.ctx_free();
        let mut zones: Vec<u32> = Vec::new();
        proof {
            assert(used.union(zones@.to_set()) =~= used);
        }
        while zones.len() < count
            invariant
                self.ctx_wf(),
                self.ctx_serves() == old(self).ctx_serves(),
                used == old(self).ctx_used(),
                free == old(self).ctx_free(),
                free == self.ctx_free() + zones@.len(),
                zones@.len() <= count,
                zones@.no_duplicates(),
                forall|i: int| 0 <= i < zones@.len() ==> !used.contains(#[trigger] zones@[i]),
                self.ctx_used() == used.union(zones@.to_set()),
            decreases count - zones@.len(),
        {
            let ghost before = zones@;
            match self.alloc_zone() {
                Ok(z) => {
                    zones.push(z);
                    proof {
                        assert(!before.contains(z));
                        assert(zones@.to_set() =~= before.to_set().insert(z)) by {
                            assert forall|x: u32| zones@.contains(x) == (before.contains(x) || x == z) by {
                                if before.contains(x) {
                                    let i = choose|i: int| 0 <= i < before.len() && before[i] == x;
                                    assert(zones@[i] == x);
                                }
                                assert(zones@[before.len() as int] == z);
                            }
                        }
                        assert(self.ctx_used() =~= used.union(zones@.to_set()));
                    }
                },
                Err(e) => {
                    let mut k: usize = 0;
                    proof {
                        assert(zones@.skip(0) =~= zones@);
                    }
                    while k < zones.len()
                        invariant
                            self.ctx_wf(),
                            self.ctx_serves() == old(self).ctx_serves(),
                            used == old(self).ctx_used(),
                            free == old(self).ctx_free(),
                            self.ctx_serves() ==> {
                                &&& e == TfsError::NoSpaceLeft
                                &&& free == zones@.len()
                                &&& zones@.len() < count
                                &&& self.ctx_free() == k
                            },
                            k <= zones@.len(),
                            zones@.no_duplicates(),
                            forall|i: int|
                                0 <= i < zones@.len() ==> !used.contains(#[trigger] zones@[i]),
                            self.ctx_serves() ==> self.ctx_used() == used.union(
                                zones@.skip(k as int).to_set(),
                            ),
                        decreases zones@.len() - k,
                    {
                        let ghost now = self.ctx_used();
                        proof {
                            assert(zones@.skip(k as int)[0] == zones@[k as int]);
                            if self.ctx_serves() {
                                assert(now.contains(zones@[k as int]));
                            }
                        }
                        let _ = self.free_zone(zones[k]);
                        proof {
                            if self.ctx_serves() {
                                let rest = zones@.skip(k + 1);
                                let all = zones@.skip(k as int);
                                assert forall|x: u32| #![trigger rest.contains(x)] rest.contains(x) == (all.contains(x) && x
                                    != zones@[k as int]) by {
                                    if rest.contains(x) {
                                        let i = choose|i: int| 0 <= i < rest.len() && rest[i] == x;
                                        assert(all[i + 1] == x);
                                        assert(zones@[k + 1 + i] == x);
                                    }
                                    if all.contains(x) && x != zones@[k as int] {
                                        let i = choose|i: int| 0 <= i < all.len() && all[i] == x;
                                        assert(i > 0);
                                        assert(rest[i - 1] == x);
                                    }
                                }
                                assert(now.remove(zones@[k as int]) =~= used.union(rest.to_set())) by {
                                    assert forall|x: u32| now.remove(zones@[k as int]).contains(x) == used.union(
                                        rest.to_set(),
                                    ).contains(x) by {
                                        assert(rest.contains(x) == (all.contains(x) && x
                                            != zones@[k as int]));
                                    }
                                }
                            }
                        }
                        k = k + 1;
                    }
                    proof {
                        assert(used.union(zones@.skip(k as int).to_set()) =~= used);
                    }
                    return Err(e);
                },
            }
        }
        Ok(zones)
    }
}

impl<D: BlockDeviceIO> FsCtx for TwilightFs<D> {
    open spec fn ctx_wf(&self) -> bool {
        self.wf()
    }

    open spec fn ctx_serves(&self) -> bool {
        self.serves()
    }

    open spec fn ctx_block_size(&self) -> int {
        2048
    }

    open spec fn ctx_blocks(&self) -> Seq<Seq<u8>> {
        self.blocks()
    }

    open spec fn ctx_used(&self) -> Set<u32> {
        Set::new(|z: u32| marked(self.blocks(), self.superblock, z as int))
    }

    open spec fn ctx_free(&self) -> nat {
        clear_count(self.blocks(), self.superblock.zmap(), self.superblock.data_zones())
    }

    fn block_size(&self) -> (r: usize) {
        self.superblock.block_size as usize
    }

    fn read_block(&mut self, lba: u32, buf: &mut [u8]) -> (res: Result<(), ()>)
        ensures
            final(self).same_but_blocks(old(self)),
            res is Err ==> final(buf)@ == old(buf)@,
    {
        if buf.len() != 2048 {
            return Err(());
        }
        match self.get_block(lba) {
            Ok(b) => {
                let mut i: usize = 0;
                while i < 2048
                    invariant
                        i <= 2048,
                        buf@.len() == 2048,
                        b@.len() == 2048,
                        forall|k: int| 0 <= k < i ==> buf@[k] == b@[k],
                    decreases 2048 - i,
                {
                    buf[i] = b[i];
                    i = i + 1;
                }
                proof {
                    assert(buf@ =~= b@);
                }
                Ok(())
            },
            Err(_) => Err(()),
        }
    }

    fn write_block(&mut self, lba: u32, buf: &[u8]) -> (res: Result<(), ()>)
        ensures
            final(self).same_but_blocks(old(self)),
            old(self).serves() && res is Err ==> final(self).blocks() == old(self).blocks(),
    {
        if buf.len() != 2048 {
            return Err(());
        }
        match self.put_block(lba, buf) {
            Ok(_) => Ok(()),
            Err(_) => Err(()),
        }
    }

    fn write_blocks(&mut self, start_lba: u32, buf: &[u8]) -> (res: Result<(), ()>)
        ensures
            final(self).same_but_blocks(old(self)),
            old(self).serves() && res is Err ==> final(self).blocks() == old(self).blocks(),
    {
        if buf.len() % 2048 != 0 {
            return Err(());
        }
        let ghost before = self.blocks();
        if buf.len() == 0 {
            proof {
                assert(self.blocks() =~= pieces_put(before, start_lba as int, buf@, 2048));
            }
            return Ok(());
        }
        match write_tfs_blocks(&mut self.device, &self.offset, start_lba, buf) {
            Ok(_) => {
                proof {
                    assert(self.blocks() =~= pieces_put(before, start_lba as int, buf@, 2048));
                }
                Ok(())
            },
            Err(_) => Err(()),
        }
    }

    fn alloc_zones(&mut self, count: usize) -> (res: Result<Vec<u32>, TfsError>)
        ensures
            final(self).same_but_blocks(old(self)),
            match res {
                Ok(v) => {
                    &&& forall|i: int, j: int| 0 <= i < j < v@.len() ==> v@[i] < v@[j]
                    &&& lowest_taken(old(self).blocks(), final(self).blocks(), old(self).superblock)
                    &&& zmap_grew(old(self).blocks(), final(self).blocks(), old(self).superblock)
                },
                Err(_) => old(self).serves() ==> {
                    &&& zmap_grew(old(self).blocks(), final(self).blocks(), old(self).superblock)
                    &&& zmap_grew(final(self).blocks(), old(self).blocks(), old(self).superblock)
                },
            },
    {
        let ghost b0 = self.blocks();
        let ghost sb = self.superblock;
        let ghost used = self.ctx_used();
        let r: Result<Vec<u32>, TfsError> = self.allocate_zones(count);
        proof {
            let b1 = self.blocks();
            match &r {
                Ok(v) => {
                    assert(self.ctx_used() =~= used.union(v@.to_set())) by {
                        assert forall|y: u32| self.ctx_used().contains(y) == used.union(
                            v@.to_set(),
                        ).contains(y) by {
                            if marked(b1, sb, y as int) && !marked(b0, sb, y as int) {
                                let i = choose|i: int| 0 <= i < v@.len() && v@[i] == y as int;
                                assert(v@[i] == y);
                            }
                            if marked(b0, sb, y as int) {
                                assert(marked(b1, sb, y as int));
                            }
                            if v@.contains(y) {
                                let i = choose|i: int| 0 <= i < v@.len() && v@[i] == y;
                                assert(marked(b1, sb, v@[i] as int));
                            }
                        }
                    }
                    assert forall|z: int, y: int|
                        #![trigger marked(b1, sb, z), marked(b1, sb, y)]
                        marked(b1, sb, z) && !marked(b0, sb, z) && sb.first_data_zone <= y
                            < z implies marked(b1, sb, y) by {
                        let i = choose|i: int| 0 <= i < v@.len() && v@[i] == z;
                        assert(y < v@[i]);
                    }
                },
                Err(_) => {
                    if self.serves() {
                        assert forall|z: int| #[trigger] marked(b0, sb, z) == marked(b1, sb, z) by {
                            if marked(b1, sb, z) {
                                assert(marked(b0, sb, z));
                            }
                        }
                        lemma_avail_same(b0, b1, sb);
                        assert(self.ctx_used() =~= used) by {
                            assert forall|y: u32| self.ctx_used().contains(y) == used.contains(y) by {
                                if marked(b0, sb, y as int) {
                                    assert(marked(b1, sb, y as int));
                                }
                                if marked(b1, sb, y as int) {
                                    assert(marked(b0, sb, y as int));
                                }
                            }
                        }
                    }
                },
            }
        }
        r
    }

    fn alloc_zone(&mut self) -> (res: Result<u32, TfsError>)
        ensures
            final(self).same_but_blocks(old(self)),
            ({
                let sb = old(self).superblock;
                match res {
                    Ok(z) => {
                        let r = z - sb.first_data_zone;
                        &&& is_first_clear(old(self).blocks(), sb.zmap(), sb.data_zones(), r)
                        &&& final(self).blocks() == with_bit_at(
                            old(self).blocks(),
                            sb.zmap(),
                            r,
                            true,
                        )
                    },
                    Err(TfsError::NoSpaceLeft) => {
                        &&& all_set(old(self).blocks(), sb.zmap(), sb.data_zones())
                        &&& final(self).blocks() == old(self).blocks()
                    },
                    Err(e) => e == TfsError::IoError && !old(self).serves(),
                }
            }),
    {
        let ghost before = self.blocks();
        let ghost sb = self.superblock;
        let ghost used = self.ctx_used();
        proof {
            self.lemma_block_len();
        }
        let r: Result<u32, TfsError> = self.allocate_zone();
        proof {
            lemma_clear_count_zero(before, sb.zmap(), sb.data_zones());
            if r is Ok {
                let z = r->Ok_0;
                lemma_mark(before, sb, z as int, true);
                lemma_clear_count_set(
                    before,
                    sb.zmap(),
                    sb.data_zones(),
                    z - sb.first_data_zone,
                    true,
                );
                assert(!marked(before, sb, z as int));
                assert(self.ctx_used() =~= used.insert(z)) by {
                    assert forall|y: u32| self.ctx_used().contains(y) == used.insert(z).contains(y) by {
                        assert(marked(self.blocks(), sb, y as int) == if y as int == z as int {
                            true
                        } else {
                            marked(before, sb, y as int)
                        });
                    }
                }
            }
        }
        r
    }

    fn free_zone(&mut self, zone: u32) -> (res: Result<(), TfsError>)
        ensures
            final(self).same_but_blocks(old(self)),
            ({
                let sb = old(self).superblock;
                let r = zone - sb.first_data_zone;
                match res {
                    Ok(_) => {
                        &&& 0 <= r < sb.zmap_blocks * 16384
                        &&& final(self).blocks() == with_bit_at(
                            old(self).blocks(),
                            sb.zmap(),
                            r,
                            false,
                        )
                    },
                    Err(TfsError::InvalidZone) => {
                        &&& !(0 <= r < sb.zmap_blocks * 16384)
                        &&& final(self).blocks() == old(self).blocks()
                    },
                    Err(e) => e == TfsError::IoError && !old(self).serves(),
                }
            }),
    {
        let ghost before = self.blocks();
        let ghost sb = self.superblock;
        let ghost used = self.ctx_used();
        proof {
            self.lemma_block_len();
        }
        let r: Result<(), TfsError> = self.dealloc_zone(zone);
        proof {
            if r is Ok {
                lemma_freed(before, sb, zone as int);
                assert((zone - sb.first_data_zone) / 16384 < sb.zmap_blocks);
                lemma_clear_count_set(
                    before,
                    sb.zmap(),
                    sb.data_zones(),
                    zone - sb.first_data_zone,
                    false,
                );
                assert(self.ctx_used() =~= used.remove(zone)) by {
                    assert forall|y: u32| self.ctx_used().contains(y) == used.remove(zone).contains(y) by {
                        assert(marked(self.blocks(), sb, y as int) == (y as int != zone as int
                            && marked(before, sb, y as int)));
                    }
                }
            }
        }
        r
    }

    fn write_inode_twilight(&mut self, ino: u32, inode: Inode) -> (res: Result<(), &'static str>)
        ensures
            final(self).same_but_blocks(old(self)),
            match res {
                Ok(_) => valid_ino(old(self).superblock, ino as int) && final(self).blocks()
                    == with_inode(old(self).blocks(), old(self).superblock, ino as int, inode@),
                Err(m) => if valid_ino(old(self).superblock, ino as int) {
                    !old(self).serves()
                } else {
                    m == "Invalid inode number" && final(self).blocks() == old(self).blocks()
                },
            },
    {
        self.write_inode(ino, &inode)
    }

    fn remove_file(&mut self, path: &[u8]) -> (res: Result<(), ()>)
        ensures
            final(self).same_volume(old(self)),
            final(self).shared.generation == old(self).shared.generation,
            removed_as(old(self), final(self), path@, res is Ok),
    {
        self.rm(path)
    }
}

proof fn lemma_freed(blocks: Seq<Seq<u8>>, sb: Superblock, z: int)
    requires
        sb.wf(),
        sb.zones <= blocks.len(),
        forall|b: int| 0 <= b < blocks.len() ==> (#[trigger] blocks[b]).len() == 2048,
        0 <= z - sb.first_data_zone < sb.zmap_blocks * 16384,
    ensures
        forall|y: int| #[trigger]
            marked(with_bit_at(blocks, sb.zmap(), z - sb.first_data_zone, false), sb, y) == (y != z
                && marked(blocks, sb, y)),
{
    let r = z - sb.first_data_zone;
    let after = with_bit_at(blocks, sb.zmap(), r, false);
    assert forall|y: int| #[trigger] marked(after, sb, y) == (y != z && marked(blocks, sb, y)) by {
        if sb.first_data_zone <= y < sb.zones {
            assert(r / 16384 < sb.zmap_blocks);
            crate::twilight_fs::bitmap::lemma_with_bit_at(
                blocks,
                sb.zmap(),
                r,
                y - sb.first_data_zone,
                false,
            );
        }
    }
}

} // verus!
