//! Adding nodes to directories.

use crate::block::{splice, BlockDeviceIO};
use crate::bytes::{
    cut, le_digits, lemma_le_digits_len, push_all, push_le, push_repeat, read_u32, to_vec,
};
use crate::twilight_fs::bitmap::{all_set, is_first_clear, with_bit_at};
use crate::twilight_fs::cache::{at_key, dir_at, with_name, DirIndexEntry};
use crate::twilight_fs::dir::{dir_known, entry_ino, index_of};
use crate::twilight_fs::fs::{inode_at, lemma_with_inode, valid_ino, with_inode, Superblock, TwilightFs};
use crate::twilight_fs::inode::{
    encoded, fresh_inode, lemma_inode_round_trip, Inode, InodeView, IFLAG_ENCRYPTED, MODE_DIR, MODE_FILE,
};
use crate::twilight_fs::read::on_volume;
use crate::twilight_fs::shared::CacheView;
use crate::twilight_fs::volume::FsError;
use vstd::prelude::*;

verus! {

/// A block of zeros.
pub open spec fn zero_block() -> Seq<u8> {
    Seq::new(2048, |i: int| 0u8)
}

/// The name field for `name`: its first 60 bytes, then zeros.
pub open spec fn name_field(name: Seq<u8>) -> Seq<u8> {
    if name.len() >= 60 {
        name.take(60)
    } else {
        name + Seq::new((60 - name.len()) as nat, |i: int| 0u8)
    }
}

/// The directory entry for `name`.
pub open spec fn entry_bytes(child: u32, name: Seq<u8>) -> Seq<u8> {
    le_digits(child as nat, 4) + name_field(name)
}

/// Block `bi` of a directory as a new entry finds it: one that is not there yet is
/// all zeros, and so is the first block of a directory of size zero.
pub open spec fn dir_block(blocks: Seq<Seq<u8>>, dir: InodeView, bi: int) -> Seq<u8> {
    if dir.direct[bi] == 0 || bi == 0 && dir.size == 0 {
        zero_block()
    } else {
        blocks[dir.direct[bi] as int]
    }
}

/// Whether entry `s` of a directory can take a new entry.
pub open spec fn entry_free(blocks: Seq<Seq<u8>>, dir: InodeView, s: int) -> bool {
    entry_ino(dir_block(blocks, dir, s / 32), s % 32) == 0
}

/// Whether `s` is the first free entry from `hint` on, going round once.
pub open spec fn is_insert_slot(blocks: Seq<Seq<u8>>, dir: InodeView, hint: int, s: int) -> bool {
    &&& slot_reached(blocks, dir, hint, s)
    &&& entry_free(blocks, dir, s)
    &&& forall|t: int| comes_before(hint, t, s) ==> !#[trigger] entry_free(blocks, dir, t)
}

/// Where the search for a free entry of `parent` starts.
pub open spec fn hint_of(caches: CacheView, parent: u32) -> int {
    match dir_at(caches.dirs, parent) {
        Some(e) => if e.hint < 384 {
            e.hint as int
        } else {
            384
        },
        None => 0,
    }
}

/// `v` plus 64, modulo two to the 64.
pub open spec fn plus_entry(v: u64) -> u64 {
    if v + 64 > u64::MAX {
        (v + 64 - 0x1_0000_0000_0000_0000) as u64
    } else {
        (v + 64) as u64
    }
}

/// Whether `entry` was put into entry `s` of `parent`, in zone `z`, which is new
/// where the directory had none there.
pub open spec fn entry_put(
    b0: Seq<Seq<u8>>,
    b1: Seq<Seq<u8>>,
    sb: Superblock,
    parent: u32,
    entry: Seq<u8>,
    s: int,
    z: u32,
) -> bool {
    let dir = inode_at(b0, sb, parent as int);
    let bi = s / 32;
    let fresh = dir.direct[bi] == 0;
    let base = if fresh {
        with_bit_at(b0, sb.zmap(), z - sb.first_data_zone, true)
    } else {
        b0
    };
    &&& z < b0.len()
    &&& if fresh {
        is_first_clear(b0, sb.zmap(), sb.data_zones(), z - sb.first_data_zone)
    } else {
        z == dir.direct[bi]
    }
    &&& b1 == with_inode(
        base.update(z as int, splice(dir_block(b0, dir, bi), 64 * (s % 32), entry)),
        sb,
        parent as int,
        InodeView {
            size: plus_entry(dir.size),
            direct: dir.direct.update(bi, z),
            ..dir
        },
    )
}

/// One way in which `parent` can have got the entry `name`.
pub open spec fn entry_added_at(
    b0: Seq<Seq<u8>>,
    b1: Seq<Seq<u8>>,
    sb: Superblock,
    c0: CacheView,
    c1: CacheView,
    parent: u32,
    name: Seq<u8>,
    child: u32,
    s: int,
    z: u32,
) -> bool {
    &&& is_insert_slot(b0, inode_at(b0, sb, parent as int), hint_of(c0, parent), s)
    &&& entry_put(b0, b1, sb, parent, entry_bytes(child, name), s, z)
    &&& c1 == CacheView {
        dirs: with_name(
            c0.dirs,
            parent,
            name,
            child,
            (s + 1) as usize,
        ),
        ..c0
    }
}

/// Whether `parent` has got the entry `name`, in its first free place.
pub open spec fn entry_added(
    b0: Seq<Seq<u8>>,
    b1: Seq<Seq<u8>>,
    sb: Superblock,
    c0: CacheView,
    c1: CacheView,
    parent: u32,
    name: Seq<u8>,
    child: u32,
) -> bool {
    exists|s: int, z: u32| #[trigger]
        entry_added_at(b0, b1, sb, c0, c1, parent, name, child, s, z)
}

/// Whether entry `t` is looked at before entry `s`, in a search from `hint` on that goes round
/// once.
pub open spec fn comes_before(hint: int, t: int, s: int) -> bool {
    if s >= hint {
        hint <= t < s
    } else {
        hint <= t < 384 || 0 <= t < s
    }
}

/// Whether the zone of entry `t` is on the volume, if it has one.
pub open spec fn zone_there(blocks: Seq<Seq<u8>>, dir: InodeView, t: int) -> bool {
    dir.direct[t / 32] < blocks.len()
}

/// Whether the search for a free entry looks at entry `s`: those before it can be read and
/// are in use.
pub open spec fn slot_reached(blocks: Seq<Seq<u8>>, dir: InodeView, hint: int, s: int) -> bool {
    &&& 0 <= s < 384
    &&& forall|t: int| #[trigger]
        comes_before(hint, t, s) ==> zone_there(blocks, dir, t) && !entry_free(blocks, dir, t)
}

/// Whether the search for a free entry ends in failure at entry `s`: its zone is not on the
/// volume, or there is none yet and no zone is free.
pub open spec fn slot_stuck(blocks: Seq<Seq<u8>>, sb: Superblock, dir: InodeView, hint: int, s: int) -> bool {
    &&& slot_reached(blocks, dir, hint, s)
    &&& ({
        ||| dir.direct[s / 32] >= blocks.len()
        ||| dir.direct[s / 32] == 0 && all_set(blocks, sb.zmap(), sb.data_zones())
    })
}

/// Whether all entries of a directory are in use.
pub open spec fn dir_full(blocks: Seq<Seq<u8>>, dir: InodeView) -> bool {
    &&& on_volume(blocks, dir.direct)
    &&& forall|t: int| 0 <= t < 384 ==> !#[trigger] entry_free(blocks, dir, t)
}

/// Whether `parent` cannot take a new entry: it has no inode, all its entries are in use, or
/// the search for a free one ends in failure.
pub open spec fn entry_refused(blocks: Seq<Seq<u8>>, sb: Superblock, caches: CacheView, parent: u32) -> bool {
    let dir = inode_at(blocks, sb, parent as int);
    ||| !valid_ino(sb, parent as int)
    ||| dir_full(blocks, dir)
    ||| exists|s: int| #[trigger] slot_stuck(blocks, sb, dir, hint_of(caches, parent), s)
}

/// Why `parent` cannot take a new entry, in words.
pub open spec fn entry_error(
    blocks: Seq<Seq<u8>>,
    sb: Superblock,
    caches: CacheView,
    parent: u32,
    m: &'static str,
) -> bool {
    let dir = inode_at(blocks, sb, parent as int);
    if !valid_ino(sb, parent as int) {
        m == "Invalid inode number"
    } else if dir_full(blocks, dir) {
        m == "Directory is full"
    } else {
        exists|s: int| #[trigger]
            slot_stuck(blocks, sb, dir, hint_of(caches, parent), s) && m
                == if dir.direct[s / 32] >= blocks.len() {
                "Failed to read block"
            } else {
                "Failed to allocate directory zone"
            }
    }
}

/// The name field for `name`.
pub fn make_name_field(name: &[u8]) -> (r: Vec<u8>)
    ensures
        r@ == name_field(name@),
        r@.len() == 60,
{
    if name.len() >= 60 {
        let r: Vec<u8> = cut(name, 0, 60);
        proof {
            assert(r@ =~= name@.take(60));
        }
        r
    } else {
        let mut r: Vec<u8> = to_vec(name);
        push_repeat(&mut r, 0, 60 - name.len());
        r
    }
}

fn make_entry(child: u32, name: &[u8]) -> (r: Vec<u8>)
    ensures
        r@ == entry_bytes(child, name@),
        r@.len() == 64,
{
    let mut r: Vec<u8> = Vec::new();
    push_le(&mut r, child as u64, 4);
    let field: Vec<u8> = make_name_field(name);
    push_all(&mut r, &field);
    proof {
        lemma_le_digits_len(child as nat, 4);
        assert(r@ =~= entry_bytes(child, name@));
    }
    r
}

/// `buf` with the bytes from `at` on replaced by `d`.
pub fn splice_vec(buf: &Vec<u8>, at: usize, d: &[u8]) -> (r: Vec<u8>)
    requires
        at + d@.len() <= buf@.len(),
    ensures
        r@ == splice(buf@, at as int, d@),
        r@.len() == buf@.len(),
{
    let len: usize = buf.len();
    let mut r: Vec<u8> = cut(buf, 0, at);
    push_all(&mut r, d);
    let rest: Vec<u8> = cut(buf, at + d.len(), len);
    push_all(&mut r, &rest);
    proof {
        assert(r@ =~= splice(buf@, at as int, d@));
    }
    r
}

fn zeros(n: usize) -> (r: Vec<u8>)
    ensures
        r@ == Seq::new(n as nat, |i: int| 0u8),
{
    let mut r: Vec<u8> = Vec::new();
    push_repeat(&mut r, 0, n);
    proof {
        assert(r@ =~= Seq::new(n as nat, |i: int| 0u8));
    }
    r
}

pub(crate) proof fn lemma_zero_entry(k: int)
    requires
        0 <= k < 32,
    ensures
        entry_ino(zero_block(), k) == 0,
{
    let t = zero_block().subrange(64 * k, 64 * k + 4);
    assert(t =~= seq![0u8, 0u8, 0u8, 0u8]);
    reveal_with_fuel(crate::bytes::le_value, 5);
    assert(t.skip(1).skip(1).skip(1).skip(1).len() == 0);
}

/// Writing an inode twice is writing it once, and does not touch a data zone.
proof fn lemma_inode_twice(
    b: Seq<Seq<u8>>,
    sb: Superblock,
    ino: int,
    v1: InodeView,
    v2: InodeView,
    z: int,
    x: Seq<u8>,
    y: Seq<u8>,
)
    requires
        sb.wf(),
        b.len() >= sb.zones,
        forall|i: int| 0 <= i < b.len() ==> (#[trigger] b[i]).len() == 2048,
        valid_ino(sb, ino),
        v1.direct.len() == 12,
        v2.direct.len() == 12,
        sb.first_data_zone <= z < b.len(),
        x.len() == 2048,
        y.len() == 2048,
    ensures
        with_inode(b.update(z, x), sb, ino, v1)[z] == x,
        with_inode(with_inode(b.update(z, x), sb, ino, v1).update(z, y), sb, ino, v2)
            == with_inode(b.update(z, y), sb, ino, v2),
{
    lemma_inode_round_trip(v1);
    lemma_inode_round_trip(v2);
    lemma_with_inode(b, sb, ino, v1, ino);
    let k = sb.itable() + (ino - 1) / 16;
    let at = ((ino - 1) % 16) * 128;
    crate::block::lemma_splice(b[k], at, encoded(v1));
    let once = splice(b[k], at, encoded(v1));
    assert(splice(once, at, encoded(v2)) =~= splice(b[k], at, encoded(v2)));
    let l = with_inode(with_inode(b.update(z, x), sb, ino, v1).update(z, y), sb, ino, v2);
    let r = with_inode(b.update(z, y), sb, ino, v2);
    assert(l =~= r);
}

/// Whether the zones of the entries from `start` up to `end` are on the volume.
spec fn zones_seen(blocks: Seq<Seq<u8>>, dir: InodeView, start: int, end: int) -> bool {
    forall|t: int| start <= t < end ==> #[trigger] zone_there(blocks, dir, t)
}

/// Whether putting an entry into a place from `start` on fails at entry `s`, for `m`.
spec fn insert_stuck(
    blocks: Seq<Seq<u8>>,
    sb: Superblock,
    dir: InodeView,
    start: int,
    end: int,
    s: int,
    m: &'static str,
) -> bool {
    &&& start <= s < end
    &&& forall|t: int| start <= t < s ==> !#[trigger] entry_free(blocks, dir, t)
    &&& zones_seen(blocks, dir, start, s)
    &&& if dir.direct[s / 32] >= blocks.len() {
        m == "Failed to read block"
    } else {
        &&& dir.direct[s / 32] == 0
        &&& all_set(blocks, sb.zmap(), sb.data_zones())
        &&& m == "Failed to allocate directory zone"
    }
}

/// A search from the hint on, and then from the first entry up to it, fails where the search
/// that goes round does.
proof fn lemma_insert_stuck(
    blocks: Seq<Seq<u8>>,
    sb: Superblock,
    caches: CacheView,
    parent: u32,
    start: int,
    end: int,
    m: &'static str,
)
    requires
        valid_ino(sb, parent as int),
        blocks.len() > 0,
        ({
            let dir = inode_at(blocks, sb, parent as int);
            let hint = hint_of(caches, parent);
            &&& dir.direct.len() == 12
            &&& exists|s: int| #[trigger] insert_stuck(blocks, sb, dir, start, end, s, m)
            &&& ({
                ||| start == hint && end == 384
                ||| {
                    &&& start == 0
                    &&& end == hint
                    &&& zones_seen(blocks, dir, hint, 384)
                    &&& forall|t: int| hint <= t < 384 ==> !#[trigger] entry_free(blocks, dir, t)
                }
            })
        }),
    ensures
        entry_refused(blocks, sb, caches, parent),
        entry_error(blocks, sb, caches, parent, m),
{
    let dir = inode_at(blocks, sb, parent as int);
    let hint = hint_of(caches, parent);
    let s = choose|s: int| #[trigger] insert_stuck(blocks, sb, dir, start, end, s, m);
    assert forall|t: int| #[trigger] comes_before(hint, t, s) implies zone_there(blocks, dir, t)
        && !entry_free(blocks, dir, t) by {
        assert(!entry_free(blocks, dir, t));
    }
    assert(slot_stuck(blocks, sb, dir, hint, s));
    if dir_full(blocks, dir) {
        assert(dir.direct[s / 32] < blocks.len());
        assert(dir.direct[s / 32] == 0);
        lemma_zero_entry(s % 32);
        assert(!entry_free(blocks, dir, s));
        assert(false);
    }
}

impl<D: BlockDeviceIO> TwilightFs<D> {
    /// Puts `entry` into the first free place of the directory from `start` on,
    /// before `end`; gives the place and its zone.
    fn try_insert(
        &mut self,
        parent: u32,
        dir: &Inode,
        start: usize,
        end: usize,
        entry: &Vec<u8>,
    ) -> (res: Result<Option<(usize, u32)>, &'static str>)
        requires
            old(self).wf(),
            start <= end <= 384,
            entry@.len() == 64,
            valid_ino(old(self).superblock, parent as int),
            dir@ == inode_at(old(self).blocks(), old(self).superblock, parent as int),
        ensures
            final(self).wf(),
            final(self).same_but_blocks(old(self)),
            ({
                let b0 = old(self).blocks();
                let sb = old(self).superblock;
                match res {
                    Ok(Some((s, z))) => {
                        &&& start <= s < end
                        &&& entry_free(b0, dir@, s as int)
                        &&& forall|t: int| start <= t < s ==> !#[trigger] entry_free(b0, dir@, t)
                        &&& zones_seen(b0, dir@, start as int, s as int)
                        &&& entry_put(b0, final(self).blocks(), sb, parent, entry@, s as int, z)
                    },
                    Ok(None) => {
                        &&& forall|t: int| start <= t < end ==> !#[trigger] entry_free(b0, dir@, t)
                        &&& zones_seen(b0, dir@, start as int, end as int)
                        &&& final(self).blocks() == b0
                    },
                    Err(m) => {
                        &&& m != "Directory is full"
                        &&& !old(self).serves() || final(self).blocks() == b0 && exists|s: int| #[trigger]
                            insert_stuck(b0, sb, dir@, start as int, end as int, s, m)
                    },
                }
            }),
    {
        let ghost b0 = self.blocks();
        let ghost sb = self.superblock;
        let mut buf: Vec<u8> = Vec::new();
        let mut have: usize = 12;
        let mut s: usize = start;
        while s < end
            invariant
                self.wf(),
                self.same_but_blocks(old(self)),
                b0 == old(self).blocks(),
                sb == old(self).superblock,
                self.blocks() == b0,
                start <= s <= end <= 384,
                entry@.len() == 64,
                valid_ino(sb, parent as int),
                dir@ == inode_at(b0, sb, parent as int),
                have <= 12,
                have < 12 ==> buf@ == dir_block(b0, dir@, have as int) && buf@.len() == 2048
                    && dir@.direct[have as int] != 0 && dir@.direct[have as int] < b0.len(),
                forall|t: int| start <= t < s ==> !#[trigger] entry_free(b0, dir@, t),
                zones_seen(b0, dir@, start as int, s as int),
            decreases end - s,
        {
            let bi: usize = s / 32;
            let ei: usize = s % 32;
            let zone: u32 = dir.direct_slot_get(bi);
            if zone == 0 {
                let r: Result<Option<(usize, u32)>, &'static str> = self.insert_fresh(
                    parent,
                    dir,
                    s,
                    entry,
                );
                proof {
                    if r is Err && self.serves() {
                        assert(insert_stuck(
                            b0,
                            sb,
                            dir@,
                            start as int,
                            end as int,
                            s as int,
                            r->Err_0,
                        ));
                    }
                }
                return r;
            }
            if have != bi {
                buf = match self.get_block(zone) {
                    Ok(b) => b,
                    Err(_) => {
                        proof {
                            if self.serves() {
                                assert(insert_stuck(
                                    b0,
                                    sb,
                                    dir@,
                                    start as int,
                                    end as int,
                                    s as int,
                                    "Failed to read block",
                                ));
                            }
                        }
                        return Err("Failed to read block");
                    },
                };
                if bi == 0 && dir.size == 0 {
                    buf = zeros(2048);
                }
                have = bi;
            }
            let ino: u32 = read_u32(&buf, 64 * ei);
            if ino == 0 {
                let fresh: Vec<u8> = splice_vec(&buf, 64 * ei, entry);
                match self.put_block(zone, &fresh) {
                    Ok(_) => {},
                    Err(_) => return Err("Failed to write block"),
                }
                let mut grown: Inode = *dir;
                grown.size = grown.size.wrapping_add(64);
                proof {
                    assert(dir@.direct.update(bi as int, zone) =~= dir@.direct);
                    assert(grown@ == (InodeView {
                        size: plus_entry(dir@.size),
                        direct: dir@.direct.update(bi as int, zone),
                        ..dir@
                    }));
                }
                match self.write_inode(parent, &grown) {
                    Ok(_) => {},
                    Err(m) => return Err(m),
                }
                return Ok(Some((s, zone)));
            }
            s = s + 1;
        }
        Ok(None)
    }

    /// Puts `entry` into entry `s` of a directory that has no zone there yet.
    fn insert_fresh(&mut self, parent: u32, dir: &Inode, s: usize, entry: &Vec<u8>) -> (res: Result<
        Option<(usize, u32)>,
        &'static str,
    >)
        requires
            old(self).wf(),
            s < 384,
            entry@.len() == 64,
            valid_ino(old(self).superblock, parent as int),
            dir@ == inode_at(old(self).blocks(), old(self).superblock, parent as int),
            dir@.direct[s as int / 32] == 0,
        ensures
            final(self).wf(),
            final(self).same_but_blocks(old(self)),
            ({
                let b0 = old(self).blocks();
                let sb = old(self).superblock;
                match res {
                    Ok(Some((t, z))) => t == s && entry_free(b0, dir@, s as int) && entry_put(
                        b0,
                        final(self).blocks(),
                        sb,
                        parent,
                        entry@,
                        s as int,
                        z,
                    ),
                    Ok(None) => false,
                    Err(m) => {
                        &&& m != "Directory is full"
                        &&& !old(self).serves() || (m == "Failed to allocate directory zone"
                            && all_set(b0, sb.zmap(), sb.data_zones()) && final(self).blocks() == b0)
                    },
                }
            }),
    {
        let ghost b0 = self.blocks();
        let ghost sb = self.superblock;
        let bi: usize = s / 32;
        let ei: usize = s % 32;
        let zone: u32 = match self.allocate_zone() {
            Ok(z) => z,
            Err(_) => return Err("Failed to allocate directory zone"),
        };
        let ghost base = self.blocks();
        proof {
            self.lemma_block_len();
            lemma_zero_entry(ei as int);
        }
        let mut grown: Inode = *dir;
        grown.direct_slot_set(bi, zone);
        let blank: Vec<u8> = zeros(2048);
        match self.put_block(zone, &blank) {
            Ok(_) => {},
            Err(_) => return Err("Failed to initialize directory block"),
        }
        let ghost v1 = grown@;
        match self.write_inode(parent, &grown) {
            Ok(_) => {},
            Err(m) => return Err(m),
        }
        let ghost mid = self.blocks();
        let buf: Vec<u8> = match self.get_block(zone) {
            Ok(b) => b,
            Err(_) => return Err("Failed to read block"),
        };
        let fresh: Vec<u8> = splice_vec(&blank, 64 * ei, entry);
        proof {
            lemma_inode_twice(
                base,
                sb,
                parent as int,
                v1,
                v1,
                zone as int,
                blank@,
                fresh@,
            );
            assert(buf@ == blank@);
        }
        match self.put_block(zone, &fresh) {
            Ok(_) => {},
            Err(_) => return Err("Failed to write block"),
        }
        grown.size = grown.size.wrapping_add(64);
        proof {
            assert(grown@ == (InodeView {
                size: plus_entry(dir@.size),
                direct: dir@.direct.update(bi as int, zone),
                ..dir@
            }));
            lemma_inode_twice(
                base,
                sb,
                parent as int,
                v1,
                grown@,
                zone as int,
                blank@,
                fresh@,
            );
        }
        match self.write_inode(parent, &grown) {
            Ok(_) => {},
            Err(m) => return Err(m),
        }
        Ok(Some((s, zone)))
    }

    /// Adds the entry `name` to a directory.
    pub fn create_dir_entry(
        &mut self,
        parent_inode_num: u32,
        name: &[u8],
        child_inode_num: u32,
    ) -> (res: Result<(), &'static str>)
        requires
            old(self).wf(),
        ensures
            final(self).wf(),
            final(self).same_volume(old(self)),
            final(self).shared.generation == old(self).shared.generation,
            final(self).shared.lookup_cache == old(self).shared.lookup_cache,
            ({
                let b0 = old(self).blocks();
                let sb = old(self).superblock;
                match res {
                    Ok(_) => {
                        &&& valid_ino(sb, parent_inode_num as int)
                        &&& final(self).shared.dir_index_cache.generation
                            == final(self).shared.generation
                        &&& entry_added(
                            b0,
                            final(self).blocks(),
                            sb,
                            old(self).shared@,
                            final(self).shared@,
                            parent_inode_num,
                            name@,
                            child_inode_num,
                        )
                    },
                    Err(m) => {
                        let c0 = old(self).shared@;
                        &&& final(self).shared@ == c0
                        &&& !valid_ino(sb, parent_inode_num as int) ==> m == "Invalid inode number"
                            && final(self).blocks() == b0
                        &&& m == "Directory is full" ==> final(self).blocks() == b0 && dir_full(
                            b0,
                            inode_at(b0, sb, parent_inode_num as int),
                        )
                        &&& old(self).serves() ==> {
                            &&& final(self).blocks() == b0
                            &&& entry_refused(b0, sb, c0, parent_inode_num)
                            &&& entry_error(b0, sb, c0, parent_inode_num, m)
                        }
                    },
                }
            }),
    {
        let dir: Inode = match self.read_inode(parent_inode_num) {
            Ok(i) => i,
            Err(m) => return Err(m),
        };
        let ghost b0 = self.blocks();
        let ghost sb = self.superblock;
        let ghost c0 = self.shared@;
        let hint: usize = match self.shared.dir_index_get(parent_inode_num) {
            Some(e) => if e.next_free_slot_hint < 384 {
                e.next_free_slot_hint
            } else {
                384
            },
            None => 0,
        };
        let entry: Vec<u8> = make_entry(child_inode_num, name);
        let mut found: Option<(usize, u32)> = match self.try_insert(
            parent_inode_num,
            &dir,
            hint,
            384,
            &entry,
        ) {
            Ok(r) => r,
            Err(m) => {
                proof {
                    if self.serves() {
                        lemma_insert_stuck(b0, sb, c0, parent_inode_num, hint as int, 384, m);
                    }
                }
                return Err(m);
            },
        };
        if found.is_none() && hint > 0 {
            found = match self.try_insert(parent_inode_num, &dir, 0, hint, &entry) {
                Ok(r) => r,
                Err(m) => {
                    proof {
                        if self.serves() {
                            lemma_insert_stuck(b0, sb, c0, parent_inode_num, 0, hint as int, m);
                        }
                    }
                    return Err(m);
                },
            };
        }
        match found {
            Some((s, z)) => {
                let ghost b1 = self.blocks();
                proof {
                    assert forall|t: int| #[trigger] comes_before(hint as int, t, s as int) implies zone_there(
                        b0,
                        dir@,
                        t,
                    ) && !entry_free(b0, dir@, t) by {
                        assert(!entry_free(b0, dir@, t));
                    }
                }
                self.shared.dir_index_update_after_insert(
                    parent_inode_num,
                    to_vec(name),
                    child_inode_num,
                    s + 1,
                );
                proof {
                    assert(entry_added_at(
                        b0,
                        b1,
                        self.superblock,
                        c0,
                        self.shared@,
                        parent_inode_num,
                        name@,
                        child_inode_num,
                        s as int,
                        z,
                    ));
                }
                Ok(())
            },
            None => {
                proof {
                    assert(dir_full(b0, dir@)) by {
                        assert forall|i: int| 0 <= i < 12 implies #[trigger] dir@.direct[i]
                            < b0.len() by {
                            assert(zone_there(b0, dir@, 32 * i));
                            assert(32 * i / 32 == i);
                        }
                    }
                }
                Err("Directory is full")
            },
        }
    }
}

/// The inode of a new node in the directory with the inode `parent`: it takes the
/// encryption flag over.
pub open spec fn node_inode(parent: InodeView, dir: bool, mode: u16, time: u64) -> InodeView {
    let v = fresh_inode(
        time,
        (if dir {
            MODE_DIR
        } else {
            MODE_FILE
        }) | (mode & 0o7777),
    );
    if parent.flags & IFLAG_ENCRYPTED != 0 {
        InodeView { flags: IFLAG_ENCRYPTED, ..v }
    } else {
        v
    }
}

/// Whether node `n` was made, with the first free inode and the first free zone.
pub open spec fn node_made(
    b0: Seq<Seq<u8>>,
    b1: Seq<Seq<u8>>,
    sb: Superblock,
    node: InodeView,
    n: u32,
    z: u32,
) -> bool {
    let c = with_bit_at(b0, 1, n - 1, true);
    let d = with_bit_at(c, sb.zmap(), z - sb.first_data_zone, true);
    &&& is_first_clear(b0, 1, sb.ninodes as int, n - 1)
    &&& is_first_clear(c, sb.zmap(), sb.data_zones(), z - sb.first_data_zone)
    &&& b1 == with_inode(
        d,
        sb,
        n as int,
        InodeView { direct: node.direct.update(0, z), ..node },
    )
}

/// The steps by which a file gets into a directory.
pub open spec fn file_steps(
    b0: Seq<Seq<u8>>,
    b1: Seq<Seq<u8>>,
    b2: Seq<Seq<u8>>,
    sb: Superblock,
    c0: CacheView,
    c2: CacheView,
    parent: u32,
    name: Seq<u8>,
    mode: u16,
    time: u64,
    n: u32,
    z: u32,
) -> bool {
    let p = inode_at(b0, sb, parent as int);
    let c1 = dir_known(b0, c0, parent, p.direct);
    &&& node_made(b0, b1, sb, node_inode(p, false, mode, time), n, z)
    &&& entry_added(b1, b2, sb, c1, c2, parent, name, n)
}

/// Whether `parent` has got the new file `name`, inode `n`.
pub open spec fn file_created(
    b0: Seq<Seq<u8>>,
    b2: Seq<Seq<u8>>,
    sb: Superblock,
    c0: CacheView,
    c2: CacheView,
    parent: u32,
    name: Seq<u8>,
    mode: u16,
    time: u64,
    n: u32,
) -> bool {
    exists|b1: Seq<Seq<u8>>, z: u32| #[trigger]
        file_steps(b0, b1, b2, sb, c0, c2, parent, name, mode, time, n, z)
}

pub open spec fn dot() -> Seq<u8> {
    seq![46u8]
}

pub open spec fn dot_dot() -> Seq<u8> {
    seq![46u8, 46u8]
}

/// The steps by which a directory gets into a directory: it is made, entered, and
/// given its own two entries.
pub open spec fn dir_steps(
    b0: Seq<Seq<u8>>,
    b1: Seq<Seq<u8>>,
    b2: Seq<Seq<u8>>,
    b3: Seq<Seq<u8>>,
    b4: Seq<Seq<u8>>,
    sb: Superblock,
    c0: CacheView,
    c2: CacheView,
    c3: CacheView,
    c4: CacheView,
    parent: u32,
    name: Seq<u8>,
    mode: u16,
    time: u64,
    n: u32,
    z: u32,
) -> bool {
    let p = inode_at(b0, sb, parent as int);
    let c1 = dir_known(b0, c0, parent, p.direct);
    &&& node_made(b0, b1, sb, node_inode(p, true, mode, time), n, z)
    &&& entry_added(b1, b2, sb, c1, c2, parent, name, n)
    &&& entry_added(b2, b3, sb, c2, c3, n, dot(), n)
    &&& entry_added(b3, b4, sb, c3, c4, n, dot_dot(), parent)
}

/// Whether `parent` has got the new directory `name`, inode `n`.
pub open spec fn dir_created(
    b0: Seq<Seq<u8>>,
    b4: Seq<Seq<u8>>,
    sb: Superblock,
    c0: CacheView,
    c4: CacheView,
    parent: u32,
    name: Seq<u8>,
    mode: u16,
    time: u64,
    n: u32,
) -> bool {
    exists|
        b1: Seq<Seq<u8>>,
        b2: Seq<Seq<u8>>,
        b3: Seq<Seq<u8>>,
        c2: CacheView,
        c3: CacheView,
        z: u32,
    | #[trigger]
        dir_steps(b0, b1, b2, b3, b4, sb, c0, c2, c3, c4, parent, name, mode, time, n, z)
}

/// Whether no node could be made, and what the volume holds then: without a free inode nothing
/// has changed, and without a free zone the inode is taken.
pub open spec fn node_not_made(b0: Seq<Seq<u8>>, b1: Seq<Seq<u8>>, sb: Superblock) -> bool {
    ||| all_set(b0, 1, sb.ninodes as int) && b1 == b0
    ||| {
        &&& exists|i: int|
            is_first_clear(b0, 1, sb.ninodes as int, i) && b1 == #[trigger] with_bit_at(b0, 1, i, true)
        &&& all_set(b1, sb.zmap(), sb.data_zones())
    }
}

/// Whether a node was made that `parent` could not take; it is left without a name.
pub open spec fn node_refused(
    b0: Seq<Seq<u8>>,
    b1: Seq<Seq<u8>>,
    sb: Superblock,
    c1: CacheView,
    node: InodeView,
    parent: u32,
) -> bool {
    exists|n: u32, z: u32| #[trigger]
        node_made(b0, b1, sb, node, n, z) && entry_refused(b1, sb, c1, parent)
}

/// Whether a new node for `parent` cannot be had, and what is left behind then: its directory
/// cannot be read, inodes or zones have run out, or the directory cannot take it.
pub open spec fn no_room(
    b0: Seq<Seq<u8>>,
    b1: Seq<Seq<u8>>,
    sb: Superblock,
    c0: CacheView,
    c1: CacheView,
    node: InodeView,
    parent: u32,
    name: Seq<u8>,
) -> bool {
    let direct = inode_at(b0, sb, parent as int).direct;
    if !valid_ino(sb, parent as int) || (dir_at(c0.dirs, parent) is None && !on_volume(b0, direct)) {
        b1 == b0 && c1 == c0
    } else {
        &&& at_key(index_of(b0, c0, parent, direct).names, name) is None
        &&& c1 == dir_known(b0, c0, parent, direct)
        &&& node_not_made(b0, b1, sb) || node_refused(b0, b1, sb, c1, node, parent)
    }
}

impl<D: BlockDeviceIO> TwilightFs<D> {
    /// Makes a node: takes an inode and a zone and writes the inode.
    fn make_node(&mut self, node: Inode) -> (res: Result<(u32, u32), FsError>)
        requires
            old(self).wf(),
        ensures
            final(self).wf(),
            final(self).same_but_blocks(old(self)),
            match res {
                Ok((n, z)) => node_made(
                    old(self).blocks(),
                    final(self).blocks(),
                    old(self).superblock,
                    node@,
                    n,
                    z,
                ) && valid_ino(old(self).superblock, n as int),
                Err(e) => e == FsError::InvalidInode && (!old(self).serves() || node_not_made(
                    old(self).blocks(),
                    final(self).blocks(),
                    old(self).superblock,
                )),
            },
    {
        let ghost b0 = self.blocks();
        let ghost sb = self.superblock;
        let i: u32 = match self.allocate_inode() {
            Ok(i) => i,
            Err(_) => return Err(FsError::InvalidInode),
        };
        let n: u32 = i + 1;
        let ghost c = self.blocks();
        let z: u32 = match self.allocate_zone() {
            Ok(z) => z,
            Err(_) => {
                proof {
                    assert(c == with_bit_at(b0, 1, i as int, true));
                }
                return Err(FsError::InvalidInode);
            },
        };
        let mut inode: Inode = node;
        inode.direct_slot_set(0, z);
        match self.write_inode(n, &inode) {
            Ok(_) => Ok((n, z)),
            Err(_) => Err(FsError::InvalidInode),
        }
    }

    /// The inode of a new node in the directory `parent`.
    fn plan_node(parent: &Inode, dir: bool, mode: u16, time: u64) -> (r: Inode)
        ensures
            r@ == node_inode(parent@, dir, mode, time),
    {
        let mut inode: Inode = if dir {
            Inode::new_dir(time, mode)
        } else {
            Inode::new_file(time, mode)
        };
        if parent.flags & IFLAG_ENCRYPTED != 0 {
            proof {
                assert(0u32 | IFLAG_ENCRYPTED == IFLAG_ENCRYPTED) by (bit_vector);
            }
            inode.flags = inode.flags | IFLAG_ENCRYPTED;
        }
        inode
    }

    /// Makes an empty file that everyone may use.
    pub fn create_file(&mut self, parent_inode_num: u32, name: &[u8], time: u64) -> (res: Result<
        u32,
        FsError,
    >)
        requires
            old(self).wf(),
        ensures
            final(self).wf(),
            final(self).same_volume(old(self)),
            final(self).shared.generation == old(self).shared.generation,
            create_file_result(
                old(self).blocks(),
                final(self).blocks(),
                old(self).superblock,
                old(self).serves(),
                old(self).shared@,
                final(self).shared@,
                parent_inode_num,
                name@,
                0o777,
                time,
                res,
            ),
    {
        self.create_file_with_mode(parent_inode_num, name, 0o777, time)
    }

    /// Makes an empty file.
    pub fn create_file_with_mode(
        &mut self,
        parent_inode_num: u32,
        name: &[u8],
        mode: u16,
        time: u64,
    ) -> (res: Result<u32, FsError>)
        requires
            old(self).wf(),
        ensures
            final(self).wf(),
            final(self).same_volume(old(self)),
            final(self).shared.generation == old(self).shared.generation,
            create_file_result(
                old(self).blocks(),
                final(self).blocks(),
                old(self).superblock,
                old(self).serves(),
                old(self).shared@,
                final(self).shared@,
                parent_inode_num,
                name@,
                mode,
                time,
                res,
            ),
    {
        if name.len() > 60 {
            return Err(FsError::FileNotFound);
        }
        let ghost b0 = self.blocks();
        let ghost sb = self.superblock;
        let ghost c0 = self.shared@;
        let parent: Inode = match self.read_inode(parent_inode_num) {
            Ok(i) => i,
            Err(_) => return Err(FsError::InvalidInode),
        };
        let index: DirIndexEntry = match self.ensure_dir_index_entry(parent_inode_num, &parent) {
            Ok(e) => e,
            Err(e) => return Err(e),
        };
        if index.names.get(name).is_some() {
            return Err(FsError::FileAlreadyExists);
        }
        let node: Inode = Self::plan_node(&parent, false, mode, time);
        let (n, z): (u32, u32) = match self.make_node(node) {
            Ok(r) => r,
            Err(e) => return Err(e),
        };
        let ghost b1 = self.blocks();
        match self.create_dir_entry(parent_inode_num, name, n) {
            Ok(_) => {
                proof {
                    assert(file_steps(
                        b0,
                        b1,
                        self.blocks(),
                        sb,
                        c0,
                        self.shared@,
                        parent_inode_num,
                        name@,
                        mode,
                        time,
                        n,
                        z,
                    ));
                    assert(file_created(
                        b0,
                        self.blocks(),
                        sb,
                        c0,
                        self.shared@,
                        parent_inode_num,
                        name@,
                        mode,
                        time,
                        n,
                    ));
                }
                Ok(n)
            },
            Err(_) => {
                proof {
                    assert(node_made(b0, b1, sb, node@, n, z));
                }
                Err(FsError::InvalidInode)
            },
        }
    }

    /// Makes a directory that everyone may use.
    pub fn create_dir(&mut self, parent_inode_num: u32, name: &[u8], time: u64) -> (res: Result<
        u32,
        FsError,
    >)
        requires
            old(self).wf(),
        ensures
            final(self).wf(),
            final(self).same_volume(old(self)),
            final(self).shared.generation == old(self).shared.generation,
            create_dir_result(
                old(self).blocks(),
                final(self).blocks(),
                old(self).superblock,
                old(self).serves(),
                old(self).shared@,
                final(self).shared@,
                parent_inode_num,
                name@,
                0o777,
                time,
                res,
            ),
    {
        self.create_dir_with_mode(parent_inode_num, name, 0o777, time)
    }

    /// Makes a directory with its entries for itself and its parent.
    pub fn create_dir_with_mode(
        &mut self,
        parent_inode_num: u32,
        name: &[u8],
        mode: u16,
        time: u64,
    ) -> (res: Result<u32, FsError>)
        requires
            old(self).wf(),
        ensures
            final(self).wf(),
            final(self).same_volume(old(self)),
            final(self).shared.generation == old(self).shared.generation,
            create_dir_result(
                old(self).blocks(),
                final(self).blocks(),
                old(self).superblock,
                old(self).serves(),
                old(self).shared@,
                final(self).shared@,
                parent_inode_num,
                name@,
                mode,
                time,
                res,
            ),
    {
        if name.len() > 60 {
            return Err(FsError::FileNameTooLong);
        }
        let ghost b0 = self.blocks();
        let ghost sb = self.superblock;
        let ghost c0 = self.shared@;
        let parent: Inode = match self.read_inode(parent_inode_num) {
            Ok(i) => i,
            Err(_) => return Err(FsError::InvalidInode),
        };
        let index: DirIndexEntry = match self.ensure_dir_index_entry(parent_inode_num, &parent) {
            Ok(e) => e,
            Err(e) => return Err(e),
        };
        if index.names.get(name).is_some() {
            return Err(FsError::FileAlreadyExists);
        }
        let node: Inode = Self::plan_node(&parent, true, mode, time);
        let (n, z): (u32, u32) = match self.make_node(node) {
            Ok(r) => r,
            Err(e) => return Err(e),
        };
        let ghost b1 = self.blocks();
        let ghost c1 = self.shared@;
        match self.create_dir_entry(parent_inode_num, name, n) {
            Ok(_) => {},
            Err(_) => {
                proof {
                    assert(node_made(b0, b1, sb, node@, n, z));
                }
                return Err(FsError::InvalidInode);
            },
        }
        let ghost b2 = self.blocks();
        let ghost c2 = self.shared@;
        let one: [u8; 1] = [46u8];
        let two: [u8; 2] = [46u8, 46u8];
        proof {
            assert(one@ =~= dot());
            assert(two@ =~= dot_dot());
        }
        match self.create_dir_entry(n, &one, n) {
            Ok(_) => {},
            Err(_) => {
                proof {
                    assert(entered(b0, b1, b2, sb, c1, c2, node@, parent_inode_num, name@, n, z));
                }
                return Err(FsError::InvalidInode);
            },
        }
        let ghost b3 = self.blocks();
        let ghost c3 = self.shared@;
        match self.create_dir_entry(n, &two, parent_inode_num) {
            Ok(_) => {
                proof {
                    assert(dir_steps(
                        b0,
                        b1,
                        b2,
                        b3,
                        self.blocks(),
                        sb,
                        c0,
                        c2,
                        c3,
                        self.shared@,
                        parent_inode_num,
                        name@,
                        mode,
                        time,
                        n,
                        z,
                    ));
                    assert(dir_created(
                        b0,
                        self.blocks(),
                        sb,
                        c0,
                        self.shared@,
                        parent_inode_num,
                        name@,
                        mode,
                        time,
                        n,
                    ));
                }
                Ok(n)
            },
            Err(_) => {
                proof {
                    assert(entered(b0, b1, b2, sb, c1, c2, node@, parent_inode_num, name@, n, z));
                    assert(half_made(b2, b3, sb, c2, c3, n));
                }
                Err(FsError::InvalidInode)
            },
        }
    }
}

/// Whether the node `n` was made and entered into `parent`.
pub open spec fn entered(
    b0: Seq<Seq<u8>>,
    b1: Seq<Seq<u8>>,
    b2: Seq<Seq<u8>>,
    sb: Superblock,
    c1: CacheView,
    c2: CacheView,
    node: InodeView,
    parent: u32,
    name: Seq<u8>,
    n: u32,
    z: u32,
) -> bool {
    node_made(b0, b1, sb, node, n, z) && entry_added(b1, b2, sb, c1, c2, parent, name, n)
}

/// Whether the new directory `n` has got its entry for itself.
pub open spec fn half_made(
    b2: Seq<Seq<u8>>,
    b3: Seq<Seq<u8>>,
    sb: Superblock,
    c2: CacheView,
    c3: CacheView,
    n: u32,
) -> bool {
    entry_added(b2, b3, sb, c2, c3, n, dot(), n)
}

/// Whether a new directory was entered that could not take its own entries, and what is left
/// behind then.
pub open spec fn dir_stuck(
    b0: Seq<Seq<u8>>,
    b4: Seq<Seq<u8>>,
    sb: Superblock,
    c1: CacheView,
    c4: CacheView,
    node: InodeView,
    parent: u32,
    name: Seq<u8>,
) -> bool {
    exists|b1: Seq<Seq<u8>>, b2: Seq<Seq<u8>>, c2: CacheView, n: u32, z: u32| #[trigger]
        entered(b0, b1, b2, sb, c1, c2, node, parent, name, n, z) && entry_refused(b4, sb, c4, n) && ((
        b4 == b2 && c4 == c2) || half_made(b2, b4, sb, c2, c4, n))
}

/// What making a file gives.
pub open spec fn create_file_result(
    b0: Seq<Seq<u8>>,
    b1: Seq<Seq<u8>>,
    sb: Superblock,
    serves: bool,
    c0: CacheView,
    c1: CacheView,
    parent: u32,
    name: Seq<u8>,
    mode: u16,
    time: u64,
    res: Result<u32, FsError>,
) -> bool {
    let p = inode_at(b0, sb, parent as int);
    let known = at_key(index_of(b0, c0, parent, p.direct).names, name) is Some;
    match res {
        Ok(n) => {
            &&& name.len() <= 60
            &&& valid_ino(sb, parent as int)
            &&& dir_at(c0.dirs, parent) is Some || on_volume(b0, p.direct)
            &&& !known
            &&& file_created(b0, b1, sb, c0, c1, parent, name, mode, time, n)
        },
        Err(FsError::FileNotFound) => {
            &&& name.len() > 60
            &&& b1 == b0
            &&& c1 == c0
        },
        Err(FsError::FileAlreadyExists) => {
            &&& name.len() <= 60
            &&& valid_ino(sb, parent as int)
            &&& dir_at(c0.dirs, parent) is Some || on_volume(b0, p.direct)
            &&& known
            &&& b1 == b0
            &&& c1 == dir_known(b0, c0, parent, p.direct)
        },
        Err(e) => {
            &&& e == FsError::InvalidInode
            &&& name.len() <= 60
            &&& !serves || no_room(
                b0,
                b1,
                sb,
                c0,
                c1,
                node_inode(p, false, mode, time),
                parent,
                name,
            )
        },
    }
}

/// What making a directory gives.
pub open spec fn create_dir_result(
    b0: Seq<Seq<u8>>,
    b1: Seq<Seq<u8>>,
    sb: Superblock,
    serves: bool,
    c0: CacheView,
    c1: CacheView,
    parent: u32,
    name: Seq<u8>,
    mode: u16,
    time: u64,
    res: Result<u32, FsError>,
) -> bool {
    let p = inode_at(b0, sb, parent as int);
    let known = at_key(index_of(b0, c0, parent, p.direct).names, name) is Some;
    match res {
        Ok(n) => {
            &&& name.len() <= 60
            &&& valid_ino(sb, parent as int)
            &&& dir_at(c0.dirs, parent) is Some || on_volume(b0, p.direct)
            &&& !known
            &&& dir_created(b0, b1, sb, c0, c1, parent, name, mode, time, n)
        },
        Err(FsError::FileNameTooLong) => {
            &&& name.len() > 60
            &&& b1 == b0
            &&& c1 == c0
        },
        Err(FsError::FileAlreadyExists) => {
            &&& name.len() <= 60
            &&& valid_ino(sb, parent as int)
            &&& dir_at(c0.dirs, parent) is Some || on_volume(b0, p.direct)
            &&& known
            &&& b1 == b0
            &&& c1 == dir_known(b0, c0, parent, p.direct)
        },
        Err(e) => {
            let node = node_inode(p, true, mode, time);
            &&& e == FsError::InvalidInode
            &&& name.len() <= 60
            &&& !serves || no_room(b0, b1, sb, c0, c1, node, parent, name) || {
                &&& valid_ino(sb, parent as int)
                &&& dir_at(c0.dirs, parent) is Some || on_volume(b0, p.direct)
                &&& !known
                &&& dir_stuck(
                    b0,
                    b1,
                    sb,
                    dir_known(b0, c0, parent, p.direct),
                    c1,
                    node,
                    parent,
                    name,
                )
            }
        },
    }
}

} // verus!
