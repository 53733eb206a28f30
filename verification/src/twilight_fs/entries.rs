//! What the names in all directories become when an entry of one is changed.

use crate::block::{lemma_splice, splice};
use crate::twilight_fs::bitmap::{bit_at, lemma_with_bit_at, with_bit_at};
use crate::twilight_fs::dir::{
    dir_name, dir_names, entry_ino, entry_named, entry_place, entry_raw, slot_found,
};
use crate::twilight_fs::fs::{inode_at, inode_record, lemma_with_inode, valid_ino, with_inode, Superblock};
use crate::twilight_fs::inode::InodeView;
use crate::twilight_fs::laws::{
    lemma_entry_bytes, lemma_renamed_entry, lemma_zero_entry_ino, lemma_zeroed_entry, zones_sound,
};
use crate::twilight_fs::names::{
    entry_cleared, entry_removed, minus_entry, zero_entry, zones_freed, zones_valid,
};
use crate::twilight_fs::tree::{
    dir_block, entry_bytes, entry_put, name_field, plus_entry, zero_block,
};
use vstd::prelude::*;

verus! {

/// The name and the inode that entry `k` of a directory block holds.
pub open spec fn block_slot(block: Seq<u8>, k: int) -> Option<(Seq<u8>, u32)> {
    if entry_ino(block, k) == 0 {
        None
    } else {
        match dir_name(entry_raw(block, k)) {
            Some(n) => Some((n, entry_ino(block, k))),
            None => None,
        }
    }
}

/// The name and the inode that entry `s` of a directory holds.
pub open spec fn slot_at(blocks: Seq<Seq<u8>>, direct: Seq<u32>, s: int) -> Option<(Seq<u8>, u32)> {
    if direct[s / 32] == 0 {
        None
    } else {
        block_slot(blocks[direct[s / 32] as int], s % 32)
    }
}

/// What all entries of a directory hold.
pub open spec fn slots_of(blocks: Seq<Seq<u8>>, direct: Seq<u32>) -> Seq<Option<(Seq<u8>, u32)>> {
    Seq::new(384, |s: int| slot_at(blocks, direct, s))
}

/// The names in the first `n` of `slots`.
pub open spec fn gathered(slots: Seq<Option<(Seq<u8>, u32)>>, n: int) -> Map<Seq<u8>, u32>
    decreases n,
{
    if n <= 0 {
        Map::<Seq<u8>, u32>::empty()
    } else {
        match slots[n - 1] {
            Some(x) => gathered(slots, n - 1).insert(x.0, x.1),
            None => gathered(slots, n - 1),
        }
    }
}

/// Whether slot `s` holds `name`.
pub open spec fn slot_has(slots: Seq<Option<(Seq<u8>, u32)>>, s: int, name: Seq<u8>) -> bool {
    slots[s] matches Some(x) && x.0 == name
}

/// Whether no name occurs twice.
pub open spec fn all_differ(slots: Seq<Option<(Seq<u8>, u32)>>) -> bool {
    forall|i: int, j: int, name: Seq<u8>|
        #![trigger slot_has(slots, i, name), slot_has(slots, j, name)]
        0 <= i < j < slots.len() ==> !(slot_has(slots, i, name) && slot_has(slots, j, name))
}

proof fn lemma_gathered(blocks: Seq<Seq<u8>>, direct: Seq<u32>, n: int)
    requires
        0 <= n <= 384,
    ensures
        dir_names(blocks, direct, n) == gathered(slots_of(blocks, direct), n),
    decreases n,
{
    if n > 0 {
        lemma_gathered(blocks, direct, n - 1);
        assert(slots_of(blocks, direct)[n - 1] == slot_at(blocks, direct, n - 1));
    }
}

proof fn lemma_gathered_has(slots: Seq<Option<(Seq<u8>, u32)>>, n: int, name: Seq<u8>)
    requires
        0 <= n <= slots.len(),
        all_differ(slots),
    ensures
        gathered(slots, n).dom().contains(name) <==> exists|s: int|
            0 <= s < n && #[trigger] slot_has(slots, s, name),
        forall|s: int|
            0 <= s < n && #[trigger] slot_has(slots, s, name) ==> slots[s] == Some(
                (name, gathered(slots, n)[name]),
            ),
    decreases n,
{
    if n > 0 {
        lemma_gathered_has(slots, n - 1, name);
        if slot_has(slots, n - 1, name) {
            assert forall|s: int| 0 <= s < n - 1 implies !#[trigger] slot_has(slots, s, name) by {}
        } else if exists|s: int| 0 <= s < n && #[trigger] slot_has(slots, s, name) {
            let s = choose|s: int| 0 <= s < n && #[trigger] slot_has(slots, s, name);
            assert(s < n - 1);
        }
    }
}

/// `m` after `gone` was taken out and `come` was put in.
pub open spec fn altered(
    m: Map<Seq<u8>, u32>,
    gone: Option<Seq<u8>>,
    come: Option<(Seq<u8>, u32)>,
) -> Map<Seq<u8>, u32> {
    let less = match gone {
        Some(n) => m.remove(n),
        None => m,
    };
    match come {
        Some(x) => less.insert(x.0, x.1),
        None => less,
    }
}

/// The name in a slot.
pub open spec fn name_in(slot: Option<(Seq<u8>, u32)>) -> Option<Seq<u8>> {
    match slot {
        Some(x) => Some(x.0),
        None => None,
    }
}

proof fn lemma_slot_changed(
    slots: Seq<Option<(Seq<u8>, u32)>>,
    s: int,
    come: Option<(Seq<u8>, u32)>,
)
    requires
        slots.len() == 384,
        0 <= s < 384,
        all_differ(slots),
        come matches Some(x) ==> forall|t: int|
            0 <= t < 384 && t != s ==> !#[trigger] slot_has(slots, t, x.0),
    ensures
        all_differ(slots.update(s, come)),
        gathered(slots.update(s, come), 384) == altered(
            gathered(slots, 384),
            name_in(slots[s]),
            come,
        ),
{
    let after = slots.update(s, come);
    assert forall|i: int, j: int, name: Seq<u8>|
        #![trigger slot_has(after, i, name), slot_has(after, j, name)]
        0 <= i < j < after.len() implies !(slot_has(after, i, name) && slot_has(after, j, name)) by {
        if i != s {
            assert(slot_has(after, i, name) == slot_has(slots, i, name));
        }
        if j != s {
            assert(slot_has(after, j, name) == slot_has(slots, j, name));
        }
    }
    let x = gathered(after, 384);
    let y = altered(gathered(slots, 384), name_in(slots[s]), come);
    assert forall|name: Seq<u8>|
        #![trigger x.dom().contains(name)]
        #![trigger y.dom().contains(name)]
        #![trigger x[name]]
        x.dom().contains(name) == y.dom().contains(name) && (x.dom().contains(name) ==> x[name]
            == y[name]) by {
        lemma_gathered_has(after, 384, name);
        lemma_gathered_has(slots, 384, name);
        if slot_has(after, s, name) {
        } else if exists|t: int| 0 <= t < 384 && #[trigger] slot_has(after, t, name) {
            let t = choose|t: int| 0 <= t < 384 && #[trigger] slot_has(after, t, name);
            assert(slot_has(slots, t, name));
            assert(!slot_has(slots, s, name));
        } else if exists|t: int| 0 <= t < 384 && #[trigger] slot_has(slots, t, name) {
            let t = choose|t: int| 0 <= t < 384 && #[trigger] slot_has(slots, t, name);
            assert(t == s || slot_has(after, t, name));
            assert(slot_has(slots, s, name));
        }
    }
    assert(x.dom() =~= y.dom());
    assert(x =~= y);
}

/// Whether the directories of a volume are in order: their zones are their own and in use,
/// and no name occurs twice.
pub open spec fn tidy(blocks: Seq<Seq<u8>>, sb: Superblock) -> bool {
    &&& forall|d: int|
        valid_ino(sb, d) && (#[trigger] inode_at(blocks, sb, d)).dir() ==> zones_sound(
            blocks,
            sb,
            inode_at(blocks, sb, d).direct,
        ) && all_differ(slots_of(blocks, inode_at(blocks, sb, d).direct))
    &&& forall|d: int, e: int|
        valid_ino(sb, d) && valid_ino(sb, e) && d != e && (#[trigger] inode_at(blocks, sb, d)).dir()
            && (#[trigger] inode_at(blocks, sb, e)).dir() ==> zones_apart(
            inode_at(blocks, sb, d).direct,
            inode_at(blocks, sb, e).direct,
        )
}

/// Whether two lists share no zone.
pub open spec fn zones_apart(a: Seq<u32>, b: Seq<u32>) -> bool {
    forall|i: int, j: int| 0 <= i < 12 && 0 <= j < 12 && #[trigger] a[i] != 0 ==> a[i] != #[trigger] b[j]
}

/// The names in the directory `d`.
pub open spec fn names_of(blocks: Seq<Seq<u8>>, sb: Superblock, d: int) -> Map<Seq<u8>, u32> {
    dir_names(blocks, inode_at(blocks, sb, d).direct, 384)
}

/// Whether the blocks are as long as they should be.
pub open spec fn whole(blocks: Seq<Seq<u8>>, sb: Superblock) -> bool {
    &&& sb.wf()
    &&& blocks.len() >= sb.zones
    &&& forall|b: int| 0 <= b < blocks.len() ==> (#[trigger] blocks[b]).len() == 2048
}

/// Whether the names in the directories of `b1` are those in `b0`, but that the directory
/// `d` has lost the name `gone` and got the name `come`.
pub open spec fn names_step(
    b0: Seq<Seq<u8>>,
    b1: Seq<Seq<u8>>,
    sb: Superblock,
    d: int,
    gone: Option<Seq<u8>>,
    come: Option<(Seq<u8>, u32)>,
) -> bool {
    &&& whole(b1, sb)
    &&& b1.len() == b0.len()
    &&& tidy(b1, sb)
    &&& forall|o: int|
        valid_ino(sb, o) ==> (#[trigger] inode_at(b1, sb, o)).dir() == inode_at(b0, sb, o).dir()
    &&& forall|o: int|
        valid_ino(sb, o) && o != d ==> #[trigger] inode_at(b1, sb, o) == inode_at(b0, sb, o)
    &&& forall|o: int|
        valid_ino(sb, o) && o != d && (#[trigger] inode_at(b0, sb, o)).dir() ==> names_of(b1, sb, o)
            == names_of(b0, sb, o)
    &&& names_of(b1, sb, d) == altered(names_of(b0, sb, d), gone, come)
    &&& forall|o: int, name: Seq<u8>, t: (u32, usize, u32)|
        valid_ino(sb, o) && inode_at(b0, sb, o).dir() && name.len() > 0 && !(o == d && gone == Some(
            name,
        )) && #[trigger] entry_place(b0, inode_at(b0, sb, o).direct, name, t) ==> entry_place(
            b1,
            inode_at(b1, sb, o).direct,
            name,
            t,
        )
}

spec fn slot_number(i: int) -> bool {
    0 <= i < 12
}

/// What the names become when only one block of a directory has changed, in one entry.
#[verifier::rlimit(60)]
proof fn lemma_frame(
    b0: Seq<Seq<u8>>,
    b1: Seq<Seq<u8>>,
    sb: Superblock,
    d: int,
    s: int,
    z: u32,
    come: Option<(Seq<u8>, u32)>,
)
    requires
        whole(b0, sb),
        whole(b1, sb),
        b1.len() == b0.len(),
        tidy(b0, sb),
        valid_ino(sb, d),
        inode_at(b0, sb, d).dir(),
        0 <= s < 384,
        sb.first_data_zone <= z < sb.zones,
        z != 0,
        forall|o: int|
            valid_ino(sb, o) && o != d ==> #[trigger] inode_at(b1, sb, o) == inode_at(b0, sb, o),
        inode_at(b1, sb, d).dir(),
        inode_at(b1, sb, d).direct == inode_at(b0, sb, d).direct.update(s / 32, z),
        inode_at(b0, sb, d).direct[s / 32] == 0 || inode_at(b0, sb, d).direct[s / 32] == z,
        inode_at(b0, sb, d).direct[s / 32] == 0 ==> !bit_at(b0, sb.zmap(), z - sb.first_data_zone),
        forall|b: int|
            sb.first_data_zone <= b < b0.len() && b != z ==> #[trigger] b1[b] == b0[b],
        forall|o: int, i: int|
            valid_ino(sb, o) && #[trigger] slot_number(i) && (#[trigger] inode_at(b0, sb, o)).dir()
                && inode_at(b0, sb, o).direct[i] != 0 ==> bit_at(
                b1,
                sb.zmap(),
                inode_at(b0, sb, o).direct[i] - sb.first_data_zone,
            ),
        bit_at(b1, sb.zmap(), z - sb.first_data_zone),
        forall|k: int|
            0 <= k < 32 ==> #[trigger] block_slot(b1[z as int], k) == if k == s % 32 {
                come
            } else if inode_at(b0, sb, d).direct[s / 32] == 0 {
                None
            } else {
                block_slot(b0[z as int], k)
            },
        come matches Some(x) ==> forall|t: int|
            0 <= t < 384 && t != s ==> !#[trigger] slot_has(
                slots_of(b0, inode_at(b0, sb, d).direct),
                t,
                x.0,
            ),
    ensures
        names_step(
            b0,
            b1,
            sb,
            d,
            name_in(slot_at(b0, inode_at(b0, sb, d).direct, s)),
            come,
        ),
{
    let direct = inode_at(b0, sb, d).direct;
    let after = inode_at(b1, sb, d).direct;
    let bi = s / 32;
    // No other zone of a directory is the one that has changed.
    assert forall|o: int, i: int|
        valid_ino(sb, o) && 0 <= i < 12 && (#[trigger] inode_at(b0, sb, o)).dir() && !(o == d && i
            == bi) && #[trigger] slot_number(i) && inode_at(b0, sb, o).direct[i] != 0 implies inode_at(
        b0,
        sb,
        o,
    ).direct[i] != z && sb.first_data_zone <= inode_at(b0, sb, o).direct[i] < sb.zones by {
        let other = inode_at(b0, sb, o).direct;
        assert(zones_sound(b0, sb, other));
        assert(sb.first_data_zone <= other[i] < sb.zones && bit_at(
            b0,
            sb.zmap(),
            other[i] - sb.first_data_zone,
        ));
        if direct[bi] != 0 {
            if o == d {
                if i < bi {
                    assert(other[i] != other[bi]);
                } else {
                    assert(other[bi] != other[i]);
                }
            } else {
                assert(zones_apart(other, direct));
                assert(other[i] != direct[bi]);
            }
        }
    }
    // The other directories.
    assert forall|o: int|
        valid_ino(sb, o) && o != d && (#[trigger] inode_at(b0, sb, o)).dir() implies slots_of(
        b1,
        inode_at(b1, sb, o).direct,
    ) == slots_of(b0, inode_at(b0, sb, o).direct) by {
        let other = inode_at(b0, sb, o).direct;
        assert forall|t: int| 0 <= t < 384 implies slot_at(b1, other, t) == slot_at(b0, other, t) by {
            assert(slot_number(t / 32));
            if other[t / 32] != 0 {
                assert(b1[other[t / 32] as int] == b0[other[t / 32] as int]);
            }
        }
        assert(slots_of(b1, other) =~= slots_of(b0, other));
    }
    // The directory itself.
    let slots = slots_of(b0, direct);
    assert(slots_of(b1, after) =~= slots.update(s, come)) by {
        assert forall|t: int| 0 <= t < 384 implies slot_at(b1, after, t) == slots.update(s, come)[t] by {
            assert(slot_number(t / 32));
            if t / 32 == bi {
                assert(block_slot(b1[z as int], t % 32) == if t % 32 == s % 32 {
                    come
                } else if direct[bi] == 0 {
                    None
                } else {
                    block_slot(b0[z as int], t % 32)
                });
                assert(t % 32 == s % 32 ==> t == s);
            } else {
                assert(after[t / 32] == direct[t / 32]);
                if direct[t / 32] != 0 {
                    assert(b1[direct[t / 32] as int] == b0[direct[t / 32] as int]);
                }
            }
        }
    }
    assert(slots[s] == slot_at(b0, direct, s));
    lemma_slot_changed(slots, s, come);
    lemma_gathered(b0, direct, 384);
    lemma_gathered(b1, after, 384);
    assert forall|o: int|
        valid_ino(sb, o) && o != d && (#[trigger] inode_at(b0, sb, o)).dir() implies names_of(
        b1,
        sb,
        o,
    ) == names_of(b0, sb, o) by {
        lemma_gathered(b0, inode_at(b0, sb, o).direct, 384);
        lemma_gathered(b1, inode_at(b1, sb, o).direct, 384);
    }
    assert forall|o: int| valid_ino(sb, o) && (#[trigger] inode_at(b1, sb, o)).dir() implies zones_sound(
        b1,
        sb,
        inode_at(b1, sb, o).direct,
    ) && all_differ(slots_of(b1, inode_at(b1, sb, o).direct)) by {
        let was = inode_at(b0, sb, o);
        assert(was.dir());
        assert(zones_sound(b0, sb, was.direct));
        let now = inode_at(b1, sb, o).direct;
        assert forall|i: int| 0 <= i < 12 && #[trigger] now[i] != 0 implies sb.first_data_zone
            <= now[i] < sb.zones && bit_at(b1, sb.zmap(), now[i] - sb.first_data_zone) by {
            assert(slot_number(i));
            if !(o == d && i == bi) {
                assert(now[i] == was.direct[i]);
            }
        }
        assert forall|i: int, j: int| 0 <= i < j < 12 && #[trigger] now[i] != 0 implies now[i]
            != #[trigger] now[j] by {
            assert(slot_number(i) && slot_number(j));
            if o == d && (i == bi || j == bi) {
                if j == bi {
                    assert(now[i] == was.direct[i]);
                } else if was.direct[j] != 0 {
                    assert(now[j] == was.direct[j]);
                }
            } else {
                assert(was.direct[i] != was.direct[j]);
            }
        }
    }
    assert forall|o: int, e: int|
        valid_ino(sb, o) && valid_ino(sb, e) && o != e && (#[trigger] inode_at(b1, sb, o)).dir() && (
        #[trigger] inode_at(b1, sb, e)).dir() implies zones_apart(
        inode_at(b1, sb, o).direct,
        inode_at(b1, sb, e).direct,
    ) by {
        let wo = inode_at(b0, sb, o);
        let we = inode_at(b0, sb, e);
        assert(wo.dir() && we.dir());
        assert(zones_apart(wo.direct, we.direct));
        let no = inode_at(b1, sb, o).direct;
        let ne = inode_at(b1, sb, e).direct;
        assert forall|i: int, j: int| 0 <= i < 12 && 0 <= j < 12 && #[trigger] no[i] != 0 implies no[i]
            != #[trigger] ne[j] by {
            assert(slot_number(i) && slot_number(j));
            if o == d && i == bi {
                assert(ne[j] == we.direct[j]);
            } else if e == d && j == bi {
                assert(no[i] == wo.direct[i]);
            } else {
                assert(no[i] == wo.direct[i] && ne[j] == we.direct[j]);
            }
        }
    }
    assert forall|o: int, name: Seq<u8>, t: (u32, usize, u32)|
        valid_ino(sb, o) && inode_at(b0, sb, o).dir() && name.len() > 0 && !(o == d && name_in(
            slot_at(b0, direct, s),
        ) == Some(name)) && #[trigger] entry_place(
            b0,
            inode_at(b0, sb, o).direct,
            name,
            t,
        ) implies entry_place(b1, inode_at(b1, sb, o).direct, name, t) by {
        let was = inode_at(b0, sb, o).direct;
        let now = inode_at(b1, sb, o).direct;
        assert(inode_at(b1, sb, o).dir());
        assert(zones_sound(b0, sb, was) && zones_sound(b1, sb, now));
        assert(all_differ(slots_of(b1, now)));
        let q = lemma_found_slot(b0, sb, o, name, t);
        lemma_named_slots(b1, now, name);
        assert(slots_of(b0, was)[q] == slot_at(b0, was, q));
        assert(slots_of(b1, now)[q] == slot_at(b1, now, q));
        assert(slot_at(b1, now, q) == Some((name, t.2)));
        assert(slot_has(slots_of(b1, now), q, name));
        assert(entry_named(b1, now, name, q));
        assert(slot_number(q / 32));
        assert(t.0 == now[q / 32]);
        assert forall|k: int| 0 <= k < q implies !#[trigger] entry_named(b1, now, name, k) by {
            assert(!slot_has(slots_of(b1, now), k, name));
        }
        assert(slot_found(b1, now, name, q, t));
    }
}

/// A name that is not empty stands in a slot where an entry has it.
pub proof fn lemma_named_slots(blocks: Seq<Seq<u8>>, direct: Seq<u32>, name: Seq<u8>)
    requires
        name.len() > 0,
    ensures
        forall|s: int|
            0 <= s < 384 ==> #[trigger] slot_has(slots_of(blocks, direct), s, name) == entry_named(
                blocks,
                direct,
                name,
                s,
            ),
{
    assert forall|s: int| 0 <= s < 384 implies #[trigger] slot_has(
        slots_of(blocks, direct),
        s,
        name,
    ) == entry_named(blocks, direct, name, s) by {
        assert(slots_of(blocks, direct)[s] == slot_at(blocks, direct, s));
    }
}

/// The names of a directory tell whether an entry has a name.
pub proof fn lemma_names_tell(blocks: Seq<Seq<u8>>, direct: Seq<u32>, name: Seq<u8>)
    requires
        name.len() > 0,
        all_differ(slots_of(blocks, direct)),
    ensures
        dir_names(blocks, direct, 384).dom().contains(name) <==> exists|s: int|
            0 <= s < 384 && #[trigger] entry_named(blocks, direct, name, s),
        forall|t: (u32, usize, u32)| #[trigger]
            entry_place(blocks, direct, name, t) ==> dir_names(blocks, direct, 384).dom().contains(name)
                && dir_names(blocks, direct, 384)[name] == t.2,
{
    let slots = slots_of(blocks, direct);
    lemma_named_slots(blocks, direct, name);
    lemma_gathered(blocks, direct, 384);
    lemma_gathered_has(slots, 384, name);
    if exists|s: int| 0 <= s < 384 && #[trigger] entry_named(blocks, direct, name, s) {
        let s = choose|s: int| 0 <= s < 384 && #[trigger] entry_named(blocks, direct, name, s);
        assert(slot_has(slots, s, name));
    }
    if exists|s: int| 0 <= s < 384 && #[trigger] slot_has(slots, s, name) {
        let s = choose|s: int| 0 <= s < 384 && #[trigger] slot_has(slots, s, name);
        assert(entry_named(blocks, direct, name, s));
    }
    assert forall|t: (u32, usize, u32)| #[trigger] entry_place(blocks, direct, name, t) implies dir_names(
        blocks,
        direct,
        384,
    ).dom().contains(name) && dir_names(blocks, direct, 384)[name] == t.2 by {
        let s = choose|s: int| #[trigger] slot_found(blocks, direct, name, s, t);
        assert(entry_named(blocks, direct, name, s));
        assert(slot_has(slots, s, name));
        assert(slots[s] == slot_at(blocks, direct, s));
    }
}

/// An inode outside the data zones is read as before where no block there has changed.
pub(crate) proof fn lemma_same_inode(b0: Seq<Seq<u8>>, b1: Seq<Seq<u8>>, sb: Superblock, o: int)
    requires
        sb.wf(),
        valid_ino(sb, o),
        forall|b: int| sb.itable() <= b < sb.first_data_zone ==> #[trigger] b1[b] == b0[b],
    ensures
        inode_at(b1, sb, o) == inode_at(b0, sb, o),
{
    let ob = sb.itable() + (o - 1) / 16;
    assert(sb.itable() <= ob < sb.first_data_zone);
    assert(b1[ob] == b0[ob]);
    assert(inode_record(b1, sb, o) == inode_record(b0, sb, o));
}

/// A bit of the zone bitmap is read as before where no block of the bitmap has changed.
pub proof fn lemma_same_bit(b0: Seq<Seq<u8>>, b1: Seq<Seq<u8>>, sb: Superblock, r: int)
    requires
        sb.wf(),
        0 <= r < sb.data_zones(),
        forall|b: int| sb.zmap() <= b < sb.itable() ==> #[trigger] b1[b] == b0[b],
    ensures
        bit_at(b1, sb.zmap(), r) == bit_at(b0, sb.zmap(), r),
{
    assert(r < sb.zmap_blocks * 16384);
    assert(0 <= r / 16384 < sb.zmap_blocks);
    let b = sb.zmap() + r / 16384;
    assert(b1[b] == b0[b]);
}

/// Where the name `name` stands in a directory.
pub proof fn lemma_found_slot(
    blocks: Seq<Seq<u8>>,
    sb: Superblock,
    d: int,
    name: Seq<u8>,
    t: (u32, usize, u32),
) -> (s: int)
    requires
        whole(blocks, sb),
        tidy(blocks, sb),
        valid_ino(sb, d),
        inode_at(blocks, sb, d).dir(),
        name.len() > 0,
        entry_place(blocks, inode_at(blocks, sb, d).direct, name, t),
    ensures
        0 <= s < 384,
        inode_at(blocks, sb, d).direct.len() == 12,
        t.0 == inode_at(blocks, sb, d).direct[s / 32],
        sb.first_data_zone <= t.0 < sb.zones,
        t.0 != 0,
        t.1 == 64 * (s % 32),
        slot_at(blocks, inode_at(blocks, sb, d).direct, s) == Some((name, t.2)),
        t.2 == entry_ino(blocks[t.0 as int], s % 32),
        t.2 != 0,
        bit_at(blocks, sb.zmap(), t.0 - sb.first_data_zone),
        forall|q: int|
            0 <= q < 384 && q != s ==> !#[trigger] slot_has(
                slots_of(blocks, inode_at(blocks, sb, d).direct),
                q,
                name,
            ),
{
    let direct = inode_at(blocks, sb, d).direct;
    let s = choose|s: int| #[trigger] slot_found(blocks, direct, name, s, t);
    lemma_named_slots(blocks, direct, name);
    assert(zones_sound(blocks, sb, direct));
    assert(entry_named(blocks, direct, name, s));
    assert(slot_has(slots_of(blocks, direct), s, name));
    assert(slots_of(blocks, direct)[s] == slot_at(blocks, direct, s));
    assert(direct[s / 32] != 0);
    s
}

proof fn lemma_dir_bits(b0: Seq<Seq<u8>>, b1: Seq<Seq<u8>>, sb: Superblock)
    requires
        whole(b0, sb),
        tidy(b0, sb),
        forall|r: int|
            0 <= r < sb.data_zones() && bit_at(b0, sb.zmap(), r) ==> #[trigger] bit_at(
                b1,
                sb.zmap(),
                r,
            ),
    ensures
        forall|o: int, i: int|
            valid_ino(sb, o) && #[trigger] slot_number(i) && (#[trigger] inode_at(b0, sb, o)).dir()
                && inode_at(b0, sb, o).direct[i] != 0 ==> bit_at(
                b1,
                sb.zmap(),
                inode_at(b0, sb, o).direct[i] - sb.first_data_zone,
            ),
{
    assert forall|o: int, i: int|
        valid_ino(sb, o) && #[trigger] slot_number(i) && (#[trigger] inode_at(b0, sb, o)).dir()
            && inode_at(b0, sb, o).direct[i] != 0 implies bit_at(
        b1,
        sb.zmap(),
        inode_at(b0, sb, o).direct[i] - sb.first_data_zone,
    ) by {
        let direct = inode_at(b0, sb, o).direct;
        assert(zones_sound(b0, sb, direct));
        assert(sb.first_data_zone <= direct[i] < sb.zones);
    }
}

/// What the names become when an entry is given another name in its place.
pub proof fn lemma_renamed_step(
    b0: Seq<Seq<u8>>,
    b1: Seq<Seq<u8>>,
    sb: Superblock,
    d: u32,
    oname: Seq<u8>,
    nname: Seq<u8>,
    t: (u32, usize, u32),
)
    requires
        whole(b0, sb),
        tidy(b0, sb),
        valid_ino(sb, d as int),
        inode_at(b0, sb, d as int).dir(),
        oname.len() > 0,
        nname.len() > 0,
        oname != nname,
        dir_name(name_field(nname)) == Some(nname),
        entry_place(b0, inode_at(b0, sb, d as int).direct, oname, t),
        !names_of(b0, sb, d as int).dom().contains(nname),
        b1 == b0.update(t.0 as int, splice(b0[t.0 as int], t.1 + 4, name_field(nname))),
    ensures
        names_step(b0, b1, sb, d as int, Some(oname), Some((nname, t.2))),
        names_of(b0, sb, d as int).dom().contains(oname),
        names_of(b0, sb, d as int)[oname] == t.2,
{
    let direct = inode_at(b0, sb, d as int).direct;
    let s = lemma_found_slot(b0, sb, d as int, oname, t);
    assert(all_differ(slots_of(b0, direct)));
    lemma_names_tell(b0, direct, oname);
    lemma_names_tell(b0, direct, nname);
    lemma_named_slots(b0, direct, nname);
    let block = b0[t.0 as int];
    assert(name_field(nname).len() == 60);
    lemma_splice(block, 64 * (s % 32) + 4, name_field(nname));
    assert forall|o: int| valid_ino(sb, o) implies #[trigger] inode_at(b1, sb, o) == inode_at(b0, sb, o) by {
        lemma_same_inode(b0, b1, sb, o);
    }
    assert forall|r: int| 0 <= r < sb.data_zones() && bit_at(b0, sb.zmap(), r) implies #[trigger] bit_at(
        b1,
        sb.zmap(),
        r,
    ) by {
        lemma_same_bit(b0, b1, sb, r);
    }
    lemma_dir_bits(b0, b1, sb);
    assert forall|k: int| 0 <= k < 32 implies #[trigger] block_slot(b1[t.0 as int], k) == if k == s
        % 32 {
        Some((nname, t.2))
    } else {
        block_slot(block, k)
    } by {
        lemma_renamed_entry(block, s % 32, nname, k);
    }
    assert(direct.update(s / 32, t.0) =~= direct);
    assert forall|q: int| 0 <= q < 384 && q != s implies !#[trigger] slot_has(
        slots_of(b0, direct),
        q,
        nname,
    ) by {
        assert(!entry_named(b0, direct, nname, q));
    }
    lemma_frame(b0, b1, sb, d as int, s, t.0, Some((nname, t.2)));
}

/// What the names become when an entry is cleared.
pub proof fn lemma_cleared_step(
    b0: Seq<Seq<u8>>,
    b1: Seq<Seq<u8>>,
    sb: Superblock,
    d: u32,
    name: Seq<u8>,
    t: (u32, usize, u32),
)
    requires
        whole(b0, sb),
        tidy(b0, sb),
        valid_ino(sb, d as int),
        inode_at(b0, sb, d as int).dir(),
        name.len() > 0,
        entry_place(b0, inode_at(b0, sb, d as int).direct, name, t),
        entry_cleared(b0, b1, sb, d, t),
    ensures
        names_step(b0, b1, sb, d as int, Some(name), None),
{
    let dir = inode_at(b0, sb, d as int);
    let direct = dir.direct;
    let s = lemma_found_slot(b0, sb, d as int, name, t);
    let block = b0[t.0 as int];
    lemma_splice(block, 64 * (s % 32), zero_entry());
    let put = b0.update(t.0 as int, splice(block, t.1 as int, zero_entry()));
    assert(whole(put, sb));
    lemma_written_inode(b0, put, b1, sb, d as int, minus_entry(dir.size), direct);
    assert forall|k: int| 0 <= k < 32 implies #[trigger] block_slot(b1[t.0 as int], k) == if k == s
        % 32 {
        None
    } else {
        block_slot(block, k)
    } by {
        lemma_zeroed_entry(block, s % 32, k);
    }
    assert forall|r: int| 0 <= r < sb.data_zones() && bit_at(b0, sb.zmap(), r) implies #[trigger] bit_at(
        b1,
        sb.zmap(),
        r,
    ) by {
        lemma_same_bit(b0, b1, sb, r);
    }
    lemma_dir_bits(b0, b1, sb);
    assert(direct.update(s / 32, t.0) =~= direct);
    lemma_frame(b0, b1, sb, d as int, s, t.0, None);
}

/// The inodes once the inode of a directory was written, after blocks outside the inode
/// table have changed.
pub proof fn lemma_written_inode(
    b0: Seq<Seq<u8>>,
    put: Seq<Seq<u8>>,
    b1: Seq<Seq<u8>>,
    sb: Superblock,
    d: int,
    size: u64,
    direct: Seq<u32>,
)
    requires
        whole(put, sb),
        b0.len() == put.len(),
        valid_ino(sb, d),
        direct.len() == 12,
        forall|b: int| sb.itable() <= b < sb.first_data_zone ==> #[trigger] put[b] == b0[b],
        b1 == with_inode(put, sb, d, InodeView { size, direct, ..inode_at(b0, sb, d) }) || b1 == put
            && inode_at(b0, sb, d).direct == direct && inode_at(b0, sb, d).size == size,
    ensures
        whole(b1, sb),
        b1.len() == b0.len(),
        forall|o: int|
            valid_ino(sb, o) ==> #[trigger] inode_at(b1, sb, o) == if o == d {
                InodeView { size, direct, ..inode_at(b0, sb, d) }
            } else {
                inode_at(b0, sb, o)
            },
        forall|b: int|
            0 <= b < b0.len() && !(sb.itable() <= b < sb.first_data_zone) ==> #[trigger] b1[b]
                == put[b],
{
    let v = InodeView { size, direct, ..inode_at(b0, sb, d) };
    let at = sb.itable() + (d - 1) / 16;
    assert(sb.itable() <= at < sb.first_data_zone);
    if b1 == with_inode(put, sb, d, v) {
        lemma_with_inode(put, sb, d, v, d);
        assert forall|o: int| valid_ino(sb, o) implies #[trigger] inode_at(b1, sb, o) == if o == d {
            v
        } else {
            inode_at(b0, sb, o)
        } by {
            lemma_with_inode(put, sb, d, v, o);
            lemma_same_inode(b0, put, sb, o);
        }
    } else {
        assert forall|o: int| valid_ino(sb, o) implies #[trigger] inode_at(b1, sb, o) == if o == d {
            v
        } else {
            inode_at(b0, sb, o)
        } by {
            lemma_same_inode(b0, put, sb, o);
        }
    }
}

/// What giving zones back changes: bits of the zone bitmap, those of these zones.
pub proof fn lemma_freed_bits(blocks: Seq<Seq<u8>>, sb: Superblock, direct: Seq<u32>, n: int)
    requires
        whole(blocks, sb),
        zones_valid(sb, direct),
        0 <= n <= 12,
    ensures
        ({
            let after = zones_freed(blocks, sb, direct, n);
            &&& whole(after, sb)
            &&& after.len() == blocks.len()
            &&& forall|b: int|
                0 <= b < blocks.len() && !(sb.zmap() <= b < sb.itable()) ==> #[trigger] after[b]
                    == blocks[b]
            &&& forall|r: int|
                0 <= r < sb.data_zones() && (forall|i: int|
                    0 <= i < n && #[trigger] direct[i] != 0 ==> direct[i] - sb.first_data_zone != r)
                    ==> #[trigger] bit_at(after, sb.zmap(), r) == bit_at(blocks, sb.zmap(), r)
        }),
    decreases n,
{
    if n > 0 {
        lemma_freed_bits(blocks, sb, direct, n - 1);
        let before = zones_freed(blocks, sb, direct, n - 1);
        if direct[n - 1] != 0 {
            let x = direct[n - 1] - sb.first_data_zone;
            assert(0 <= x < sb.zmap_blocks * 16384);
            assert(0 <= x / 16384 < sb.zmap_blocks);
            let after = with_bit_at(before, sb.zmap(), x, false);
            assert forall|r: int|
                0 <= r < sb.data_zones() && (forall|i: int|
                    0 <= i < n && #[trigger] direct[i] != 0 ==> direct[i] - sb.first_data_zone != r) implies #[trigger] bit_at(
                after,
                sb.zmap(),
                r,
            ) == bit_at(blocks, sb.zmap(), r) by {
                assert(direct[n - 1] - sb.first_data_zone != r);
                assert(0 <= r / 16384 < sb.zmap_blocks);
                lemma_with_bit_at(before, sb.zmap(), x, r, false);
                assert(bit_at(before, sb.zmap(), r) == bit_at(blocks, sb.zmap(), r));
            }
        }
    }
}

/// What the names become when a file is removed, whose zones are not those of a directory.
pub proof fn lemma_removed_step(
    b0: Seq<Seq<u8>>,
    b1: Seq<Seq<u8>>,
    sb: Superblock,
    d: u32,
    name: Seq<u8>,
    t: (u32, usize, u32),
)
    requires
        whole(b0, sb),
        tidy(b0, sb),
        valid_ino(sb, d as int),
        inode_at(b0, sb, d as int).dir(),
        name.len() > 0,
        entry_place(b0, inode_at(b0, sb, d as int).direct, name, t),
        entry_removed(b0, b1, sb, d, t),
        forall|o: int|
            valid_ino(sb, o) && (#[trigger] inode_at(b0, sb, o)).dir() ==> zones_apart(
                inode_at(b0, sb, o).direct,
                inode_at(b0, sb, t.2 as int).direct,
            ),
    ensures
        names_step(b0, b1, sb, d as int, Some(name), None),
        inode_at(b1, sb, d as int).size == minus_entry(inode_at(b0, sb, d as int).size),
{
    let dir = inode_at(b0, sb, d as int);
    let direct = dir.direct;
    let node = inode_at(b0, sb, t.2 as int);
    let s = lemma_found_slot(b0, sb, d as int, name, t);
    let block = b0[t.0 as int];
    lemma_splice(block, 64 * (s % 32), zero_entry());
    lemma_freed_bits(b0, sb, node.direct, 12);
    let zf = zones_freed(b0, sb, node.direct, 12);
    assert(0 <= (t.2 - 1) / 16384 < sb.imap_blocks);
    let freed = with_bit_at(zf, 1, t.2 - 1, false);
    let put = freed.update(t.0 as int, splice(block, t.1 as int, zero_entry()));
    assert(whole(put, sb));
    lemma_written_inode(b0, put, b1, sb, d as int, minus_entry(dir.size), direct);
    assert forall|k: int| 0 <= k < 32 implies #[trigger] block_slot(b1[t.0 as int], k) == if k == s
        % 32 {
        None
    } else {
        block_slot(block, k)
    } by {
        lemma_zeroed_entry(block, s % 32, k);
    }
    assert forall|o: int, i: int|
        valid_ino(sb, o) && #[trigger] slot_number(i) && (#[trigger] inode_at(b0, sb, o)).dir()
            && inode_at(b0, sb, o).direct[i] != 0 implies bit_at(
        b1,
        sb.zmap(),
        inode_at(b0, sb, o).direct[i] - sb.first_data_zone,
    ) by {
        let other = inode_at(b0, sb, o).direct;
        assert(zones_sound(b0, sb, other));
        assert(sb.first_data_zone <= other[i] < sb.zones);
        let r = other[i] - sb.first_data_zone;
        assert(zones_apart(other, node.direct));
        assert forall|j: int| 0 <= j < 12 && #[trigger] node.direct[j] != 0 implies node.direct[j]
            - sb.first_data_zone != r by {
            assert(other[i] != node.direct[j]);
        }
        assert(bit_at(zf, sb.zmap(), r) == bit_at(b0, sb.zmap(), r));
        lemma_same_bit(zf, b1, sb, r);
    }
    assert(slot_number(s / 32));
    assert(direct.update(s / 32, t.0) =~= direct);
    lemma_frame(b0, b1, sb, d as int, s, t.0, None);
}

/// What the names become when an entry is put into a directory that has entries, or whose
/// first block is blank.
pub proof fn lemma_added_step(
    b0: Seq<Seq<u8>>,
    b1: Seq<Seq<u8>>,
    sb: Superblock,
    d: u32,
    name: Seq<u8>,
    child: u32,
    s: int,
    z: u32,
)
    requires
        whole(b0, sb),
        tidy(b0, sb),
        valid_ino(sb, d as int),
        inode_at(b0, sb, d as int).dir(),
        inode_at(b0, sb, d as int).size > 0 || b0[inode_at(b0, sb, d as int).direct[0] as int]
            == zero_block(),
        name.len() > 0,
        dir_name(name_field(name)) == Some(name),
        child != 0,
        !names_of(b0, sb, d as int).dom().contains(name),
        0 <= s < 384,
        entry_ino(dir_block(b0, inode_at(b0, sb, d as int), s / 32), s % 32) == 0,
        entry_put(b0, b1, sb, d, entry_bytes(child, name), s, z),
    ensures
        names_step(b0, b1, sb, d as int, None, Some((name, child))),
{
    let dir = inode_at(b0, sb, d as int);
    let direct = dir.direct;
    let bi = s / 32;
    assert(zones_sound(b0, sb, direct));
    assert(all_differ(slots_of(b0, direct)));
    lemma_names_tell(b0, direct, name);
    lemma_named_slots(b0, direct, name);
    let fresh = direct[bi] == 0;
    let r = z - sb.first_data_zone;
    if !fresh {
        assert(sb.first_data_zone <= direct[bi] < sb.zones);
    }
    assert(0 <= r < sb.data_zones());
    assert(0 <= r / 16384 < sb.zmap_blocks);
    let base = if fresh {
        with_bit_at(b0, sb.zmap(), r, true)
    } else {
        b0
    };
    let block = dir_block(b0, dir, bi);
    assert(block.len() == 2048);
    lemma_entry_bytes(block, s % 32, child, name, s % 32);
    let put = base.update(z as int, splice(block, 64 * (s % 32), entry_bytes(child, name)));
    assert(whole(put, sb));
    lemma_written_inode(b0, put, b1, sb, d as int, plus_entry(dir.size), direct.update(bi, z));
    assert forall|q: int| 0 <= q < sb.data_zones() implies #[trigger] bit_at(b1, sb.zmap(), q) == (
    bit_at(b0, sb.zmap(), q) || fresh && q == r) by {
        lemma_same_bit(base, b1, sb, q);
        if fresh {
            assert(0 <= q / 16384 < sb.zmap_blocks);
            lemma_with_bit_at(b0, sb.zmap(), r, q, true);
        }
    }
    lemma_dir_bits(b0, b1, sb);
    assert(z != 0) by {
        if z == 0 {
            assert(sb.first_data_zone == 0);
        }
    }
    assert forall|k: int| 0 <= k < 32 implies #[trigger] block_slot(b1[z as int], k) == if k == s
        % 32 {
        Some((name, child))
    } else if fresh {
        None
    } else {
        block_slot(b0[z as int], k)
    } by {
        lemma_entry_bytes(block, s % 32, child, name, k);
        if fresh {
            lemma_zero_entry_ino(k);
        }
    }
    assert forall|q: int| 0 <= q < 384 && q != s implies !#[trigger] slot_has(
        slots_of(b0, direct),
        q,
        name,
    ) by {
        assert(!entry_named(b0, direct, name, q));
    }
    lemma_frame(b0, b1, sb, d as int, s, z, Some((name, child)));
    assert(slot_at(b0, direct, s) is None);
}

} // verus!
