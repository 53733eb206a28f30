//! Inodes and their records in the inode table.

use crate::bytes::{
    le_digits, le_value, lemma_le_digits_len, lemma_le_round_trip, pow256, push_le, push_repeat,
    read_u16, read_u32, read_u64,
};
use vstd::prelude::*;

verus! {

/// The number of zones that an inode names itself.
pub const DIRECT_SLOT_COUNT: usize = 12;

/// The length of an inode's record.
pub const INODE_SIZE: usize = 128;

pub const IFLAG_ENCRYPTED: u32 = 0x1;

pub const MODE_TYPE_MASK: u16 = 0o170000;

pub const MODE_DIR: u16 = 0o040000;

pub const MODE_FILE: u16 = 0o100000;

/// A file or a directory.
#[derive(Clone, Copy)]
pub struct Inode {
    pub size: u64,
    pub access_time: u64,
    pub created_time: u64,
    pub modified_time: u64,
    pub change_time: u64,
    pub flags: u32,
    pub uid: u32,
    pub gid: u32,
    pub mode: u16,
    pub direct: [u32; 12],
    pub single: u32,
    pub double: u32,
}

/// What an inode says.
pub struct InodeView {
    pub size: u64,
    pub access_time: u64,
    pub created_time: u64,
    pub modified_time: u64,
    pub change_time: u64,
    pub flags: u32,
    pub uid: u32,
    pub gid: u32,
    pub mode: u16,
    pub direct: Seq<u32>,
    pub single: u32,
    pub double: u32,
}

impl View for Inode {
    type V = InodeView;

    open spec fn view(&self) -> InodeView {
        InodeView {
            size: self.size,
            access_time: self.access_time,
            created_time: self.created_time,
            modified_time: self.modified_time,
            change_time: self.change_time,
            flags: self.flags,
            uid: self.uid,
            gid: self.gid,
            mode: self.mode,
            direct: self.direct@,
            single: self.single,
            double: self.double,
        }
    }
}

impl InodeView {
    pub open spec fn dir(self) -> bool {
        self.mode & MODE_TYPE_MASK == MODE_DIR
    }
}

/// A fresh inode of the given mode, with no zones.
pub open spec fn fresh_inode(time: u64, mode: u16) -> InodeView {
    InodeView {
        size: 0,
        access_time: time,
        created_time: time,
        modified_time: time,
        change_time: time,
        flags: 0,
        uid: 0,
        gid: 0,
        mode,
        direct: Seq::new(12, |i: int| 0u32),
        single: 0,
        double: 0,
    }
}

/// An inode that was given the permissions in `mode` at `time`.
pub open spec fn with_mode(v: InodeView, mode: u16, time: u64) -> InodeView {
    InodeView {
        mode: (v.mode & MODE_TYPE_MASK) | (mode & 0o7777),
        change_time: time,
        ..v
    }
}

/// An inode whose encryption flag was set or cleared.
pub open spec fn with_flag(v: InodeView, value: u32) -> InodeView {
    InodeView {
        flags: if value != 0 {
            v.flags | IFLAG_ENCRYPTED
        } else {
            v.flags & !IFLAG_ENCRYPTED
        },
        ..v
    }
}

/// The encryption flag of an inode.
pub open spec fn flag_of(v: InodeView) -> u32 {
    if v.flags & IFLAG_ENCRYPTED != 0 {
        IFLAG_ENCRYPTED
    } else {
        0
    }
}

impl Inode {
    fn fresh(time: u64, mode: u16) -> (r: Inode)
        ensures
            r@ == fresh_inode(time, mode),
    {
        let r = Inode {
            size: 0,
            access_time: time,
            created_time: time,
            modified_time: time,
            change_time: time,
            flags: 0,
            uid: 0,
            gid: 0,
            mode,
            direct: [0u32; 12],
            single: 0,
            double: 0,
        };
        proof {
            assert(r.direct@ =~= Seq::new(12, |i: int| 0u32));
        }
        r
    }

    /// A new, empty file with the permissions of `mode`.
    pub fn new_file(time: u64, mode: u16) -> (r: Inode)
        ensures
            r@ == fresh_inode(time, MODE_FILE | (mode & 0o7777)),
    {
        Self::fresh(time, MODE_FILE | (mode & 0o7777))
    }

    /// A new, empty directory with the permissions of `mode`.
    pub fn new_dir(time: u64, mode: u16) -> (r: Inode)
        ensures
            r@ == fresh_inode(time, MODE_DIR | (mode & 0o7777)),
    {
        Self::fresh(time, MODE_DIR | (mode & 0o7777))
    }

    /// Whether this is a directory.
    pub fn is_dir(&self) -> (r: bool)
        ensures
            r == self@.dir(),
    {
        self.mode & MODE_TYPE_MASK == MODE_DIR
    }

    /// The zone in direct slot `i`.
    pub fn direct_slot_get(&self, i: usize) -> (r: u32)
        requires
            i < DIRECT_SLOT_COUNT,
        ensures
            r == self@.direct[i as int],
    {
        self.direct[i]
    }

    /// Puts a zone into direct slot `i`.
    pub fn direct_slot_set(&mut self, i: usize, zone: u32)
        requires
            i < DIRECT_SLOT_COUNT,
        ensures
            final(self)@ == (InodeView {
                direct: old(self)@.direct.update(i as int, zone),
                ..old(self)@
            }),
    {
        self.direct[i] = zone;
    }
}

/// The encodings of the numbers in `d`, four bytes each.
pub open spec fn le_list(d: Seq<u32>) -> Seq<u8>
    decreases d.len(),
{
    if d.len() == 0 {
        Seq::<u8>::empty()
    } else {
        le_list(d.drop_last()) + le_digits(d.last() as nat, 4)
    }
}

/// The numbers that `n` four-byte fields of `s` from `at` on hold.
pub open spec fn le_words(s: Seq<u8>, at: int, n: nat) -> Seq<u32> {
    Seq::new(n, |i: int| le_value(s.subrange(at + 4 * i, at + 4 * i + 4)) as u32)
}

/// The record of an inode.
pub open spec fn encoded(v: InodeView) -> Seq<u8> {
    le_digits(v.size as nat, 8) + le_digits(v.access_time as nat, 8) + le_digits(
        v.created_time as nat,
        8,
    ) + le_digits(v.modified_time as nat, 8) + le_digits(v.change_time as nat, 8) + le_digits(
        v.flags as nat,
        4,
    ) + le_digits(v.uid as nat, 4) + le_digits(v.gid as nat, 4) + le_digits(v.mode as nat, 4)
        + le_list(v.direct) + le_digits(v.single as nat, 4) + le_digits(v.double as nat, 4)
        + Seq::new(16, |i: int| 0u8)
}

/// The inode that a record holds.
pub open spec fn decoded(s: Seq<u8>) -> InodeView {
    InodeView {
        size: le_value(s.subrange(0, 8)) as u64,
        access_time: le_value(s.subrange(8, 16)) as u64,
        created_time: le_value(s.subrange(16, 24)) as u64,
        modified_time: le_value(s.subrange(24, 32)) as u64,
        change_time: le_value(s.subrange(32, 40)) as u64,
        flags: le_value(s.subrange(40, 44)) as u32,
        uid: le_value(s.subrange(44, 48)) as u32,
        gid: le_value(s.subrange(48, 52)) as u32,
        mode: le_value(s.subrange(52, 54)) as u16,
        direct: le_words(s, 56, 12),
        single: le_value(s.subrange(104, 108)) as u32,
        double: le_value(s.subrange(108, 112)) as u32,
    }
}

pub proof fn lemma_le_list(d: Seq<u32>)
    ensures
        le_list(d).len() == 4 * d.len(),
        forall|i: int|
            0 <= i < d.len() ==> le_list(d).subrange(4 * i, 4 * i + 4) == le_digits(
                #[trigger] d[i] as nat,
                4,
            ),
    decreases d.len(),
{
    if d.len() > 0 {
        let front = d.drop_last();
        lemma_le_list(front);
        lemma_le_digits_len(d.last() as nat, 4);
        let s = le_list(d);
        assert forall|i: int| 0 <= i < d.len() implies s.subrange(4 * i, 4 * i + 4) == le_digits(
            #[trigger] d[i] as nat,
            4,
        ) by {
            if i < front.len() {
                assert(front[i] == d[i]);
                assert(s.subrange(4 * i, 4 * i + 4) =~= le_list(front).subrange(4 * i, 4 * i + 4));
            } else {
                assert(s.subrange(4 * i, 4 * i + 4) =~= le_digits(d.last() as nat, 4));
            }
        }
    }
}

proof fn lemma_fits()
    ensures
        pow256(8) == 0x1_0000_0000_0000_0000,
        pow256(4) == 0x1_0000_0000,
        pow256(2) == 0x1_0000,
{
    reveal_with_fuel(pow256, 9);
}

/// Writing an inode's record and reading it gives the inode back.
#[verifier::rlimit(40)]
pub proof fn lemma_inode_round_trip(v: InodeView)
    requires
        v.direct.len() == 12,
    ensures
        encoded(v).len() == 128,
        decoded(encoded(v)) == v,
{
    let s = encoded(v);
    lemma_fits();
    lemma_le_digits_len(v.size as nat, 8);
    lemma_le_digits_len(v.access_time as nat, 8);
    lemma_le_digits_len(v.created_time as nat, 8);
    lemma_le_digits_len(v.modified_time as nat, 8);
    lemma_le_digits_len(v.change_time as nat, 8);
    lemma_le_digits_len(v.flags as nat, 4);
    lemma_le_digits_len(v.uid as nat, 4);
    lemma_le_digits_len(v.gid as nat, 4);
    lemma_le_digits_len(v.mode as nat, 4);
    lemma_le_digits_len(v.single as nat, 4);
    lemma_le_digits_len(v.double as nat, 4);
    lemma_le_list(v.direct);
    lemma_le_round_trip(v.size as nat, 8);
    lemma_le_round_trip(v.access_time as nat, 8);
    lemma_le_round_trip(v.created_time as nat, 8);
    lemma_le_round_trip(v.modified_time as nat, 8);
    lemma_le_round_trip(v.change_time as nat, 8);
    lemma_le_round_trip(v.flags as nat, 4);
    lemma_le_round_trip(v.uid as nat, 4);
    lemma_le_round_trip(v.gid as nat, 4);
    lemma_le_round_trip(v.mode as nat, 2);
    lemma_le_round_trip(v.single as nat, 4);
    lemma_le_round_trip(v.double as nat, 4);
    assert(s.subrange(0, 8) =~= le_digits(v.size as nat, 8));
    assert(s.subrange(8, 16) =~= le_digits(v.access_time as nat, 8));
    assert(s.subrange(16, 24) =~= le_digits(v.created_time as nat, 8));
    assert(s.subrange(24, 32) =~= le_digits(v.modified_time as nat, 8));
    assert(s.subrange(32, 40) =~= le_digits(v.change_time as nat, 8));
    assert(s.subrange(40, 44) =~= le_digits(v.flags as nat, 4));
    assert(s.subrange(44, 48) =~= le_digits(v.uid as nat, 4));
    assert(s.subrange(48, 52) =~= le_digits(v.gid as nat, 4));
    lemma_le_prefix(v.mode as nat);
    assert(s.subrange(52, 54) =~= le_digits(v.mode as nat, 4).take(2));
    assert(s.subrange(104, 108) =~= le_digits(v.single as nat, 4));
    assert(s.subrange(108, 112) =~= le_digits(v.double as nat, 4));
    let w = le_words(s, 56, 12);
    assert forall|i: int| 0 <= i < 12 implies w[i] == v.direct[i] by {
        assert(s.subrange(56 + 4 * i, 56 + 4 * i + 4) =~= le_list(v.direct).subrange(
            4 * i,
            4 * i + 4,
        ));
        lemma_le_round_trip(v.direct[i] as nat, 4);
    }
    assert(w =~= v.direct);
}

proof fn lemma_le_prefix(v: nat)
    ensures
        le_digits(v, 4).take(2) == le_digits(v, 2),
{
    reveal_with_fuel(le_digits, 5);
    assert(le_digits(v, 4).take(2) =~= le_digits(v, 2));
}

/// The record of an inode.
pub fn encode_inode(inode: &Inode) -> (r: Vec<u8>)
    ensures
        r@ == encoded(inode@),
        r@.len() == 128,
{
    let mut out: Vec<u8> = Vec::new();
    proof {
        lemma_inode_round_trip(inode@);
        lemma_le_digits_len(inode.size as nat, 8);
        lemma_le_digits_len(inode.access_time as nat, 8);
        lemma_le_digits_len(inode.created_time as nat, 8);
        lemma_le_digits_len(inode.modified_time as nat, 8);
        lemma_le_digits_len(inode.change_time as nat, 8);
        lemma_le_digits_len(inode.flags as nat, 4);
        lemma_le_digits_len(inode.uid as nat, 4);
        lemma_le_digits_len(inode.gid as nat, 4);
        lemma_le_digits_len(inode.mode as nat, 4);
        lemma_le_digits_len(inode.single as nat, 4);
        lemma_le_digits_len(inode.double as nat, 4);
    }
    push_le(&mut out, inode.size, 8);
    push_le(&mut out, inode.access_time, 8);
    push_le(&mut out, inode.created_time, 8);
    push_le(&mut out, inode.modified_time, 8);
    push_le(&mut out, inode.change_time, 8);
    push_le(&mut out, inode.flags as u64, 4);
    push_le(&mut out, inode.uid as u64, 4);
    push_le(&mut out, inode.gid as u64, 4);
    push_le(&mut out, inode.mode as u64, 4);
    let ghost head = out@;
    let mut i: usize = 0;
    proof {
        assert(inode.direct@.take(0) =~= Seq::<u32>::empty());
        assert(out@ =~= head + le_list(inode.direct@.take(0)));
    }
    while i < 12
        invariant
            i <= 12,
            head.len() == 56,
            out@ == head + le_list(inode.direct@.take(i as int)),
        decreases 12 - i,
    {
        proof {
            lemma_le_list(inode.direct@.take(i as int));
            assert(inode.direct@.take(i + 1).drop_last() =~= inode.direct@.take(i as int));
        }
        let ghost before = out@;
        push_le(&mut out, inode.direct[i] as u64, 4);
        i = i + 1;
        proof {
            assert(out@ =~= head + le_list(inode.direct@.take(i as int)));
        }
    }
    proof {
        assert(inode.direct@.take(12) =~= inode.direct@);
        lemma_le_list(inode.direct@);
    }
    push_le(&mut out, inode.single as u64, 4);
    push_le(&mut out, inode.double as u64, 4);
    push_repeat(&mut out, 0, 16);
    proof {
        assert(out@ =~= encoded(inode@));
    }
    out
}

/// The inode that a record holds.
pub fn decode_inode(s: &[u8]) -> (r: Inode)
    requires
        s@.len() == 128,
    ensures
        r@ == decoded(s@),
{
    let mut direct: [u32; 12] = [0u32; 12];
    let mut i: usize = 0;
    while i < 12
        invariant
            i <= 12,
            s@.len() == 128,
            forall|j: int| 0 <= j < i ==> direct@[j] == le_words(s@, 56, 12)[j],
        decreases 12 - i,
    {
        direct[i] = read_u32(s, 56 + 4 * i);
        i = i + 1;
    }
    proof {
        assert(direct@ =~= le_words(s@, 56, 12));
    }
    Inode {
        size: read_u64(s, 0),
        access_time: read_u64(s, 8),
        created_time: read_u64(s, 16),
        modified_time: read_u64(s, 24),
        change_time: read_u64(s, 32),
        flags: read_u32(s, 40),
        uid: read_u32(s, 44),
        gid: read_u32(s, 48),
        mode: read_u16(s, 52),
        direct,
        single: read_u32(s, 104),
        double: read_u32(s, 108),
    }
}

} // verus!
