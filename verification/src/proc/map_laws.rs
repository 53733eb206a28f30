//! What holds of the pages of a program's files: what is taken away is gone, what is protected is
//! protected, and what stays still comes from the same bytes of the same file.

use crate::proc::mem::{
    end_of, image_kept, image_kept_one, image_protected, image_protected_one, image_removed,
    image_removed_one, ElfRegion, VmPermissions,
};
use vstd::prelude::*;

verus! {

/// Whether an address is filled from a file: the byte at `addr` is the one `shift` bytes further
/// in file `file`, and the page has the permissions `p`.
pub open spec fn fills(r: ElfRegion, addr: u64, p: VmPermissions, file: usize, shift: int) -> bool {
    &&& r.base <= addr && addr < end_of(r.base, r.len)
    &&& r.permissions == p
    &&& r.file == file
    &&& r.file_offset - r.file_base == shift
}

/// Whether one of the regions fills an address so.
pub open spec fn filled_by(rs: Seq<ElfRegion>, addr: u64, p: VmPermissions, file: usize, shift: int) -> bool {
    exists|i: int| 0 <= i < rs.len() && fills(#[trigger] rs[i], addr, p, file, shift)
}

/// Whether the places of a region, in memory and in the file, are small enough to be moved within
/// it.
pub open spec fn movable(r: ElfRegion) -> bool {
    &&& r.base + r.len <= u64::MAX
    &&& r.file_base + r.len <= u64::MAX
    &&& r.file_offset + r.len <= u64::MAX
    &&& r.file_end + r.len <= u64::MAX
}

proof fn lemma_filled_by_concat(
    a: Seq<ElfRegion>,
    b: Seq<ElfRegion>,
    addr: u64,
    p: VmPermissions,
    file: usize,
    shift: int,
)
    ensures
        filled_by(a + b, addr, p, file, shift) == (filled_by(a, addr, p, file, shift) || filled_by(
            b,
            addr,
            p,
            file,
            shift,
        )),
{
    let c = a + b;
    if filled_by(c, addr, p, file, shift) {
        let i = choose|i: int| 0 <= i < c.len() && fills(#[trigger] c[i], addr, p, file, shift);
        if i < a.len() {
            assert(fills(a[i], addr, p, file, shift));
        } else {
            assert(fills(b[i - a.len()], addr, p, file, shift));
        }
    }
    if filled_by(a, addr, p, file, shift) {
        let i = choose|i: int| 0 <= i < a.len() && fills(#[trigger] a[i], addr, p, file, shift);
        assert(c[i] == a[i]);
    }
    if filled_by(b, addr, p, file, shift) {
        let i = choose|i: int| 0 <= i < b.len() && fills(#[trigger] b[i], addr, p, file, shift);
        assert(c[a.len() + i] == b[i]);
    }
}

proof fn lemma_first_and_rest(rs: Seq<ElfRegion>, addr: u64, p: VmPermissions, file: usize, shift: int)
    requires
        rs.len() > 0,
    ensures
        filled_by(rs, addr, p, file, shift) == (fills(rs[0], addr, p, file, shift) || filled_by(
            rs.skip(1),
            addr,
            p,
            file,
            shift,
        )),
{
    let one = seq![rs[0]];
    assert(one + rs.skip(1) =~= rs);
    lemma_filled_by_concat(one, rs.skip(1), addr, p, file, shift);
    assert(filled_by(one, addr, p, file, shift) == fills(rs[0], addr, p, file, shift)) by {
        assert(one[0] == rs[0]);
    }
}

proof fn lemma_up_to_three(s: Seq<ElfRegion>, addr: u64, p: VmPermissions, file: usize, shift: int)
    requires
        s.len() <= 3,
    ensures
        filled_by(s, addr, p, file, shift) == (s.len() > 0 && fills(s[0], addr, p, file, shift) || s.len()
            > 1 && fills(s[1], addr, p, file, shift) || s.len() > 2 && fills(s[2], addr, p, file, shift)),
{
}

/// After a part of the memory was given back, nothing there is filled from a file any more, and
/// everywhere else all is as it was.
pub proof fn lemma_image_kept(
    rs: Seq<ElfRegion>,
    base: u64,
    end: u64,
    addr: u64,
    p: VmPermissions,
    file: usize,
    shift: int,
)
    requires
        forall|i: int| 0 <= i < rs.len() ==> movable(#[trigger] rs[i]),
    ensures
        filled_by(image_kept(rs, base, end), addr, p, file, shift) == (!(base <= addr < end) && filled_by(
            rs,
            addr,
            p,
            file,
            shift,
        )),
    decreases rs.len(),
{
    if rs.len() > 0 {
        let rest = rs.skip(1);
        assert forall|i: int| 0 <= i < rest.len() implies movable(#[trigger] rest[i]) by {
            assert(rest[i] == rs[i + 1]);
        }
        assert(movable(rs[0]));
        lemma_image_kept(rest, base, end, addr, p, file, shift);
        lemma_first_and_rest(rs, addr, p, file, shift);
        let one = image_kept_one(rs[0], base, end);
        lemma_filled_by_concat(one, image_kept(rest, base, end), addr, p, file, shift);
        lemma_up_to_three(one, addr, p, file, shift);
    }
}

/// What was given back is what was there.
pub proof fn lemma_image_removed(
    rs: Seq<ElfRegion>,
    base: u64,
    end: u64,
    addr: u64,
    p: VmPermissions,
    file: usize,
    shift: int,
)
    requires
        forall|i: int| 0 <= i < rs.len() ==> movable(#[trigger] rs[i]),
    ensures
        filled_by(image_removed(rs, base, end), addr, p, file, shift) == (base <= addr < end && filled_by(
            rs,
            addr,
            p,
            file,
            shift,
        )),
    decreases rs.len(),
{
    if rs.len() > 0 {
        let rest = rs.skip(1);
        assert forall|i: int| 0 <= i < rest.len() implies movable(#[trigger] rest[i]) by {
            assert(rest[i] == rs[i + 1]);
        }
        assert(movable(rs[0]));
        lemma_image_removed(rest, base, end, addr, p, file, shift);
        lemma_first_and_rest(rs, addr, p, file, shift);
        let one = image_removed_one(rs[0], base, end);
        lemma_filled_by_concat(one, image_removed(rest, base, end), addr, p, file, shift);
        lemma_up_to_three(one, addr, p, file, shift);
    }
}

/// Memory that was protected has the permissions it was given, and is filled as before; the rest
/// keeps those it had.
pub proof fn lemma_image_protected(
    rs: Seq<ElfRegion>,
    base: u64,
    end: u64,
    given: VmPermissions,
    addr: u64,
    before: VmPermissions,
    file: usize,
    shift: int,
)
    requires
        forall|i: int| 0 <= i < rs.len() ==> movable(#[trigger] rs[i]),
    ensures
        filled_by(rs, addr, before, file, shift) ==> filled_by(
            image_protected(rs, base, end, given),
            addr,
            if base <= addr < end {
                given
            } else {
                before
            },
            file,
            shift,
        ),
        filled_by(image_protected(rs, base, end, given), addr, before, file, shift) ==> if base <= addr < end {
            before == given
        } else {
            filled_by(rs, addr, before, file, shift)
        },
    decreases rs.len(),
{
    if rs.len() > 0 {
        let rest = rs.skip(1);
        assert forall|i: int| 0 <= i < rest.len() implies movable(#[trigger] rest[i]) by {
            assert(rest[i] == rs[i + 1]);
        }
        assert(movable(rs[0]));
        let after = if base <= addr < end {
            given
        } else {
            before
        };
        lemma_image_protected(rest, base, end, given, addr, before, file, shift);
        lemma_first_and_rest(rs, addr, before, file, shift);
        let one = image_protected_one(rs[0], base, end, given);
        lemma_filled_by_concat(one, image_protected(rest, base, end, given), addr, before, file, shift);
        lemma_filled_by_concat(one, image_protected(rest, base, end, given), addr, after, file, shift);
        lemma_up_to_three(one, addr, before, file, shift);
        lemma_up_to_three(one, addr, after, file, shift);
    }
}

} // verus!
