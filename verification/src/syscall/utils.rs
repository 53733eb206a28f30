//! Reading and writing user memory.

use crate::bytes::is_utf8;
use crate::paths::SLASH;
use vstd::prelude::*;

verus! {

/// The highest address of user memory.
pub const USER_MAX: u64 = 0x0000_7fff_ffff_ffff;

/// An address in user memory.
#[derive(Debug, Clone, Copy, PartialEq, Eq, Structural)]
pub struct UserPtr {
    pub addr: u64,
}

/// Why user memory could not be read or written.
#[derive(Debug, Clone, Copy, PartialEq, Eq, Structural)]
pub enum UserCopyError {
    Fault,
    TooLong,
    Utf8,
}

/// User memory: what stands at an address, where it can be accessed.
pub trait UserMemory {
    spec fn byte_at(&self, addr: u64) -> Option<u8>;

    fn read_user_byte(&self, addr: u64) -> (r: Result<u8, UserCopyError>)
        ensures
            match r {
                Ok(b) => self.byte_at(addr) == Some(b),
                Err(e) => e == UserCopyError::Fault && self.byte_at(addr) is None,
            },
    ;

    fn write_user_byte(&mut self, addr: u64, b: u8) -> (r: Result<(), UserCopyError>)
        ensures
            match r {
                Ok(_) => old(self).byte_at(addr) is Some && forall|a: u64|
                    #[trigger] final(self).byte_at(a) == if a == addr {
                        Some(b)
                    } else {
                        old(self).byte_at(a)
                    },
                Err(e) => e == UserCopyError::Fault && old(self).byte_at(addr) is None && forall|
                    a: u64,
                | #[trigger] final(self).byte_at(a) == old(self).byte_at(a),
            },
    ;
}

/// A piece of user memory from `base` on.
pub struct UserImage {
    pub base: u64,
    pub bytes: Vec<u8>,
}

impl UserMemory for UserImage {
    open spec fn byte_at(&self, addr: u64) -> Option<u8> {
        if self.base <= addr && addr - self.base < self.bytes@.len() {
            Some(self.bytes@[addr - self.base])
        } else {
            None
        }
    }

    fn read_user_byte(&self, addr: u64) -> (r: Result<u8, UserCopyError>) {
        let len: usize = self.bytes.len();
        if addr >= self.base && addr - self.base < len as u64 {
            Ok(self.bytes[(addr - self.base) as usize])
        } else {
            Err(UserCopyError::Fault)
        }
    }

    fn write_user_byte(&mut self, addr: u64, b: u8) -> (r: Result<(), UserCopyError>) {
        let len: usize = self.bytes.len();
        if addr >= self.base && addr - self.base < len as u64 {
            let i: usize = (addr - self.base) as usize;
            self.bytes[i] = b;
            Ok(())
        } else {
            Err(UserCopyError::Fault)
        }
    }
}

/// Whether the upper bits of an address are all alike.
pub open spec fn canonical(addr: u64) -> bool {
    addr < 0x8000_0000_0000 || addr >= 0xffff_8000_0000_0000
}

/// Whether the upper bits of an address are all alike.
pub fn is_canonical(addr: u64) -> (r: bool)
    ensures
        r == canonical(addr),
{
    let top: u64 = (addr >> 47) & 0x1ffff;
    proof {
        assert(((addr >> 47) & 0x1ffff == 0 <==> addr < 0x8000_0000_0000) && ((addr >> 47) & 0x1ffff
            == 0x1ffff <==> addr >= 0xffff_8000_0000_0000)) by (bit_vector);
    }
    top == 0 || top == 0x1ffff
}

/// Checks that `len` bytes at `addr` are in user memory.
pub fn in_user_range(addr: u64, len: u64) -> (r: Result<(), UserCopyError>)
    requires
        len > 0,
    ensures
        match r {
            Ok(_) => addr != 0 && addr + len - 1 <= USER_MAX,
            Err(UserCopyError::TooLong) => addr != 0 && canonical(addr) && addr + len > u64::MAX,
            Err(e) => e == UserCopyError::Fault && (addr == 0 || !canonical(addr) || addr + len
                <= u64::MAX && addr + len - 1 > USER_MAX),
        },
{
    if addr == 0 || !is_canonical(addr) {
        return Err(UserCopyError::Fault);
    }
    if addr > u64::MAX - len {
        return Err(UserCopyError::TooLong);
    }
    let end: u64 = addr + len;
    if end - 1 > USER_MAX {
        return Err(UserCopyError::Fault);
    }
    Ok(())
}

/// The bytes of a text that starts at `addr`, the first `n` of them.
pub open spec fn text_bytes<M: UserMemory>(mem: &M, addr: u64, n: nat) -> Seq<u8> {
    Seq::new(n, |i: int| mem.byte_at((addr + i) as u64)->0)
}

/// Whether the `n` bytes at `addr` are there and none is zero.
pub open spec fn text_runs<M: UserMemory>(mem: &M, addr: u64, n: nat) -> bool {
    forall|i: int|
        0 <= i < n ==> addr + i <= u64::MAX && (#[trigger] mem.byte_at((addr + i) as u64)) is Some
            && mem.byte_at((addr + i) as u64) != Some(0u8)
}

/// Reads the text at `uptr`, which ends with a zero byte, at most `max` bytes.
pub fn copy_cstr_from_user<M: UserMemory>(mem: &M, uptr: UserPtr, max: usize) -> (r: Result<
    Vec<u8>,
    UserCopyError,
>)
    ensures
        match r {
            Ok(s) => {
                &&& s@.len() < max
                &&& text_runs(mem, uptr.addr, s@.len())
                &&& s@ == text_bytes(mem, uptr.addr, s@.len())
                &&& uptr.addr + s@.len() <= u64::MAX
                &&& mem.byte_at((uptr.addr + s@.len()) as u64) == Some(0u8)
                &&& vstd::utf8::valid_utf8(s@)
            },
            Err(UserCopyError::TooLong) => text_runs(mem, uptr.addr, max as nat),
            Err(UserCopyError::Utf8) => exists|n: nat|
                n < max && #[trigger] text_runs(mem, uptr.addr, n) && uptr.addr + n <= u64::MAX
                    && mem.byte_at((uptr.addr + n) as u64) == Some(0u8)
                    && !vstd::utf8::valid_utf8(text_bytes(mem, uptr.addr, n)),
            Err(UserCopyError::Fault) => exists|n: nat|
                n < max && #[trigger] text_runs(mem, uptr.addr, n) && (uptr.addr + n > u64::MAX
                    || mem.byte_at((uptr.addr + n) as u64) is None),
        },
{
    let mut out: Vec<u8> = Vec::new();
    let mut i: usize = 0;
    while i < max
        invariant
            i <= max,
            out@.len() == i,
            text_runs(mem, uptr.addr, i as nat),
            out@ == text_bytes(mem, uptr.addr, i as nat),
        decreases max - i,
    {
        let ghost n = i as nat;
        if uptr.addr > u64::MAX - i as u64 {
            proof {
                assert(text_runs(mem, uptr.addr, n));
            }
            return Err(UserCopyError::Fault);
        }
        let b: u8 = match mem.read_user_byte(uptr.addr + i as u64) {
            Ok(b) => b,
            Err(e) => {
                proof {
                    assert(text_runs(mem, uptr.addr, n));
                }
                return Err(e);
            },
        };
        if b == 0 {
            if is_utf8(&out) {
                return Ok(out);
            }
            proof {
                assert(text_runs(mem, uptr.addr, n));
            }
            return Err(UserCopyError::Utf8);
        }
        out.push(b);
        i = i + 1;
        proof {
            assert(out@ =~= text_bytes(mem, uptr.addr, i as nat));
        }
    }
    Err(UserCopyError::TooLong)
}

/// Whether the `n` bytes at `addr` are in user memory and there.
pub open spec fn accessible<M: UserMemory>(mem: &M, addr: u64, n: int) -> bool {
    &&& addr != 0
    &&& addr + n - 1 <= USER_MAX
    &&& forall|i: int| 0 <= i < n ==> (#[trigger] mem.byte_at((addr + i) as u64)) is Some
}

/// Reads `n` bytes of user memory. Any address that cannot be read is a fault.
pub fn copy_from_user<M: UserMemory>(mem: &M, src: u64, n: usize) -> (r: Result<Vec<u8>, UserCopyError>)
    requires
        n > 0,
    ensures
        match r {
            Ok(v) => accessible(mem, src, n as int) && v@ == text_bytes(mem, src, n as nat),
            Err(e) => e == UserCopyError::Fault && !accessible(mem, src, n as int),
        },
{
    match in_user_range(src, n as u64) {
        Ok(_) => {},
        Err(_) => return Err(UserCopyError::Fault),
    }
    let mut out: Vec<u8> = Vec::new();
    let mut i: usize = 0;
    while i < n
        invariant
            i <= n,
            src != 0,
            src + n - 1 <= USER_MAX,
            out@ == text_bytes(mem, src, i as nat),
            forall|k: int| 0 <= k < i ==> (#[trigger] mem.byte_at((src + k) as u64)) is Some,
        decreases n - i,
    {
        let b: u8 = match mem.read_user_byte(src + i as u64) {
            Ok(b) => b,
            Err(e) => {
                proof {
                    assert(mem.byte_at((src + i as int) as u64) is None);
                }
                return Err(e);
            },
        };
        out.push(b);
        i = i + 1;
        proof {
            assert(out@ =~= text_bytes(mem, src, i as nat));
        }
    }
    Ok(out)
}

/// Whether user memory is `before` with the first `n` bytes of `data` at `dst`.
pub open spec fn bytes_put<M: UserMemory>(before: &M, after: &M, dst: u64, data: Seq<u8>, n: int) -> bool {
    forall|a: u64| #[trigger]
        after.byte_at(a) == if dst <= a && a - dst < n {
            Some(data[a - dst])
        } else {
            before.byte_at(a)
        }
}

/// Whether byte `i` of the `n` bytes at `addr` is not there, and those before it are.
pub open spec fn first_missing<M: UserMemory>(mem: &M, addr: u64, n: int, i: int) -> bool {
    &&& 0 <= i < n
    &&& mem.byte_at((addr + i) as u64) is None
    &&& forall|k: int| 0 <= k < i ==> (#[trigger] mem.byte_at((addr + k) as u64)) is Some
}

/// What user memory holds once `data` was to be written at `dst`: all of it where it is
/// accessible, nothing where it is not in the user range, else what comes before the first
/// byte that is not there.
pub open spec fn copied<M: UserMemory>(before: &M, after: &M, dst: u64, data: Seq<u8>) -> bool {
    let n = data.len() as int;
    if accessible(before, dst, n) {
        bytes_put(before, after, dst, data, n)
    } else if dst == 0 || dst + n - 1 > USER_MAX {
        bytes_put(before, after, dst, data, 0)
    } else {
        exists|i: int| #[trigger]
            first_missing(before, dst, n, i) && bytes_put(before, after, dst, data, i)
    }
}

/// Writes bytes to user memory. Any address that cannot be written is a fault. Where a
/// byte cannot be written, those before it have been.
pub fn copy_to_user<M: UserMemory>(mem: &mut M, dst: u64, data: &[u8]) -> (r: Result<(), UserCopyError>)
    requires
        data@.len() > 0,
    ensures
        copied(old(mem), final(mem), dst, data@),
        match r {
            Ok(_) => accessible(old(mem), dst, data@.len() as int),
            Err(e) => e == UserCopyError::Fault && !accessible(old(mem), dst, data@.len() as int),
        },
{
    let n: usize = data.len();
    match in_user_range(dst, n as u64) {
        Ok(_) => {},
        Err(_) => return Err(UserCopyError::Fault),
    }
    let mut i: usize = 0;
    while i < n
        invariant
            n == data@.len(),
            i <= n,
            dst != 0,
            dst + n - 1 <= USER_MAX,
            bytes_put(old(mem), mem, dst, data@, i as int),
            forall|k: int| 0 <= k < i ==> (#[trigger] old(mem).byte_at((dst + k) as u64)) is Some,
        decreases n - i,
    {
        let ghost before = *mem;
        match mem.write_user_byte(dst + i as u64, data[i]) {
            Ok(_) => {
                proof {
                    assert(before.byte_at((dst + i) as u64) is Some);
                    assert(old(mem).byte_at((dst + i as int) as u64) is Some);
                }
            },
            Err(e) => {
                proof {
                    assert(before.byte_at((dst + i) as u64) is None);
                    assert(first_missing(old(mem), dst, n as int, i as int));
                }
                return Err(e);
            },
        }
        i = i + 1;
    }
    Ok(())
}

/// A path as it stands from the root: below the working directory `pwd` where it
/// does not start with a slash.
pub open spec fn full_path(pwd: Seq<u8>, path: Seq<u8>) -> Seq<u8> {
    if path.len() > 0 && path[0] == SLASH {
        path
    } else {
        pwd + seq![SLASH] + path
    }
}

/// A path as it stands from the root.
pub fn format_path(pwd: &[u8], path: Vec<u8>) -> (r: Vec<u8>)
    ensures
        r@ == full_path(pwd@, path@),
{
    if path.len() > 0 && path[0] == SLASH {
        return path;
    }
    let mut out: Vec<u8> = crate::bytes::to_vec(pwd);
    out.push(SLASH);
    crate::bytes::push_all(&mut out, &path);
    proof {
        assert(out@ =~= pwd@ + seq![SLASH] + path@);
    }
    out
}

/// Whether `s` is the text at `addr`, shorter than `max`.
pub open spec fn text_at<M: UserMemory>(mem: &M, addr: u64, s: Seq<u8>, max: int) -> bool {
    &&& s.len() < max
    &&& text_runs(mem, addr, s.len())
    &&& s == text_bytes(mem, addr, s.len())
    &&& addr + s.len() <= u64::MAX
    &&& mem.byte_at((addr + s.len()) as u64) == Some(0u8)
    &&& vstd::utf8::valid_utf8(s)
}

/// Whether there is a text at `addr`, shorter than `max`.
pub open spec fn has_text<M: UserMemory>(mem: &M, addr: u64, max: int) -> bool {
    exists|s: Seq<u8>| text_at(mem, addr, s, max)
}

/// Whether a word can be read at `addr`.
pub open spec fn word_readable<M: UserMemory>(mem: &M, addr: int) -> bool {
    &&& 0 < addr <= USER_MAX - 7
    &&& forall|i: int| 0 <= i < 8 ==> (#[trigger] mem.byte_at((addr as u64 + i) as u64)) is Some
}

/// The word at `addr`.
pub open spec fn word_at<M: UserMemory>(mem: &M, addr: int) -> u64 {
    crate::bytes::le_value(text_bytes(mem, addr as u64, 8)) as u64
}

/// Whether entry `i` of the list at `base` is the address of the text `s`.
pub open spec fn entry_is<M: UserMemory>(mem: &M, base: u64, i: int, s: Seq<u8>, max: int) -> bool {
    &&& word_readable(mem, base + 8 * i)
    &&& word_at(mem, base + 8 * i) != 0
    &&& text_at(mem, word_at(mem, base + 8 * i), s, max)
}

/// Whether the list at `base` starts with the texts `ss`.
pub open spec fn list_starts<M: UserMemory>(mem: &M, base: u64, ss: Seq<Seq<u8>>, max: int) -> bool {
    forall|i: int| 0 <= i < ss.len() ==> entry_is(mem, base, i, #[trigger] ss[i], max)
}

/// Whether entry `i` of the list at `base` ends it.
pub open spec fn list_ends<M: UserMemory>(mem: &M, base: u64, i: int) -> bool {
    word_readable(mem, base + 8 * i) && word_at(mem, base + 8 * i) == 0
}

/// Whether entry `i` of the list at `base` cannot be read.
pub open spec fn entry_bad<M: UserMemory>(mem: &M, base: u64, i: int, max: int) -> bool {
    ||| !word_readable(mem, base + 8 * i)
    ||| word_at(mem, base + 8 * i) != 0 && !has_text(mem, word_at(mem, base + 8 * i), max)
}

proof fn lemma_no_text<M: UserMemory>(mem: &M, addr: u64, n: nat, max: int)
    requires
        text_runs(mem, addr, n),
        n >= max || addr + n > u64::MAX || mem.byte_at((addr + n) as u64) is None || (mem.byte_at(
            (addr + n) as u64,
        ) == Some(0u8) && !vstd::utf8::valid_utf8(text_bytes(mem, addr, n))),
    ensures
        !has_text(mem, addr, max),
{
    assert forall|s: Seq<u8>| !text_at(mem, addr, s, max) by {
        if text_at(mem, addr, s, max) {
            if s.len() < n {
                assert(mem.byte_at((addr + s.len() as int) as u64) != Some(0u8));
            } else if s.len() > n {
                assert(mem.byte_at((addr + n as int) as u64) is Some);
                assert(mem.byte_at((addr + n as int) as u64) != Some(0u8));
            }
        }
    }
}

/// Reads the text at `addr`; None where there is none that is shorter than `max`.
pub fn read_text<M: UserMemory>(mem: &M, addr: u64, max: usize) -> (r: Option<Vec<u8>>)
    ensures
        match r {
            Some(s) => text_at(mem, addr, s@, max as int),
            None => !has_text(mem, addr, max as int),
        },
{
    match copy_cstr_from_user(mem, UserPtr { addr }, max) {
        Ok(t) => Some(t),
        Err(e) => {
            proof {
                lemma_text_error(mem, addr, max, e);
            }
            None
        },
    }
}

proof fn lemma_text_error<M: UserMemory>(mem: &M, addr: u64, max: usize, e: UserCopyError)
    requires
        match e {
            UserCopyError::TooLong => text_runs(mem, addr, max as nat),
            UserCopyError::Utf8 => exists|n: nat|
                n < max && #[trigger] text_runs(mem, addr, n) && addr + n <= u64::MAX
                    && mem.byte_at((addr + n) as u64) == Some(0u8)
                    && !vstd::utf8::valid_utf8(text_bytes(mem, addr, n)),
            UserCopyError::Fault => exists|n: nat|
                n < max && #[trigger] text_runs(mem, addr, n) && (addr + n > u64::MAX
                    || mem.byte_at((addr + n) as u64) is None),
        },
    ensures
        !has_text(mem, addr, max as int),
{
    match e {
        UserCopyError::TooLong => {
            lemma_no_text(mem, addr, max as nat, max as int);
        },
        UserCopyError::Utf8 => {
            let n = choose|n: nat|
                n < max && #[trigger] text_runs(mem, addr, n) && addr + n <= u64::MAX
                    && mem.byte_at((addr + n) as u64) == Some(0u8)
                    && !vstd::utf8::valid_utf8(text_bytes(mem, addr, n));
            lemma_no_text(mem, addr, n, max as int);
        },
        UserCopyError::Fault => {
            let n = choose|n: nat|
                n < max && #[trigger] text_runs(mem, addr, n) && (addr + n > u64::MAX
                    || mem.byte_at((addr + n) as u64) is None);
            lemma_no_text(mem, addr, n, max as int);
        },
    }
}

/// Reads a list of addresses of texts, which ends with a zero, at most `max_ptrs` of
/// them.
pub fn copy_user_ptr_array<M: UserMemory>(mem: &M, base: UserPtr, max_ptrs: usize, max_str: usize) -> (r:
    Result<Vec<Vec<u8>>, UserCopyError>)
    requires
        max_ptrs <= 0x1000_0000,
    ensures
        match r {
            Ok(v) => {
                let ss = crate::bytes::views(v@);
                &&& list_starts(mem, base.addr, ss, max_str as int)
                &&& ss.len() <= max_ptrs
                &&& ss.len() < max_ptrs ==> list_ends(mem, base.addr, ss.len() as int)
            },
            Err(_) => exists|ss: Seq<Seq<u8>>|
                {
                    &&& #[trigger] list_starts(mem, base.addr, ss, max_str as int)
                    &&& ss.len() < max_ptrs
                    &&& entry_bad(mem, base.addr, ss.len() as int, max_str as int)
                },
        },
{
    let mut out: Vec<Vec<u8>> = Vec::new();
    let ghost b = base.addr;
    let ghost m = max_str as int;
    let mut i: usize = 0;
    while i < max_ptrs
        invariant
            i <= max_ptrs <= 0x1000_0000,
            b == base.addr,
            m == max_str,
            out@.len() == i,
            list_starts(mem, b, crate::bytes::views(out@), m),
        decreases max_ptrs - i,
    {
        let ghost ss = crate::bytes::views(out@);
        let off: u64 = 8 * i as u64;
        if base.addr > u64::MAX - off {
            proof {
                assert(list_starts(mem, b, ss, m));
                assert(entry_bad(mem, b, ss.len() as int, m));
            }
            return Err(UserCopyError::TooLong);
        }
        let at: u64 = base.addr + off;
        let bytes: Vec<u8> = match copy_from_user(mem, at, 8) {
            Ok(v) => v,
            Err(e) => {
                proof {
                    assert(list_starts(mem, b, ss, m));
                    assert(entry_bad(mem, b, ss.len() as int, m));
                }
                return Err(e);
            },
        };
        let ptr: u64 = crate::bytes::read_u64(&bytes, 0);
        proof {
            assert(bytes@.subrange(0, 8) =~= bytes@);
            assert(word_readable(mem, b + 8 * i));
            assert(ptr == word_at(mem, b + 8 * i));
        }
        if ptr == 0 {
            return Ok(out);
        }
        let text: Vec<u8> = match copy_cstr_from_user(mem, UserPtr { addr: ptr }, max_str) {
            Ok(t) => t,
            Err(e) => {
                proof {
                    lemma_text_error(mem, ptr, max_str, e);
                    assert(list_starts(mem, b, ss, m));
                    assert(entry_bad(mem, b, ss.len() as int, m));
                }
                return Err(e);
            },
        };
        out.push(text);
        proof {
            let now = crate::bytes::views(out@);
            assert(now =~= ss.push(text@));
            assert(entry_is(mem, b, i as int, text@, m));
            assert forall|k: int| 0 <= k < now.len() implies entry_is(mem, b, k, #[trigger] now[k], m) by {
                if k < i {
                    assert(now[k] == ss[k]);
                }
            }
        }
        i = i + 1;
    }
    Ok(out)
}

} // verus!
