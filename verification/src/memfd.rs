//! Files that live in memory.

use crate::errno::{EINVAL, EIO};
use crate::block::splice;
use vstd::prelude::*;

verus! {

/// The size of a page.
pub const PAGE: usize = 4096;

/// A file in memory: its first `len` bytes, in pages.
pub struct MemFd {
    pub name: Vec<u8>,
    pub len: usize,
    pub pages: Vec<Vec<u8>>,
}

/// The number of pages that `len` bytes need.
pub open spec fn pages_for(len: int) -> int {
    (len + 4095) / 4096
}

pub open spec fn byte_of(pages: Seq<Vec<u8>>, i: int) -> u8 {
    pages[i / 4096]@[i % 4096]
}

pub open spec fn pages_wf(pages: Seq<Vec<u8>>) -> bool {
    forall|k: int| 0 <= k < pages.len() ==> (#[trigger] pages[k])@.len() == 4096
}

/// A file after `data` was written at `offset`: it grows where it has to, with zeros.
pub open spec fn put_at(v: Seq<u8>, offset: int, data: Seq<u8>) -> Seq<u8> {
    let end = offset + data.len();
    splice(
        resized(
            v,
            if end > v.len() {
                end
            } else {
                v.len() as int
            },
        ),
        offset,
        data,
    )
}

/// How many bytes a read at `offset` gives where there is room for `room`.
pub open spec fn count_at(v: Seq<u8>, offset: int, room: int) -> int {
    let have = if offset >= v.len() {
        0
    } else {
        v.len() - offset
    };
    if room < have {
        room
    } else {
        have
    }
}

/// Byte `i` of what a read at `offset` gives.
pub open spec fn byte_read(v: Seq<u8>, offset: int, i: int) -> u8 {
    v[offset + i]
}

/// The first `n` bytes of `s`, then zeros.
pub open spec fn resized(s: Seq<u8>, n: int) -> Seq<u8> {
    if n <= s.len() {
        s.take(n)
    } else {
        s + Seq::new((n - s.len()) as nat, |i: int| 0u8)
    }
}

impl View for MemFd {
    type V = Seq<u8>;

    open spec fn view(&self) -> Seq<u8> {
        Seq::new(self.len as nat, |i: int| byte_of(self.pages@, i))
    }
}

/// What pages of a file are to be mapped, and whether all of them are there.
pub struct SharedPages {
    pub first_page: usize,
    pub count: usize,
    pub complete: bool,
    pub writable: bool,
    pub executable: bool,
}

fn zero_page() -> (r: Vec<u8>)
    ensures
        r@ == Seq::new(4096, |i: int| 0u8),
        r@.len() == 4096,
{
    let mut r: Vec<u8> = Vec::new();
    crate::bytes::push_repeat(&mut r, 0, 4096);
    proof {
        assert(r@ =~= Seq::new(4096, |i: int| 0u8));
    }
    r
}

impl MemFd {
    /// The pages are whole, and there are enough of them.
    pub open spec fn wf(&self) -> bool {
        pages_wf(self.pages@) && self.len <= self.pages@.len() * 4096
    }

    /// A file without contents.
    pub fn new(name: Vec<u8>) -> (r: Self)
        ensures
            r.wf(),
            r.name == name,
            r@.len() == 0,
            r.pages@.len() == 0,
    {
        MemFd { name, len: 0, pages: Vec::new() }
    }

    pub fn debug_name(&self) -> (r: &Vec<u8>)
        ensures
            *r == self.name,
    {
        &self.name
    }

    pub fn len(&self) -> (r: usize)
        ensures
            r == self@.len(),
    {
        self.len
    }

    /// Sets a byte.
    fn put(&mut self, i: usize, b: u8)
        requires
            old(self).wf(),
            i < old(self).pages@.len() * 4096,
        ensures
            final(self).wf(),
            final(self).name == old(self).name,
            final(self).len == old(self).len,
            final(self).pages@.len() == old(self).pages@.len(),
            forall|k: int|
                0 <= k < old(self).pages@.len() * 4096 ==> #[trigger] byte_of(final(self).pages@, k)
                    == if k == i {
                    b
                } else {
                    byte_of(old(self).pages@, k)
                },
    {
        let p: usize = i / PAGE;
        let mut page: Vec<u8> = Vec::new();
        let ghost before = self.pages@;
        std::mem::swap(&mut page, &mut self.pages[p]);
        page[i % PAGE] = b;
        self.pages[p] = page;
        proof {
            assert(self.pages@ =~= before.update(p as int, page));
            assert forall|k: int| 0 <= k < before.len() * 4096 implies #[trigger] byte_of(
                self.pages@,
                k,
            ) == if k == i {
                b
            } else {
                byte_of(before, k)
            } by {
                if k / 4096 == p {
                    assert(k == i <==> k % 4096 == i as int % 4096);
                }
            }
        }
    }

    /// Clears a range of the pages.
    fn zero_range(&mut self, from: usize, to: usize)
        requires
            old(self).wf(),
            from <= to <= old(self).pages@.len() * 4096,
        ensures
            final(self).wf(),
            final(self).name == old(self).name,
            final(self).len == old(self).len,
            final(self).pages@.len() == old(self).pages@.len(),
            forall|k: int|
                0 <= k < old(self).pages@.len() * 4096 ==> #[trigger] byte_of(final(self).pages@, k)
                    == if from <= k < to {
                    0
                } else {
                    byte_of(old(self).pages@, k)
                },
    {
        let mut i: usize = from;
        while i < to
            invariant
                self.wf(),
                from <= i <= to <= self.pages@.len() * 4096,
                self.name == old(self).name,
                self.len == old(self).len,
                self.pages@.len() == old(self).pages@.len(),
                forall|k: int|
                    0 <= k < old(self).pages@.len() * 4096 ==> #[trigger] byte_of(self.pages@, k)
                        == if from <= k < i {
                        0
                    } else {
                        byte_of(old(self).pages@, k)
                    },
            decreases to - i,
        {
            self.put(i, 0);
            i = i + 1;
        }
    }

    /// Makes the file `len` bytes long, with zeros where it grows. Pages are taken
    /// from and given back to the `free` ones that the system has; where they run
    /// out, those already taken stay with the file.
    pub fn truncate(&mut self, len: usize, free: &mut usize) -> (res: Result<(), i32>)
        requires
            old(self).wf(),
            *old(free) + old(self).pages@.len() <= usize::MAX,
        ensures
            final(self).wf(),
            final(self).name == old(self).name,
            *final(free) + final(self).pages@.len() == *old(free) + old(self).pages@.len(),
            match res {
                Ok(_) => {
                    &&& pages_for(len as int) <= old(self).pages@.len() + *old(free)
                    &&& final(self).pages@.len() == pages_for(len as int)
                    &&& final(self)@ == resized(old(self)@, len as int)
                },
                Err(e) => {
                    &&& e == EIO
                    &&& pages_for(len as int) > old(self).pages@.len() + *old(free)
                    &&& final(self)@ == old(self)@
                    &&& *final(free) == 0
                },
            },
    {
        let needed: usize = len / PAGE + if len % PAGE != 0 {
            1
        } else {
            0
        };
        let ghost p0 = self.pages@;
        let ghost v0 = self@;
        while self.pages.len() < needed
            invariant
                self.wf(),
                self.name == old(self).name,
                self.len == old(self).len,
                *free + self.pages@.len() == *old(free) + old(self).pages@.len(),
                old(self).wf(),
                p0 == old(self).pages@,
                v0 == old(self)@,
                needed == pages_for(len as int),
                p0.len() <= self.pages@.len(),
                self.pages@.len() <= needed || self.pages@.len() == p0.len(),
                forall|k: int| 0 <= k < p0.len() ==> self.pages@[k] == p0[k],
                forall|k: int|
                    p0.len() <= k < self.pages@.len() ==> (#[trigger] self.pages@[k])@ == Seq::new(
                        4096,
                        |i: int| 0u8,
                    ),
            decreases needed - self.pages@.len(),
        {
            if *free == 0 {
                proof {
                    assert(self@ =~= v0);
                }
                return Err(EIO);
            }
            *free = *free - 1;
            self.pages.push(zero_page());
        }
        let ghost p1 = self.pages@;
        proof {
            assert forall|i: int| 0 <= i < v0.len() implies byte_of(p1, i) == v0[i] by {}
        }
        while self.pages.len() > needed
            invariant
                pages_wf(self.pages@),
                self.name == old(self).name,
                self.len == old(self).len,
                *free + self.pages@.len() == *old(free) + old(self).pages@.len(),
                *old(free) + old(self).pages@.len() <= usize::MAX,
                needed <= self.pages@.len() <= p1.len(),
                self.pages@ == p1.take(self.pages@.len() as int),
            decreases self.pages@.len(),
        {
            let ghost before = self.pages@;
            let _ = self.pages.pop();
            proof {
                assert(self.pages@ =~= p1.take(self.pages@.len() as int));
            }
            *free = *free + 1;
        }
        proof {
            assert(self.pages@.len() == needed);
        }
        let old_len: usize = self.len;
        if len <= old_len {
            self.len = len;
            proof {
                assert(self@ =~= resized(v0, len as int)) by {
                    assert forall|i: int| 0 <= i < len implies self@[i] == v0[i] by {
                        assert(byte_of(self.pages@, i) == byte_of(p1, i));
                    }
                }
            }
        } else {
            let ghost p2 = self.pages@;
            proof {
                assert forall|i: int| 0 <= i < v0.len() implies #[trigger] byte_of(p2, i) == byte_of(
                    p1,
                    i,
                ) by {}
            }
            self.zero_range(old_len, len);
            self.len = len;
            proof {
                assert(self@ =~= resized(v0, len as int)) by {
                    assert forall|i: int| 0 <= i < len implies self@[i] == resized(v0, len as int)[i] by {
                        assert(self@[i] == byte_of(self.pages@, i));
                    }
                }
            }
        }
        Ok(())
    }

    /// Copies what the file has from `offset` on into `out`.
    pub fn read_at(&self, offset: usize, out: &mut [u8]) -> (res: Result<usize, i32>)
        requires
            self.wf(),
        ensures
            final(out)@.len() == old(out)@.len(),
            ({
                let n = count_at(self@, offset as int, old(out)@.len() as int);
                &&& res == Ok::<usize, i32>(n as usize)
                &&& forall|i: int|
                    0 <= i < old(out)@.len() ==> #[trigger] final(out)@[i] == if i < n {
                        byte_read(self@, offset as int, i)
                    } else {
                        old(out)@[i]
                    }
            }),
    {
        if offset >= self.len || out.len() == 0 {
            return Ok(0);
        }
        let have: usize = self.len - offset;
        let want: usize = if out.len() < have {
            out.len()
        } else {
            have
        };
        let mut i: usize = 0;
        while i < want
            invariant
                self.wf(),
                i <= want <= out@.len(),
                out@.len() == old(out)@.len(),
                offset + want <= self.len,
                forall|k: int|
                    0 <= k < out@.len() ==> #[trigger] out@[k] == if k < i {
                        self@[offset + k]
                    } else {
                        old(out)@[k]
                    },
            decreases want - i,
        {
            let at: usize = offset + i;
            proof {
                assert(self@[at as int] == byte_of(self.pages@, at as int));
            }
            out[i] = self.pages[at / PAGE][at % PAGE];
            i = i + 1;
        }
        Ok(want)
    }

    /// Writes `data` at `offset`; the file grows where it must.
    pub fn write_at(&mut self, offset: usize, data: &[u8], free: &mut usize) -> (res: Result<usize, i32>)
        requires
            old(self).wf(),
            *old(free) + old(self).pages@.len() <= usize::MAX,
        ensures
            final(self).wf(),
            final(self).name == old(self).name,
            *final(free) + final(self).pages@.len() == *old(free) + old(self).pages@.len(),
            ({
                let end = offset + data@.len();
                match res {
                    Ok(n) => {
                        &&& n == data@.len()
                        &&& data@.len() == 0 ==> final(self)@ == old(self)@
                        &&& data@.len() > 0 ==> end <= usize::MAX && final(self)@ == put_at(
                            old(self)@,
                            offset as int,
                            data@,
                        )
                    },
                    Err(e) => {
                        &&& data@.len() > 0
                        &&& final(self)@ == old(self)@
                        &&& if end > usize::MAX {
                            e == EINVAL
                        } else {
                            e == EIO && end > old(self)@.len() && pages_for(end) > old(self).pages@.len()
                                + *old(free)
                        }
                    },
                }
            }),
    {
        let n: usize = data.len();
        if n == 0 {
            return Ok(0);
        }
        if offset > usize::MAX - n {
            return Err(EINVAL);
        }
        let end: usize = offset + n;
        let ghost v0 = self@;
        if end > self.len {
            match self.truncate(end, free) {
                Ok(_) => {},
                Err(e) => return Err(e),
            }
        }
        let ghost v1 = self@;
        proof {
            assert(v1 == resized(
                v0,
                if end > v0.len() {
                    end as int
                } else {
                    v0.len() as int
                },
            )) by {
                if end <= v0.len() {
                    assert(resized(v0, v0.len() as int) =~= v0);
                }
            }
        }
        let ghost pn = self.pages@.len();
        let ghost fn0 = *free;
        let mut i: usize = 0;
        while i < n
            invariant
                self.wf(),
                self.name == old(self).name,
                n == data@.len(),
                end == offset + n,
                i <= n,
                self.pages@.len() == pn,
                *free == fn0,
                self@.len() == v1.len(),
                end <= v1.len(),
                forall|k: int|
                    0 <= k < v1.len() ==> #[trigger] self@[k] == if offset <= k < offset + i {
                        data@[k - offset]
                    } else {
                        v1[k]
                    },
            decreases n - i,
        {
            let ghost before = self@;
            let ghost pb = self.pages@;
            let at: usize = offset + i;
            self.put(at, data[i]);
            proof {
                assert forall|k: int| 0 <= k < v1.len() implies #[trigger] self@[k] == if offset <= k
                    < offset + i + 1 {
                    data@[k - offset]
                } else {
                    v1[k]
                } by {
                    assert(self@[k] == byte_of(self.pages@, k));
                    assert(before[k] == byte_of(pb, k));
                }
            }
            i = i + 1;
        }
        proof {
            assert(self@ =~= splice(v1, offset as int, data@));
        }
        Ok(n)
    }

    /// Which pages a shared mapping of `map_len` bytes shows, and how.
    pub fn map_shared(&self, map_len: usize, requested_len: usize, prot: u64, offset: usize) -> (res:
        Result<SharedPages, i32>)
        requires
            self.wf(),
        ensures
            ({
                let refused = offset % 4096 != 0 || offset + requested_len > self@.len();
                match res {
                    Ok(s) => {
                        &&& !refused
                        &&& s.first_page == offset / 4096
                        &&& s.count == map_len / 4096
                        &&& s.complete == (offset / 4096 + map_len / 4096 <= self.pages@.len())
                        &&& s.writable == (prot & 2 != 0)
                        &&& s.executable == (prot & 4 != 0)
                    },
                    Err(e) => e == EINVAL && refused,
                }
            }),
    {
        if offset % PAGE != 0 {
            return Err(EINVAL);
        }
        if requested_len > self.len || offset > self.len - requested_len {
            return Err(EINVAL);
        }
        let first_page: usize = offset / PAGE;
        let count: usize = map_len / PAGE;
        let have: usize = self.pages.len();
        Ok(
            SharedPages {
                first_page,
                count,
                complete: count <= have && first_page <= have - count,
                writable: prot & 2 != 0,
                executable: prot & 4 != 0,
            },
        )
    }
}

/// What was written is read back.
pub proof fn lemma_write_then_read(v: Seq<u8>, offset: int, data: Seq<u8>)
    requires
        0 <= offset,
        data.len() > 0,
    ensures
        ({
            let end = offset + data.len();
            let w = splice(
                resized(
                    v,
                    if end > v.len() {
                        end
                    } else {
                        v.len() as int
                    },
                ),
                offset,
                data,
            );
            w.subrange(offset, end) == data
        }),
{
    let end = offset + data.len();
    let r = resized(
        v,
        if end > v.len() {
            end
        } else {
            v.len() as int
        },
    );
    crate::block::lemma_splice(r, offset, data);
}

} // verus!
