//! Reading files.

use crate::block::BlockDeviceIO;
use crate::bytes::{cut, push_all};
use crate::twilight_fs::fs::{inode_at, valid_ino, TwilightFs};
use crate::twilight_fs::inode::{Inode, InodeView};
use crate::twilight_fs::zones::{decode_words, words};
use vstd::prelude::*;

verus! {

/// The contents of the zones in `zs`, up to the first zero, at most `left` bytes.
pub open spec fn run_bytes(blocks: Seq<Seq<u8>>, zs: Seq<u32>, left: int) -> Seq<u8>
    decreases zs.len(),
{
    if zs.len() == 0 || zs[0] == 0 {
        Seq::<u8>::empty()
    } else if left <= 2048 {
        blocks[zs[0] as int].take(left)
    } else {
        blocks[zs[0] as int] + run_bytes(blocks, zs.skip(1), left - 2048)
    }
}

/// The contents that the indirect blocks in `l1` lead to, up to the first zero, at
/// most `left` bytes. The last entry of an indirect block is not followed.
pub open spec fn double_bytes(blocks: Seq<Seq<u8>>, l1: Seq<u32>, left: int) -> Seq<u8>
    decreases l1.len(),
{
    if l1.len() == 0 || left <= 0 || l1[0] == 0 {
        Seq::<u8>::empty()
    } else {
        let first = run_bytes(blocks, words(blocks[l1[0] as int]).take(511), left);
        first + double_bytes(blocks, l1.skip(1), left - first.len())
    }
}

/// What reading the file with the inode `inode` gives.
pub open spec fn file_bytes(blocks: Seq<Seq<u8>>, inode: InodeView) -> Seq<u8> {
    let a = run_bytes(blocks, inode.direct, inode.size as int);
    let b = if inode.single == 0 {
        Seq::<u8>::empty()
    } else {
        run_bytes(blocks, words(blocks[inode.single as int]).take(511), inode.size - a.len())
    };
    let c = if inode.double == 0 {
        Seq::<u8>::empty()
    } else {
        double_bytes(
            blocks,
            words(blocks[inode.double as int]).take(511),
            inode.size - a.len() - b.len(),
        )
    };
    a + b + c
}

/// Whether the zone numbers in `zs` name blocks of the volume.
pub open spec fn on_volume(blocks: Seq<Seq<u8>>, zs: Seq<u32>) -> bool {
    forall|i: int| 0 <= i < zs.len() ==> #[trigger] zs[i] < blocks.len()
}

/// Whether all zone numbers of a file name blocks of the volume.
pub open spec fn zones_on_volume(blocks: Seq<Seq<u8>>, inode: InodeView) -> bool {
    &&& on_volume(blocks, inode.direct)
    &&& inode.single != 0 ==> inode.single < blocks.len() && on_volume(
        blocks,
        words(blocks[inode.single as int]),
    )
    &&& inode.double != 0 ==> {
        &&& inode.double < blocks.len()
        &&& on_volume(blocks, words(blocks[inode.double as int]))
        &&& forall|i: int|
            0 <= i < 512 && #[trigger] words(blocks[inode.double as int])[i] != 0 ==> on_volume(
                blocks,
                words(blocks[words(blocks[inode.double as int])[i] as int]),
            )
    }
}

/// Whether the zones of which `run_bytes` gives the contents are on the volume.
pub open spec fn run_reads(blocks: Seq<Seq<u8>>, zs: Seq<u32>, left: int) -> bool
    decreases zs.len(),
{
    zs.len() == 0 || zs[0] == 0 || zs[0] < blocks.len() && (left <= 2048 || run_reads(
        blocks,
        zs.skip(1),
        left - 2048,
    ))
}

/// Whether the zones of which `double_bytes` gives the contents, and those that lead to them,
/// are on the volume.
pub open spec fn double_reads(blocks: Seq<Seq<u8>>, l1: Seq<u32>, left: int) -> bool
    decreases l1.len(),
{
    l1.len() == 0 || left <= 0 || l1[0] == 0 || {
        let zs = words(blocks[l1[0] as int]).take(511);
        &&& l1[0] < blocks.len()
        &&& run_reads(blocks, zs, left)
        &&& double_reads(blocks, l1.skip(1), left - run_bytes(blocks, zs, left).len())
    }
}

/// Whether the zones that reading a file looks at are on the volume.
pub open spec fn file_reads(blocks: Seq<Seq<u8>>, inode: InodeView) -> bool {
    let a = run_bytes(blocks, inode.direct, inode.size as int);
    let single = words(blocks[inode.single as int]).take(511);
    let b = if inode.single == 0 {
        Seq::<u8>::empty()
    } else {
        run_bytes(blocks, single, inode.size - a.len())
    };
    &&& run_reads(blocks, inode.direct, inode.size as int)
    &&& inode.single != 0 ==> inode.single < blocks.len() && run_reads(
        blocks,
        single,
        inode.size - a.len(),
    )
    &&& inode.double != 0 ==> inode.double < blocks.len() && double_reads(
        blocks,
        words(blocks[inode.double as int]).take(511),
        inode.size - a.len() - b.len(),
    )
}

proof fn lemma_run_reads(blocks: Seq<Seq<u8>>, zs: Seq<u32>, left: int)
    requires
        on_volume(blocks, zs),
    ensures
        run_reads(blocks, zs, left),
    decreases zs.len(),
{
    if zs.len() > 0 {
        let rest = zs.skip(1);
        assert forall|i: int| 0 <= i < rest.len() implies #[trigger] rest[i] < blocks.len() by {
            assert(rest[i] == zs[i + 1]);
        }
        lemma_run_reads(blocks, rest, left - 2048);
    }
}

proof fn lemma_double_reads(blocks: Seq<Seq<u8>>, l1: Seq<u32>, left: int)
    requires
        on_volume(blocks, l1),
        forall|i: int|
            0 <= i < l1.len() && #[trigger] l1[i] != 0 ==> on_volume(
                blocks,
                words(blocks[l1[i] as int]).take(511),
            ),
    ensures
        double_reads(blocks, l1, left),
    decreases l1.len(),
{
    if l1.len() > 0 && left > 0 && l1[0] != 0 {
        let zs = words(blocks[l1[0] as int]).take(511);
        let rest = l1.skip(1);
        assert forall|i: int| 0 <= i < rest.len() implies #[trigger] rest[i] < blocks.len() && (rest[i]
            != 0 ==> on_volume(blocks, words(blocks[rest[i] as int]).take(511))) by {
            assert(rest[i] == l1[i + 1]);
        }
        lemma_run_reads(blocks, zs, left);
        lemma_double_reads(blocks, rest, left - run_bytes(blocks, zs, left).len());
    }
}

/// A file whose zones are all on the volume can be read.
pub proof fn lemma_zones_read(blocks: Seq<Seq<u8>>, inode: InodeView)
    requires
        zones_on_volume(blocks, inode),
    ensures
        file_reads(blocks, inode),
{
    let a = run_bytes(blocks, inode.direct, inode.size as int);
    lemma_run_reads(blocks, inode.direct, inode.size as int);
    let left = inode.size - a.len();
    let single = words(blocks[inode.single as int]);
    if inode.single != 0 {
        lemma_on_volume_take(blocks, single);
        lemma_run_reads(blocks, single.take(511), left);
    }
    if inode.double != 0 {
        let all = words(blocks[inode.double as int]);
        let b = if inode.single == 0 {
            Seq::<u8>::empty()
        } else {
            run_bytes(blocks, single.take(511), left)
        };
        lemma_on_volume_take(blocks, all);
        let l1 = all.take(511);
        assert forall|i: int| 0 <= i < l1.len() && #[trigger] l1[i] != 0 implies on_volume(
            blocks,
            words(blocks[l1[i] as int]).take(511),
        ) by {
            assert(all[i] == l1[i]);
            lemma_on_volume_take(blocks, words(blocks[all[i] as int]));
        }
        lemma_double_reads(blocks, l1, left - b.len());
    }
}

impl<D: BlockDeviceIO> TwilightFs<D> {
    /// Appends the contents of the zones in `zs`, up to the first zero, at most
    /// `left` bytes.
    fn read_run(&mut self, zs: &Vec<u32>, left: u64, out: &mut Vec<u8>) -> (res: Result<u64, ()>)
        requires
            old(self).wf(),
            old(out)@.len() + left <= usize::MAX,
        ensures
            final(self).wf(),
            final(self).same_but_blocks(old(self)),
            final(self).blocks() == old(self).blocks(),
            match res {
                Ok(rest) => {
                    let bytes = run_bytes(old(self).blocks(), zs@, left as int);
                    &&& run_reads(old(self).blocks(), zs@, left as int)
                    &&& final(out)@ == old(out)@ + bytes
                    &&& rest == left - bytes.len()
                },
                Err(_) => !(old(self).serves() && run_reads(old(self).blocks(), zs@, left as int)),
            },
    {
        let ghost blocks = self.blocks();
        let ghost start = out@;
        let mut rest: u64 = left;
        let mut i: usize = 0;
        proof {
            assert(zs@.skip(0) =~= zs@);
        }
        while i < zs.len()
            invariant
                self.wf(),
                self.same_but_blocks(old(self)),
                blocks == old(self).blocks(),
                self.blocks() == blocks,
                i <= zs@.len(),
                rest <= left,
                out@.len() + rest <= usize::MAX,
                out@.len() - start.len() == left - rest,
                start == old(out)@,
                run_reads(blocks, zs@, left as int) == run_reads(
                    blocks,
                    zs@.skip(i as int),
                    rest as int,
                ),
                start + run_bytes(blocks, zs@, left as int) == out@ + run_bytes(
                    blocks,
                    zs@.skip(i as int),
                    rest as int,
                ),
            decreases zs@.len() - i,
        {
            proof {
                assert(zs@.skip(i as int)[0] == zs@[i as int]);
                assert(zs@.skip(i as int).skip(1) =~= zs@.skip(i + 1));
            }
            if zs[i] == 0 {
                proof {
                    assert(out@ + Seq::<u8>::empty() =~= out@);
                    lemma_tail(start, run_bytes(blocks, zs@, left as int), out@);
                }
                return Ok(rest);
            }
            let buffer: Vec<u8> = match self.get_block(zs[i]) {
                Ok(b) => b,
                Err(_) => return Err(()),
            };
            if rest <= 2048 {
                let part: Vec<u8> = cut(&buffer, 0, rest as usize);
                let ghost before = out@;
                push_all(out, &part);
                proof {
                    assert(part@ =~= buffer@.take(rest as int));
                    lemma_tail(start, run_bytes(blocks, zs@, left as int), out@);
                }
                return Ok(0);
            }
            let ghost before = out@;
            push_all(out, &buffer);
            proof {
                let more = run_bytes(blocks, zs@.skip(i + 1), rest - 2048);
                assert(before + (buffer@ + more) =~= out@ + more);
            }
            rest = rest - 2048;
            i = i + 1;
        }
        proof {
            assert(zs@.skip(i as int).len() == 0);
            assert(out@ + Seq::<u8>::empty() =~= out@);
            lemma_tail(start, run_bytes(blocks, zs@, left as int), out@);
        }
        Ok(rest)
    }

    /// Reads the file with the inode `inode_num`.
    pub fn read_file(&mut self, inode_num: u32) -> (res: Result<Vec<u8>, &'static str>)
        requires
            old(self).wf(),
        ensures
            final(self).wf(),
            final(self).same_but_blocks(old(self)),
            final(self).blocks() == old(self).blocks(),
            ({
                let blocks = old(self).blocks();
                let inode = inode_at(blocks, old(self).superblock, inode_num as int);
                match res {
                    Ok(v) => {
                        &&& valid_ino(old(self).superblock, inode_num as int)
                        &&& inode.size <= usize::MAX
                        &&& file_reads(blocks, inode)
                        &&& v@ == file_bytes(blocks, inode)
                    },
                    Err(m) => if !valid_ino(old(self).superblock, inode_num as int) {
                        m == "Invalid inode number"
                    } else {
                        old(self).serves() ==> if inode.size > usize::MAX {
                            m == "File too large"
                        } else {
                            !file_reads(blocks, inode) && m == "Failed to read block"
                        }
                    },
                }
            }),
    {
        let inode: Inode = match self.read_inode(inode_num) {
            Ok(i) => i,
            Err(m) => return Err(m),
        };
        let ghost blocks = self.blocks();
        if inode.size > usize::MAX as u64 {
            return Err("File too large");
        }
        let mut content: Vec<u8> = Vec::new();
        let mut direct: Vec<u32> = Vec::new();
        let mut i: usize = 0;
        while i < 12
            invariant
                i <= 12,
                direct@ == inode.direct@.take(i as int),
            decreases 12 - i,
        {
            direct.push(inode.direct[i]);
            i = i + 1;
            proof {
                assert(inode.direct@.take(i as int) =~= inode.direct@.take(i - 1).push(
                    inode.direct@[i - 1],
                ));
            }
        }
        proof {
            assert(inode.direct@.take(12) =~= inode.direct@);
        }
        let mut left: u64 = match self.read_run(&direct, inode.size, &mut content) {
            Ok(r) => r,
            Err(_) => return Err("Failed to read block"),
        };
        let ghost a = run_bytes(blocks, inode@.direct, inode.size as int);
        proof {
            assert(content@ =~= a);
        }
        let ghost mut b = Seq::<u8>::empty();
        if inode.single != 0 {
            let buffer: Vec<u8> = match self.get_block(inode.single) {
                Ok(x) => x,
                Err(_) => return Err("Failed to read block"),
            };
            let mut entries: Vec<u32> = decode_words(&buffer);
            let ghost all = entries@;
            entries.truncate(511);
            proof {
                assert(entries@ =~= words(buffer@).take(511));
                lemma_on_volume_take(blocks, all);
            }
            left = match self.read_run(&entries, left, &mut content) {
                Ok(r) => r,
                Err(_) => return Err("Failed to read block"),
            };
            proof {
                b = run_bytes(blocks, words(buffer@).take(511), inode.size - a.len());
            }
        }
        proof {
            assert(content@ =~= a + b);
        }
        if inode.double != 0 {
            let buffer: Vec<u8> = match self.get_block(inode.double) {
                Ok(x) => x,
                Err(_) => return Err("Failed to read block"),
            };
            let mut l1: Vec<u32> = decode_words(&buffer);
            let ghost all = l1@;
            l1.truncate(511);
            let ghost goal = double_bytes(blocks, words(buffer@).take(511), left as int);
            let ghost start = content@;
            let ghost left1 = left;
            proof {
                assert(l1@ =~= words(buffer@).take(511));
                assert(l1@.skip(0) =~= l1@);
            }
            let mut k: usize = 0;
            while k < l1.len() && left > 0 && l1[k] != 0
                invariant
                    self.wf(),
                    self.same_but_blocks(old(self)),
                    self.blocks() == blocks,
                    blocks == old(self).blocks(),
                    inode@ == inode_at(blocks, old(self).superblock, inode_num as int),
                    valid_ino(old(self).superblock, inode_num as int),
                    inode.double != 0,
                    inode.double < blocks.len(),
                    buffer@ == blocks[inode.double as int],
                    all == words(buffer@),
                    all.len() == 512,
                    l1@ == all.take(511),
                    k <= l1@.len(),
                    content@.len() + left <= usize::MAX,
                    double_reads(blocks, l1@, left1 as int) == double_reads(
                        blocks,
                        l1@.skip(k as int),
                        left as int,
                    ),
                    file_reads(blocks, inode@) == double_reads(blocks, l1@, left1 as int),
                    inode.size <= usize::MAX,
                    start + goal == content@ + double_bytes(
                        blocks,
                        l1@.skip(k as int),
                        left as int,
                    ),
                decreases l1@.len() - k,
            {
                proof {
                    assert(l1@.skip(k as int)[0] == l1@[k as int]);
                    assert(l1@.skip(k as int).skip(1) =~= l1@.skip(k + 1));
                    assert(l1@[k as int] == all[k as int]);
                }
                let block: Vec<u8> = match self.get_block(l1[k]) {
                    Ok(x) => x,
                    Err(_) => return Err("Failed to read block"),
                };
                let mut entries: Vec<u32> = decode_words(&block);
                let ghost whole = entries@;
                entries.truncate(511);
                proof {
                    assert(entries@ =~= words(block@).take(511));
                    lemma_on_volume_take(blocks, whole);
                }
                let ghost before = content@;
                let ghost left0 = left as int;
                left = match self.read_run(&entries, left, &mut content) {
                    Ok(r) => r,
                    Err(_) => return Err("Failed to read block"),
                };
                proof {
                    let first = run_bytes(blocks, words(block@).take(511), left0);
                    let more = double_bytes(blocks, l1@.skip(k + 1), left as int);
                    assert(before + (first + more) =~= content@ + more);
                }
                k = k + 1;
            }
            proof {
                if k < l1@.len() {
                    assert(l1@.skip(k as int)[0] == l1@[k as int]);
                }
                assert(content@ + Seq::<u8>::empty() =~= content@);
                assert(a + b + goal =~= start + goal);
            }
        } else {
            proof {
                assert(a + b + Seq::<u8>::empty() =~= a + b);
            }
        }
        Ok(content)
    }
}

proof fn lemma_on_volume_take(blocks: Seq<Seq<u8>>, zs: Seq<u32>)
    requires
        zs.len() == 512,
    ensures
        on_volume(blocks, zs) ==> on_volume(blocks, zs.take(511)),
{
}

proof fn lemma_tail(a: Seq<u8>, x: Seq<u8>, b: Seq<u8>)
    requires
        a + x == b,
    ensures
        b == a + x,
        b.len() - a.len() == x.len(),
{
}

} // verus!
