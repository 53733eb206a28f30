//! What the file system remembers: paths it has resolved, file contents, and the
//! names in directories. Each cache belongs to one generation of the name space
//! and starts afresh in the next; each gives up its oldest entries first.

use crate::bytes::{same, starts_with, to_vec};
use vstd::prelude::*;

verus! {

pub const PATH_LOOKUP_CACHE_CAPACITY: usize = 1024;

pub const FILE_CACHE_MAX_TOTAL_BYTES: usize = 33554432;

pub const FILE_CACHE_MAX_FILE_BYTES: usize = 8388608;

pub const DIR_INDEX_CACHE_CAPACITY: usize = 512;

/// A name and the inode it stands for.
pub struct NameEntry {
    pub name: Vec<u8>,
    pub ino: u32,
}

impl View for NameEntry {
    type V = (Seq<u8>, u32);

    open spec fn view(&self) -> (Seq<u8>, u32) {
        (self.name@, self.ino)
    }
}

pub open spec fn pairs(v: Seq<NameEntry>) -> Seq<(Seq<u8>, u32)> {
    v.map_values(|e: NameEntry| e@)
}

/// The map that a list of pairs stands for: a later pair replaces an earlier one.
pub open spec fn as_map(s: Seq<(Seq<u8>, u32)>) -> Map<Seq<u8>, u32>
    decreases s.len(),
{
    if s.len() == 0 {
        Map::<Seq<u8>, u32>::empty()
    } else {
        as_map(s.drop_last()).insert(s.last().0, s.last().1)
    }
}

/// What `m` holds for `key`.
pub open spec fn at_key(m: Map<Seq<u8>, u32>, key: Seq<u8>) -> Option<u32> {
    if m.dom().contains(key) {
        Some(m[key])
    } else {
        None
    }
}

/// The position of the last pair of `v` with the given name.
fn position(v: &Vec<NameEntry>, name: &[u8]) -> (r: Option<usize>)
    ensures
        match r {
            Some(i) => i < v@.len() && v@[i as int].name@ == name@ && at_key(
                as_map(pairs(v@)),
                name@,
            ) == Some(v@[i as int].ino),
            None => at_key(as_map(pairs(v@)), name@) is None && forall|j: int|
                0 <= j < v@.len() ==> (#[trigger] v@[j]).name@ != name@,
        },
{
    let mut i: usize = v.len();
    proof {
        assert(pairs(v@).take(i as int) =~= pairs(v@));
    }
    while i > 0
        invariant
            i <= v@.len(),
            at_key(as_map(pairs(v@)), name@) == at_key(as_map(pairs(v@).take(i as int)), name@),
            forall|j: int| i <= j < v@.len() ==> (#[trigger] v@[j]).name@ != name@,
        decreases i,
    {
        i = i - 1;
        proof {
            let t = pairs(v@).take(i + 1);
            assert(t.drop_last() =~= pairs(v@).take(i as int));
            assert(t.last() == v@[i as int]@);
        }
        if same(&v[i].name, name) {
            return Some(i);
        }
    }
    None
}

/// The names in a directory.
pub struct NameMap {
    pub entries: Vec<NameEntry>,
}

impl View for NameMap {
    type V = Map<Seq<u8>, u32>;

    open spec fn view(&self) -> Map<Seq<u8>, u32> {
        as_map(pairs(self.entries@))
    }
}

impl NameMap {
    pub fn new() -> (r: Self)
        ensures
            r@ == Map::<Seq<u8>, u32>::empty(),
    {
        NameMap { entries: Vec::new() }
    }

    /// The inode that `name` stands for.
    pub fn get(&self, name: &[u8]) -> (r: Option<u32>)
        ensures
            r == at_key(self@, name@),
    {
        match position(&self.entries, name) {
            Some(i) => Some(self.entries[i].ino),
            None => None,
        }
    }

    /// Takes `name` out.
    pub fn remove(&mut self, name: &[u8])
        ensures
            final(self)@ == old(self)@.remove(name@),
    {
        let mut kept: Vec<NameEntry> = Vec::new();
        let mut i: usize = 0;
        let ghost all = pairs(self.entries@);
        proof {
            assert(all.take(0) =~= Seq::<(Seq<u8>, u32)>::empty());
            assert(as_map(pairs(kept@)) =~= as_map(all.take(0)).remove(name@));
        }
        while i < self.entries.len()
            invariant
                i <= self.entries@.len(),
                all == pairs(self.entries@),
                self.entries == old(self).entries,
                as_map(pairs(kept@)) == as_map(all.take(i as int)).remove(name@),
            decreases self.entries@.len() - i,
        {
            let ghost before = kept@;
            proof {
                assert(all.take(i + 1).drop_last() =~= all.take(i as int));
                assert(all.take(i + 1).last() == self.entries@[i as int]@);
            }
            if !same(&self.entries[i].name, name) {
                let e: NameEntry = NameEntry {
                    name: to_vec(&self.entries[i].name),
                    ino: self.entries[i].ino,
                };
                kept.push(e);
                proof {
                    assert(pairs(kept@).drop_last() =~= pairs(before));
                    assert(as_map(pairs(kept@)) =~= as_map(all.take(i + 1)).remove(name@));
                }
            } else {
                proof {
                    assert(as_map(all.take(i + 1)).remove(name@) =~= as_map(
                        all.take(i as int),
                    ).remove(name@));
                }
            }
            i = i + 1;
        }
        proof {
            assert(all.take(i as int) =~= all);
        }
        self.entries = kept;
    }

    /// Lets `name` stand for `ino`.
    pub fn insert(&mut self, name: Vec<u8>, ino: u32)
        ensures
            final(self)@ == old(self)@.insert(name@, ino),
    {
        self.remove(&name);
        let ghost before = self.entries@;
        let ghost m = self@;
        let ghost n = name@;
        self.entries.push(NameEntry { name, ino });
        proof {
            assert(pairs(self.entries@).drop_last() =~= pairs(before));
            assert(pairs(self.entries@).last() == (n, ino));
            assert(m.insert(n, ino) =~= old(self)@.insert(n, ino));
        }
    }

    /// A copy of the map.
    pub fn copy(&self) -> (r: NameMap)
        ensures
            r@ == self@,
    {
        let mut out: Vec<NameEntry> = Vec::new();
        let mut i: usize = 0;
        while i < self.entries.len()
            invariant
                i <= self.entries@.len(),
                pairs(out@) == pairs(self.entries@).take(i as int),
            decreases self.entries@.len() - i,
        {
            let ghost before = out@;
            let e: NameEntry = NameEntry {
                name: to_vec(&self.entries[i].name),
                ino: self.entries[i].ino,
            };
            out.push(e);
            i = i + 1;
            proof {
                assert(pairs(out@) =~= pairs(before).push(e@));
                assert(pairs(self.entries@).take(i as int) =~= pairs(self.entries@).take(
                    i - 1,
                ).push(self.entries@[i - 1]@));
            }
        }
        proof {
            assert(pairs(self.entries@).take(i as int) =~= pairs(self.entries@));
        }
        NameMap { entries: out }
    }
}

/// Whether `path` is `prefix` or lies below it.
pub open spec fn at_or_below(path: Seq<u8>, prefix: Seq<u8>) -> bool {
    path == prefix || (crate::bytes::has_prefix(path, prefix) && path.len() > prefix.len()
        && path[prefix.len() as int] == 47)
}

fn is_at_or_below(path: &[u8], prefix: &[u8]) -> (r: bool)
    ensures
        r == at_or_below(path@, prefix@),
{
    if same(path, prefix) {
        return true;
    }
    starts_with(path, prefix) && path.len() > prefix.len() && path[prefix.len()] == 47
}

/// The pairs of `s` whose path is not at or below `prefix`, in their order.
pub open spec fn without_prefix(s: Seq<(Seq<u8>, u32)>, prefix: Seq<u8>) -> Seq<(Seq<u8>, u32)>
    decreases s.len(),
{
    if s.len() == 0 {
        s
    } else if at_or_below(s.last().0, prefix) {
        without_prefix(s.drop_last(), prefix)
    } else {
        without_prefix(s.drop_last(), prefix).push(s.last())
    }
}

/// Resolved paths, oldest first.
pub struct PathLookupCache {
    pub generation: usize,
    pub entries: Vec<NameEntry>,
}

impl PathLookupCache {
    pub open spec fn wf(self) -> bool {
        self.entries@.len() <= PATH_LOOKUP_CACHE_CAPACITY
    }

    /// What the cache holds in generation `generation`, oldest first.
    pub open spec fn held(self, generation: usize) -> Seq<(Seq<u8>, u32)> {
        if self.generation == generation {
            pairs(self.entries@)
        } else {
            Seq::<(Seq<u8>, u32)>::empty()
        }
    }

    pub fn new() -> (r: Self)
        ensures
            r.wf(),
            r.generation == 0,
            r.held(0) == Seq::<(Seq<u8>, u32)>::empty(),
    {
        let r = PathLookupCache { generation: 0, entries: Vec::new() };
        proof {
            assert(pairs(r.entries@) =~= Seq::<(Seq<u8>, u32)>::empty());
        }
        r
    }

    /// Empties the cache where it belongs to another generation.
    pub fn ensure_generation(&mut self, generation: usize)
        requires
            old(self).wf(),
        ensures
            final(self).wf(),
            final(self).generation == generation,
            final(self).held(generation) == old(self).held(generation),
    {
        if self.generation != generation {
            self.generation = generation;
            self.entries = Vec::new();
            proof {
                assert(pairs(self.entries@) =~= Seq::<(Seq<u8>, u32)>::empty());
            }
        }
    }

    /// The inode that `path` was resolved to.
    pub fn get(&mut self, generation: usize, path: &[u8]) -> (r: Option<u32>)
        requires
            old(self).wf(),
        ensures
            final(self).wf(),
            final(self).generation == generation,
            final(self).held(generation) == old(self).held(generation),
            r == at_key(as_map(old(self).held(generation)), path@),
    {
        self.ensure_generation(generation);
        match position(&self.entries, path) {
            Some(i) => Some(self.entries[i].ino),
            None => None,
        }
    }

    /// Remembers that `path` resolves to `ino`. What is known of `path` stays; the
    /// oldest path goes where the cache is full.
    pub fn insert(&mut self, generation: usize, path: Vec<u8>, ino: u32)
        requires
            old(self).wf(),
        ensures
            final(self).wf(),
            final(self).generation == generation,
            final(self).held(generation) == ({
                let h = old(self).held(generation);
                if as_map(h).dom().contains(path@) {
                    h
                } else if h.len() < PATH_LOOKUP_CACHE_CAPACITY {
                    h.push((path@, ino))
                } else {
                    h.push((path@, ino)).skip(1)
                }
            }),
    {
        self.ensure_generation(generation);
        let ghost h = pairs(self.entries@);
        if position(&self.entries, &path).is_some() {
            return ;
        }
        let ghost p = path@;
        self.entries.push(NameEntry { name: path, ino });
        proof {
            assert(pairs(self.entries@) =~= h.push((p, ino)));
        }
        if self.entries.len() > PATH_LOOKUP_CACHE_CAPACITY {
            let ghost full = self.entries@;
            self.entries.remove(0);
            proof {
                assert(pairs(self.entries@) =~= pairs(full).skip(1));
            }
        }
    }

    /// Forgets `prefix` and every path below it.
    pub fn remove_prefix(&mut self, generation: usize, prefix: &[u8])
        requires
            old(self).wf(),
        ensures
            final(self).wf(),
            final(self).generation == generation,
            final(self).held(generation) == without_prefix(old(self).held(generation), prefix@),
    {
        self.ensure_generation(generation);
        let ghost h = pairs(self.entries@);
        let mut kept: Vec<NameEntry> = Vec::new();
        let mut i: usize = 0;
        proof {
            assert(pairs(kept@) =~= without_prefix(h.take(0), prefix@));
        }
        while i < self.entries.len()
            invariant
                i <= self.entries@.len() <= PATH_LOOKUP_CACHE_CAPACITY,
                kept@.len() <= i,
                h == pairs(self.entries@),
                h == old(self).held(generation),
                self.generation == generation,
                pairs(kept@) == without_prefix(h.take(i as int), prefix@),
            decreases self.entries@.len() - i,
        {
            let ghost before = kept@;
            proof {
                assert(h.take(i + 1).drop_last() =~= h.take(i as int));
                assert(h.take(i + 1).last() == self.entries@[i as int]@);
            }
            if !is_at_or_below(&self.entries[i].name, prefix) {
                let e: NameEntry = NameEntry {
                    name: to_vec(&self.entries[i].name),
                    ino: self.entries[i].ino,
                };
                kept.push(e);
                proof {
                    assert(pairs(kept@) =~= pairs(before).push(e@));
                }
            }
            i = i + 1;
        }
        proof {
            assert(h.take(i as int) =~= h);
        }
        self.entries = kept;
    }
}

/// The contents of one file.
pub struct FileEntry {
    pub ino: u32,
    pub data: Vec<u8>,
}

impl View for FileEntry {
    type V = (u32, Seq<u8>);

    open spec fn view(&self) -> (u32, Seq<u8>) {
        (self.ino, self.data@)
    }
}

pub open spec fn file_pairs(v: Seq<FileEntry>) -> Seq<(u32, Seq<u8>)> {
    v.map_values(|e: FileEntry| e@)
}

/// How many bytes the files in `s` hold.
pub open spec fn total_len(s: Seq<(u32, Seq<u8>)>) -> nat
    decreases s.len(),
{
    if s.len() == 0 {
        0
    } else {
        s[0].1.len() + total_len(s.skip(1))
    }
}

/// The bytes of a file from `offset` on, as many as there is room for.
pub open spec fn slice_of(data: Seq<u8>, offset: int, room: int) -> Seq<u8> {
    let left = if offset >= data.len() {
        0
    } else {
        data.len() - offset
    };
    let n = if room < left {
        room
    } else {
        left
    };
    data.subrange(data.len() - left, data.len() - left + n)
}

/// The contents held for `ino`.
pub open spec fn file_at(s: Seq<(u32, Seq<u8>)>, ino: u32) -> Option<Seq<u8>>
    decreases s.len(),
{
    if s.len() == 0 {
        None
    } else if s[0].0 == ino {
        Some(s[0].1)
    } else {
        file_at(s.skip(1), ino)
    }
}

/// `s` without its oldest files, as many as must go so that `size` bytes fit.
pub open spec fn evicted(s: Seq<(u32, Seq<u8>)>, size: nat) -> Seq<(u32, Seq<u8>)>
    decreases s.len(),
{
    if s.len() == 0 || total_len(s) + size <= FILE_CACHE_MAX_TOTAL_BYTES {
        s
    } else {
        evicted(s.skip(1), size)
    }
}

/// `s` without the file `ino`.
pub open spec fn without_file(s: Seq<(u32, Seq<u8>)>, ino: u32) -> Seq<(u32, Seq<u8>)>
    decreases s.len(),
{
    if s.len() == 0 {
        s
    } else if s[0].0 == ino {
        without_file(s.skip(1), ino)
    } else {
        seq![s[0]] + without_file(s.skip(1), ino)
    }
}

/// Contents of files, oldest first.
pub struct FileContentCache {
    pub generation: usize,
    pub total_bytes: usize,
    pub entries: Vec<FileEntry>,
}

impl FileContentCache {
    pub open spec fn wf(self) -> bool {
        &&& self.total_bytes == total_len(file_pairs(self.entries@))
        &&& self.total_bytes <= FILE_CACHE_MAX_TOTAL_BYTES
    }

    /// What the cache holds in generation `generation`, oldest first.
    pub open spec fn held(self, generation: usize) -> Seq<(u32, Seq<u8>)> {
        if self.generation == generation {
            file_pairs(self.entries@)
        } else {
            Seq::<(u32, Seq<u8>)>::empty()
        }
    }

    pub fn new() -> (r: Self)
        ensures
            r.wf(),
            r.generation == 0,
            r.held(0) == Seq::<(u32, Seq<u8>)>::empty(),
    {
        let r = FileContentCache { generation: 0, total_bytes: 0, entries: Vec::new() };
        proof {
            assert(file_pairs(r.entries@) =~= Seq::<(u32, Seq<u8>)>::empty());
        }
        r
    }

    /// Empties the cache.
    pub fn invalidate_all_entries(&mut self)
        ensures
            final(self).wf(),
            final(self).generation == old(self).generation,
            final(self).held(old(self).generation) == Seq::<(u32, Seq<u8>)>::empty(),
    {
        self.total_bytes = 0;
        self.entries = Vec::new();
        proof {
            assert(file_pairs(self.entries@) =~= Seq::<(u32, Seq<u8>)>::empty());
        }
    }

    /// Empties the cache where it belongs to another generation.
    pub fn ensure_generation(&mut self, generation: usize)
        requires
            old(self).wf(),
        ensures
            final(self).wf(),
            final(self).generation == generation,
            final(self).held(generation) == old(self).held(generation),
    {
        if self.generation != generation {
            self.generation = generation;
            self.invalidate_all_entries();
        }
    }

    /// The position of the file `ino`.
    fn index_of(&self, ino: u32) -> (r: Option<usize>)
        ensures
            match r {
                Some(i) => i < self.entries@.len() && self.entries@[i as int].ino == ino && file_at(
                    file_pairs(self.entries@),
                    ino,
                ) == Some(self.entries@[i as int].data@),
                None => file_at(file_pairs(self.entries@), ino) is None,
            },
    {
        let mut i: usize = 0;
        let ghost all = file_pairs(self.entries@);
        proof {
            assert(all.skip(0) =~= all);
        }
        while i < self.entries.len()
            invariant
                i <= self.entries@.len(),
                all == file_pairs(self.entries@),
                file_at(all, ino) == file_at(all.skip(i as int), ino),
            decreases self.entries@.len() - i,
        {
            proof {
                assert(all.skip(i as int)[0] == self.entries@[i as int]@);
                assert(all.skip(i as int).skip(1) =~= all.skip(i + 1));
            }
            if self.entries[i].ino == ino {
                return Some(i);
            }
            i = i + 1;
        }
        None
    }

    /// Copies what is held of the file from `offset` on, as much as `buf` takes.
    pub fn get_slice(&mut self, generation: usize, inode_no: u32, offset: usize, buf: &mut [u8]) -> (r:
        Option<usize>)
        requires
            old(self).wf(),
        ensures
            final(self).wf(),
            final(self).generation == generation,
            final(self).held(generation) == old(self).held(generation),
            match file_at(old(self).held(generation), inode_no) {
                None => r is None && final(buf)@ == old(buf)@,
                Some(data) => {
                    let piece = slice_of(data, offset as int, old(buf)@.len() as int);
                    r == Some(piece.len() as usize) && final(buf)@ == piece + old(buf)@.skip(
                        piece.len() as int,
                    )
                },
            },
    {
        self.ensure_generation(generation);
        match self.index_of(inode_no) {
            Some(i) => {
                let data: &Vec<u8> = &self.entries[i].data;
                let left: usize = if offset >= data.len() {
                    0
                } else {
                    data.len() - offset
                };
                let n: usize = if buf.len() < left {
                    buf.len()
                } else {
                    left
                };
                let total: usize = data.len();
                let start: usize = total - left;
                let ghost before = buf@;
                let mut k: usize = 0;
                while k < n
                    invariant
                        k <= n <= before.len() == buf@.len(),
                        start + n <= data@.len() == total,
                        buf@ == data@.subrange(start as int, start + k) + before.skip(k as int),
                    decreases n - k,
                {
                    buf[k] = data[start + k];
                    k = k + 1;
                    proof {
                        assert(buf@ =~= data@.subrange(start as int, start + k) + before.skip(
                            k as int,
                        ));
                    }
                }
                proof {
                    assert(buf@ =~= data@.subrange(start as int, start + n) + before.skip(
                        n as int,
                    ));
                }
                Some(n)
            },
            None => None,
        }
    }

    /// Remembers the contents of a file, unless it is empty, too large or known.
    pub fn insert(&mut self, generation: usize, inode_no: u32, data: Vec<u8>)
        requires
            old(self).wf(),
        ensures
            final(self).wf(),
            final(self).generation == generation,
            final(self).held(generation) == ({
                let h = old(self).held(generation);
                if data@.len() == 0 || data@.len() > FILE_CACHE_MAX_FILE_BYTES || file_at(
                    h,
                    inode_no,
                ) is Some {
                    h
                } else {
                    evicted(h, data@.len()).push((inode_no, data@))
                }
            }),
    {
        self.ensure_generation(generation);
        let size: usize = data.len();
        if size == 0 || size > FILE_CACHE_MAX_FILE_BYTES || size > FILE_CACHE_MAX_TOTAL_BYTES {
            return ;
        }
        if self.index_of(inode_no).is_some() {
            return ;
        }
        let ghost h = file_pairs(self.entries@);
        while self.total_bytes + size > FILE_CACHE_MAX_TOTAL_BYTES && self.entries.len() > 0
            invariant
                self.wf(),
                self.generation == generation,
                0 < size <= FILE_CACHE_MAX_FILE_BYTES,
                evicted(file_pairs(self.entries@), size as nat) == evicted(h, size as nat),
            decreases self.entries@.len(),
        {
            let ghost before = file_pairs(self.entries@);
            let evict: FileEntry = self.entries.remove(0);
            proof {
                assert(file_pairs(self.entries@) =~= before.skip(1));
                assert(before[0] == evict@);
            }
            self.total_bytes = self.total_bytes - evict.data.len();
        }
        let ghost kept = file_pairs(self.entries@);
        let ghost d = data@;
        proof {
            if self.entries@.len() == 0 {
                assert(kept =~= Seq::<(u32, Seq<u8>)>::empty());
            }
            assert(kept == evicted(h, size as nat));
            lemma_total_push(kept, (inode_no, d));
        }
        self.total_bytes = self.total_bytes + size;
        self.entries.push(FileEntry { ino: inode_no, data });
        proof {
            assert(file_pairs(self.entries@) =~= kept.push((inode_no, d)));
        }
    }

    /// Forgets a file.
    pub fn invalidate_inode(&mut self, generation: usize, inode_no: u32)
        requires
            old(self).wf(),
        ensures
            final(self).wf(),
            final(self).generation == generation,
            final(self).held(generation) == without_file(old(self).held(generation), inode_no),
    {
        self.ensure_generation(generation);
        let mut i: usize = 0;
        let ghost h = file_pairs(self.entries@);
        let ghost mut kept = Seq::<(u32, Seq<u8>)>::empty();
        proof {
            assert(h.skip(0) =~= h);
            assert(kept + without_file(h, inode_no) =~= without_file(h, inode_no));
            assert(file_pairs(self.entries@) =~= kept + h);
        }
        while i < self.entries.len()
            invariant
                self.wf(),
                self.generation == generation,
                i <= self.entries@.len(),
                kept.len() == i,
                file_pairs(self.entries@) == kept + file_pairs(self.entries@).skip(i as int),
                without_file(h, inode_no) == kept + without_file(
                    file_pairs(self.entries@).skip(i as int),
                    inode_no,
                ),
            decreases self.entries@.len() - i,
        {
            let ghost now = file_pairs(self.entries@);
            let ghost rest = now.skip(i as int);
            proof {
                assert(rest[0] == self.entries@[i as int]@);
                assert(rest.skip(1) =~= now.skip(i + 1));
            }
            if self.entries[i].ino == inode_no {
                let gone: FileEntry = self.entries.remove(i);
                proof {
                    assert(now == kept + rest);
                    assert forall|j: int| 0 <= j < self.entries@.len() implies file_pairs(
                        self.entries@,
                    )[j] == (kept + rest.skip(1))[j] by {
                        assert((kept + rest)[j] == now[j]);
                        if j >= i {
                            assert((kept + rest)[j + 1] == now[j + 1]);
                        }
                    }
                    assert(file_pairs(self.entries@) =~= kept + rest.skip(1));
                    assert(file_pairs(self.entries@).skip(i as int) =~= rest.skip(1));
                    lemma_total_remove(kept, rest);
                }
                self.total_bytes = self.total_bytes - gone.data.len();
            } else {
                proof {
                    let e = rest[0];
                    let tail = without_file(rest.skip(1), inode_no);
                    assert(kept + (seq![e] + tail) =~= kept.push(e) + tail);
                    assert(kept + rest =~= kept.push(e) + rest.skip(1));
                    kept = kept.push(e);
                }
                i = i + 1;
            }
        }
        proof {
            assert(file_pairs(self.entries@).skip(i as int) =~= Seq::<(u32, Seq<u8>)>::empty());
            assert(kept + Seq::<(u32, Seq<u8>)>::empty() =~= kept);
        }
    }
}

proof fn lemma_total_push(s: Seq<(u32, Seq<u8>)>, e: (u32, Seq<u8>))
    ensures
        total_len(s.push(e)) == total_len(s) + e.1.len(),
    decreases s.len(),
{
    if s.len() == 0 {
        assert(s.push(e).skip(1) =~= Seq::<(u32, Seq<u8>)>::empty());
        assert(total_len(s.push(e)) == e.1.len() + total_len(s.push(e).skip(1)));
    } else {
        lemma_total_push(s.skip(1), e);
        assert(s.push(e).skip(1) =~= s.skip(1).push(e));
    }
}

proof fn lemma_total_remove(a: Seq<(u32, Seq<u8>)>, b: Seq<(u32, Seq<u8>)>)
    requires
        b.len() > 0,
    ensures
        total_len(a + b) == total_len(a + b.skip(1)) + b[0].1.len(),
    decreases a.len(),
{
    if a.len() == 0 {
        assert(a + b =~= b);
        assert(a + b.skip(1) =~= b.skip(1));
    } else {
        lemma_total_remove(a.skip(1), b);
        assert((a + b).skip(1) =~= a.skip(1) + b);
        assert((a + b.skip(1)).skip(1) =~= a.skip(1) + b.skip(1));
    }
}

/// The names in one directory, and the first slot to try for a new one.
pub struct DirIndexEntry {
    pub names: NameMap,
    pub next_free_slot_hint: usize,
}

/// What is known of a directory.
pub struct IndexView {
    pub names: Map<Seq<u8>, u32>,
    pub hint: usize,
}

impl View for DirIndexEntry {
    type V = IndexView;

    open spec fn view(&self) -> IndexView {
        IndexView { names: self.names@, hint: self.next_free_slot_hint }
    }
}

impl DirIndexEntry {
    /// A copy of the entry.
    pub fn copy(&self) -> (r: DirIndexEntry)
        ensures
            r@ == self@,
    {
        DirIndexEntry {
            names: self.names.copy(),
            next_free_slot_hint: self.next_free_slot_hint,
        }
    }
}

pub struct DirIndexSlot {
    pub parent: u32,
    pub entry: DirIndexEntry,
}

impl View for DirIndexSlot {
    type V = (u32, IndexView);

    open spec fn view(&self) -> (u32, IndexView) {
        (self.parent, self.entry@)
    }
}

pub open spec fn dir_pairs(v: Seq<DirIndexSlot>) -> Seq<(u32, IndexView)> {
    v.map_values(|e: DirIndexSlot| e@)
}

/// The position of the directory `parent`, or the length of `s`.
pub open spec fn dir_pos(s: Seq<(u32, IndexView)>, parent: u32) -> int
    decreases s.len(),
{
    if s.len() == 0 || s[0].0 == parent {
        0
    } else {
        1 + dir_pos(s.skip(1), parent)
    }
}

/// What is known of the directory `parent`.
pub open spec fn dir_at(s: Seq<(u32, IndexView)>, parent: u32) -> Option<IndexView> {
    if dir_pos(s, parent) < s.len() {
        Some(s[dir_pos(s, parent)].1)
    } else {
        None
    }
}

pub proof fn lemma_dir_pos(s: Seq<(u32, IndexView)>, parent: u32, k: int)
    requires
        0 <= k <= s.len(),
        forall|i: int| 0 <= i < k ==> (#[trigger] s[i]).0 != parent,
        k == s.len() || s[k].0 == parent,
    ensures
        dir_pos(s, parent) == k,
    decreases s.len(),
{
    if k > 0 {
        assert(s[0].0 != parent);
        assert forall|i: int| 0 <= i < k - 1 implies (#[trigger] s.skip(1)[i]).0 != parent by {
            assert(s.skip(1)[i] == s[i + 1]);
        }
        lemma_dir_pos(s.skip(1), parent, k - 1);
    }
}

/// The names in directories, oldest first.
pub struct DirIndexCache {
    pub generation: usize,
    pub entries: Vec<DirIndexSlot>,
}

impl DirIndexCache {
    pub open spec fn wf(self) -> bool {
        self.entries@.len() <= DIR_INDEX_CACHE_CAPACITY
    }

    /// What the cache holds in generation `generation`, oldest first.
    pub open spec fn held(self, generation: usize) -> Seq<(u32, IndexView)> {
        if self.generation == generation {
            dir_pairs(self.entries@)
        } else {
            Seq::<(u32, IndexView)>::empty()
        }
    }

    pub fn new() -> (r: Self)
        ensures
            r.wf(),
            r.generation == 0,
            r.held(0) == Seq::<(u32, IndexView)>::empty(),
    {
        let r = DirIndexCache { generation: 0, entries: Vec::new() };
        proof {
            assert(dir_pairs(r.entries@) =~= Seq::<(u32, IndexView)>::empty());
        }
        r
    }

    /// Empties the cache where it belongs to another generation.
    pub fn ensure_generation(&mut self, generation: usize)
        requires
            old(self).wf(),
        ensures
            final(self).wf(),
            final(self).generation == generation,
            final(self).held(generation) == old(self).held(generation),
    {
        if self.generation != generation {
            self.generation = generation;
            self.entries = Vec::new();
            proof {
                assert(dir_pairs(self.entries@) =~= Seq::<(u32, IndexView)>::empty());
            }
        }
    }

    /// The position of the directory `parent`, or the number of directories.
    fn index_of(&self, parent: u32) -> (r: usize)
        ensures
            r == dir_pos(dir_pairs(self.entries@), parent),
            r <= self.entries@.len(),
            r < self.entries@.len() ==> self.entries@[r as int].parent == parent,
    {
        let mut i: usize = 0;
        let ghost all = dir_pairs(self.entries@);
        while i < self.entries.len()
            invariant
                i <= self.entries@.len(),
                all == dir_pairs(self.entries@),
                forall|j: int| 0 <= j < i ==> (#[trigger] all[j]).0 != parent,
            decreases self.entries@.len() - i,
        {
            proof {
                assert(all[i as int] == self.entries@[i as int]@);
            }
            if self.entries[i].parent == parent {
                proof {
                    lemma_dir_pos(all, parent, i as int);
                }
                return i;
            }
            i = i + 1;
        }
        proof {
            lemma_dir_pos(all, parent, i as int);
        }
        i
    }

    /// What is known of the directory `parent_ino`.
    pub fn get(&mut self, generation: usize, parent_ino: u32) -> (r: Option<DirIndexEntry>)
        requires
            old(self).wf(),
        ensures
            final(self).wf(),
            final(self).generation == generation,
            final(self).held(generation) == old(self).held(generation),
            match r {
                Some(e) => dir_at(old(self).held(generation), parent_ino) == Some(e@),
                None => dir_at(old(self).held(generation), parent_ino) is None,
            },
    {
        self.ensure_generation(generation);
        let i: usize = self.index_of(parent_ino);
        if i < self.entries.len() {
            Some(self.entries[i].entry.copy())
        } else {
            None
        }
    }

    /// The inode of `name` in the directory `parent_ino`, as far as it is known.
    pub fn lookup(&mut self, generation: usize, parent_ino: u32, name: &[u8]) -> (r: Option<u32>)
        requires
            old(self).wf(),
        ensures
            final(self).wf(),
            final(self).generation == generation,
            final(self).held(generation) == old(self).held(generation),
            r == match dir_at(old(self).held(generation), parent_ino) {
                Some(e) => at_key(e.names, name@),
                None => None,
            },
    {
        self.ensure_generation(generation);
        let i: usize = self.index_of(parent_ino);
        if i < self.entries.len() {
            self.entries[i].entry.names.get(name)
        } else {
            None
        }
    }

    /// Remembers a directory, in the place of what was known of it; the oldest
    /// directory goes where the cache is full.
    pub fn insert(&mut self, generation: usize, parent_ino: u32, entry: DirIndexEntry)
        requires
            old(self).wf(),
        ensures
            final(self).wf(),
            final(self).generation == generation,
            final(self).held(generation) == ({
                let h = old(self).held(generation);
                let p = dir_pos(h, parent_ino);
                if p < h.len() {
                    h.update(p, (parent_ino, entry@))
                } else if h.len() < DIR_INDEX_CACHE_CAPACITY {
                    h.push((parent_ino, entry@))
                } else {
                    h.push((parent_ino, entry@)).skip(1)
                }
            }),
    {
        self.ensure_generation(generation);
        let ghost h = dir_pairs(self.entries@);
        let ghost e = entry@;
        let i: usize = self.index_of(parent_ino);
        if i < self.entries.len() {
            self.entries[i] = DirIndexSlot { parent: parent_ino, entry };
            proof {
                assert(dir_pairs(self.entries@) =~= h.update(i as int, (parent_ino, e)));
            }
        } else {
            self.entries.push(DirIndexSlot { parent: parent_ino, entry });
            proof {
                assert(dir_pairs(self.entries@) =~= h.push((parent_ino, e)));
            }
            if self.entries.len() > DIR_INDEX_CACHE_CAPACITY {
                let ghost full = self.entries@;
                self.entries.remove(0);
                proof {
                    assert(dir_pairs(self.entries@) =~= dir_pairs(full).skip(1));
                }
            }
        }
    }

    /// Replaces what is known of one directory.
    fn replace(&mut self, i: usize, parent_ino: u32, entry: DirIndexEntry)
        requires
            old(self).wf(),
            i < old(self).entries@.len(),
        ensures
            final(self).wf(),
            final(self).generation == old(self).generation,
            dir_pairs(final(self).entries@) == dir_pairs(old(self).entries@).update(
                i as int,
                (parent_ino, entry@),
            ),
    {
        let ghost h = dir_pairs(self.entries@);
        let ghost e = entry@;
        self.entries[i] = DirIndexSlot { parent: parent_ino, entry };
        proof {
            assert(dir_pairs(self.entries@) =~= h.update(i as int, (parent_ino, e)));
        }
    }

    /// Adds a name to a directory that is known.
    pub fn update_after_insert(
        &mut self,
        generation: usize,
        parent_ino: u32,
        name: Vec<u8>,
        inode_no: u32,
        next_free_slot_hint: usize,
    )
        requires
            old(self).wf(),
        ensures
            final(self).wf(),
            final(self).generation == generation,
            final(self).held(generation) == with_name(
                old(self).held(generation),
                parent_ino,
                name@,
                inode_no,
                next_free_slot_hint,
            ),
    {
        self.ensure_generation(generation);
        let i: usize = self.index_of(parent_ino);
        if i < self.entries.len() {
            let mut names: NameMap = self.entries[i].entry.names.copy();
            names.insert(name, inode_no);
            self.replace(i, parent_ino, DirIndexEntry { names, next_free_slot_hint });
        }
    }

    /// Takes a name out of a directory that is known.
    pub fn remove(&mut self, generation: usize, parent_ino: u32, name: &[u8])
        requires
            old(self).wf(),
        ensures
            final(self).wf(),
            final(self).generation == generation,
            final(self).held(generation) == without_name(
                old(self).held(generation),
                parent_ino,
                name@,
            ),
    {
        self.ensure_generation(generation);
        let i: usize = self.index_of(parent_ino);
        if i < self.entries.len() {
            let mut names: NameMap = self.entries[i].entry.names.copy();
            names.remove(name);
            self.replace(i, parent_ino, DirIndexEntry { names, next_free_slot_hint: 0 });
        }
    }

    /// Moves a name between directories that are known.
    pub fn rename(
        &mut self,
        generation: usize,
        old_parent_ino: u32,
        old_name: &[u8],
        new_parent_ino: u32,
        new_name: Vec<u8>,
        inode_no: u32,
    )
        requires
            old(self).wf(),
        ensures
            final(self).wf(),
            final(self).generation == generation,
            final(self).held(generation) == with_name(
                without_name(old(self).held(generation), old_parent_ino, old_name@),
                new_parent_ino,
                new_name@,
                inode_no,
                0,
            ),
    {
        self.remove(generation, old_parent_ino, old_name);
        self.update_after_insert(generation, new_parent_ino, new_name, inode_no, 0);
    }
}

/// `s` after a name was added to the directory `parent`, where it is known.
pub open spec fn with_name(
    s: Seq<(u32, IndexView)>,
    parent: u32,
    name: Seq<u8>,
    ino: u32,
    hint: usize,
) -> Seq<(u32, IndexView)> {
    match dir_at(s, parent) {
        Some(e) => s.update(
            dir_pos(s, parent),
            (parent, IndexView { names: e.names.insert(name, ino), hint }),
        ),
        None => s,
    }
}

/// `s` after a name was taken out of the directory `parent`, where it is known.
pub open spec fn without_name(s: Seq<(u32, IndexView)>, parent: u32, name: Seq<u8>) -> Seq<
    (u32, IndexView),
> {
    match dir_at(s, parent) {
        Some(e) => s.update(
            dir_pos(s, parent),
            (parent, IndexView { names: e.names.remove(name), hint: 0 }),
        ),
        None => s,
    }
}

} // verus!
