//! What a mounted volume remembers, in its current generation.

use crate::twilight_fs::cache::{
    as_map, at_key, dir_at, dir_pos, evicted, file_at, slice_of, with_name, without_file, without_name,
    without_prefix,
    DirIndexEntry, IndexView, DIR_INDEX_CACHE_CAPACITY, FILE_CACHE_MAX_FILE_BYTES,
    PATH_LOOKUP_CACHE_CAPACITY,
};
use crate::twilight_fs::fs::TwilightFsShared;
use vstd::prelude::*;

verus! {

/// What is remembered: paths, file contents and directories, oldest first.
#[verifier::ext_equal]
pub struct CacheView {
    pub paths: Seq<(Seq<u8>, u32)>,
    pub files: Seq<(u32, Seq<u8>)>,
    pub dirs: Seq<(u32, IndexView)>,
}

impl View for TwilightFsShared {
    type V = CacheView;

    open spec fn view(&self) -> CacheView {
        CacheView {
            paths: self.lookup_cache.held(self.generation),
            files: self.file_cache.held(self.generation),
            dirs: self.dir_index_cache.held(self.generation),
        }
    }
}

/// `paths` after `path` was found to be `ino`.
pub open spec fn path_added(paths: Seq<(Seq<u8>, u32)>, path: Seq<u8>, ino: u32) -> Seq<
    (Seq<u8>, u32),
> {
    if as_map(paths).dom().contains(path) {
        paths
    } else if paths.len() < PATH_LOOKUP_CACHE_CAPACITY {
        paths.push((path, ino))
    } else {
        paths.push((path, ino)).skip(1)
    }
}

/// `dirs` after the directory `parent` was read.
pub open spec fn dir_set(dirs: Seq<(u32, IndexView)>, parent: u32, entry: IndexView) -> Seq<
    (u32, IndexView),
> {
    let p = dir_pos(dirs, parent);
    if p < dirs.len() {
        dirs.update(p, (parent, entry))
    } else if dirs.len() < DIR_INDEX_CACHE_CAPACITY {
        dirs.push((parent, entry))
    } else {
        dirs.push((parent, entry)).skip(1)
    }
}

impl TwilightFsShared {
    pub fn generation(&self) -> (r: usize)
        ensures
            r == self.generation,
    {
        self.generation
    }

    /// Forgets the contents of a file.
    pub fn invalidate_file_inode(&mut self, inode_no: u32)
        requires
            old(self).wf(),
        ensures
            final(self).wf(),
            final(self).generation == old(self).generation,
            final(self)@ == (CacheView { files: without_file(old(self)@.files, inode_no), ..old(self)@ }),
    {
        self.file_cache.invalidate_inode(self.generation, inode_no);
    }

    /// What `path` is known to be.
    pub fn lookup_cached(&mut self, path: &[u8]) -> (r: Option<u32>)
        requires
            old(self).wf(),
        ensures
            final(self).wf(),
            final(self).generation == old(self).generation,
            final(self)@ == old(self)@,
            r == at_key(as_map(old(self)@.paths), path@),
    {
        self.lookup_cache.get(self.generation, path)
    }

    /// Remembers what `path` is.
    pub fn insert_lookup(&mut self, path: Vec<u8>, ino: u32)
        requires
            old(self).wf(),
        ensures
            final(self).wf(),
            final(self).generation == old(self).generation,
            final(self)@ == (CacheView { paths: path_added(old(self)@.paths, path@, ino), ..old(self)@ }),
    {
        self.lookup_cache.insert(self.generation, path, ino);
    }

    /// Forgets what is at or below `prefix`.
    pub fn remove_lookup_prefix(&mut self, prefix: &[u8])
        requires
            old(self).wf(),
        ensures
            final(self).wf(),
            final(self).generation == old(self).generation,
            final(self)@ == (CacheView { paths: without_prefix(old(self)@.paths, prefix@), ..old(self)@ }),
    {
        self.lookup_cache.remove_prefix(self.generation, prefix);
    }

    /// Copies what is known of a file from `offset` on into `buf`.
    pub fn read_cached_file_slice(&mut self, inode_no: u32, offset: usize, buf: &mut [u8]) -> (r:
        Option<usize>)
        requires
            old(self).wf(),
        ensures
            final(self).wf(),
            final(self).generation == old(self).generation,
            final(self)@ == old(self)@,
            match file_at(old(self)@.files, inode_no) {
                None => r is None && final(buf)@ == old(buf)@,
                Some(data) => {
                    let piece = slice_of(data, offset as int, old(buf)@.len() as int);
                    r == Some(piece.len() as usize) && final(buf)@ == piece + old(buf)@.skip(
                        piece.len() as int,
                    )
                },
            },
    {
        self.file_cache.get_slice(self.generation, inode_no, offset, buf)
    }

    /// Remembers the contents of a file.
    pub fn insert_file_cache(&mut self, inode_no: u32, data: Vec<u8>)
        requires
            old(self).wf(),
        ensures
            final(self).wf(),
            final(self).generation == old(self).generation,
            final(self)@.paths == old(self)@.paths,
            final(self)@.dirs == old(self)@.dirs,
            final(self)@.files == (if data@.len() == 0 || data@.len() > FILE_CACHE_MAX_FILE_BYTES
                || file_at(old(self)@.files, inode_no) is Some {
                old(self)@.files
            } else {
                evicted(old(self)@.files, data@.len()).push((inode_no, data@))
            }),
    {
        self.file_cache.insert(self.generation, inode_no, data);
    }

    /// What is known of a directory.
    pub fn dir_index_get(&mut self, parent_ino: u32) -> (r: Option<DirIndexEntry>)
        requires
            old(self).wf(),
        ensures
            final(self).wf(),
            final(self).generation == old(self).generation,
            final(self).lookup_cache == old(self).lookup_cache,
            final(self)@ == old(self)@,
            match r {
                Some(e) => dir_at(old(self)@.dirs, parent_ino) == Some(e@),
                None => dir_at(old(self)@.dirs, parent_ino) is None,
            },
    {
        self.dir_index_cache.get(self.generation, parent_ino)
    }

    /// What `name` is known to be in a directory.
    pub fn dir_index_lookup(&mut self, parent_ino: u32, name: &[u8]) -> (r: Option<u32>)
        requires
            old(self).wf(),
        ensures
            final(self).wf(),
            final(self).generation == old(self).generation,
            final(self)@ == old(self)@,
            r == match dir_at(old(self)@.dirs, parent_ino) {
                Some(e) => at_key(e.names, name@),
                None => None,
            },
    {
        self.dir_index_cache.lookup(self.generation, parent_ino, name)
    }

    /// Remembers a directory.
    pub fn dir_index_set(&mut self, parent_ino: u32, entry: DirIndexEntry)
        requires
            old(self).wf(),
        ensures
            final(self).wf(),
            final(self).generation == old(self).generation,
            final(self)@ == (CacheView { dirs: dir_set(old(self)@.dirs, parent_ino, entry@), ..old(self)@ }),
    {
        self.dir_index_cache.insert(self.generation, parent_ino, entry);
    }

    /// Adds a name to a directory that is known.
    pub fn dir_index_update_after_insert(
        &mut self,
        parent_ino: u32,
        name: Vec<u8>,
        inode_no: u32,
        next_free_slot_hint: usize,
    )
        requires
            old(self).wf(),
        ensures
            final(self).wf(),
            final(self).generation == old(self).generation,
            final(self).lookup_cache == old(self).lookup_cache,
            final(self).dir_index_cache.generation == old(self).generation,
            final(self)@ == (CacheView {
                dirs: with_name(old(self)@.dirs, parent_ino, name@, inode_no, next_free_slot_hint),
                ..old(self)@
            }),
    {
        self.dir_index_cache.update_after_insert(
            self.generation,
            parent_ino,
            name,
            inode_no,
            next_free_slot_hint,
        );
    }

    /// Takes a name out of a directory that is known.
    pub fn dir_index_remove(&mut self, parent_ino: u32, name: &[u8])
        requires
            old(self).wf(),
        ensures
            final(self).wf(),
            final(self).generation == old(self).generation,
            final(self)@ == (CacheView {
                dirs: without_name(old(self)@.dirs, parent_ino, name@),
                ..old(self)@
            }),
    {
        self.dir_index_cache.remove(self.generation, parent_ino, name);
    }

    /// Moves a name between directories that are known.
    pub fn dir_index_rename(
        &mut self,
        old_parent_ino: u32,
        old_name: &[u8],
        new_parent_ino: u32,
        new_name: Vec<u8>,
        inode_no: u32,
    )
        requires
            old(self).wf(),
        ensures
            final(self).wf(),
            final(self).generation == old(self).generation,
            final(self)@ == (CacheView {
                dirs: with_name(
                    without_name(old(self)@.dirs, old_parent_ino, old_name@),
                    new_parent_ino,
                    new_name@,
                    inode_no,
                    0,
                ),
                ..old(self)@
            }),
    {
        self.dir_index_cache.rename(
            self.generation,
            old_parent_ino,
            old_name,
            new_parent_ino,
            new_name,
            inode_no,
        );
    }
}

} // verus!
