//! Files, directories and mount points as every file system presents them.

use crate::bytes::{cut, has_prefix, same, starts_with, to_vec};
use crate::paths::{is_root, SLASH};
use vstd::prelude::*;

verus! {

/// What a node is.
#[derive(Debug, Clone, Copy, PartialEq, Eq, Structural)]
pub enum FileType {
    File,
    Dir,
    CharDevice,
    BlockDevice,
    Socket,
}

/// Why an operation on a path failed.
#[derive(Debug, Clone, Copy, PartialEq, Eq, Structural)]
pub enum VfsError {
    NotFound,
    NotDir,
    AlreadyExists,
    Io,
    Invalid,
    ReadOnly,
}

/// The attributes of a node.
pub struct Metadata {
    pub ino: u32,
    pub uid: u32,
    pub gid: u32,
    pub name: Vec<u8>,
    pub file_type: FileType,
    pub mode: u16,
    pub size: usize,
    pub created_time: u32,
    pub access_time: u32,
    pub modified_time: u32,
}

/// What the attributes of a node say.
pub struct MetaView {
    pub ino: u32,
    pub uid: u32,
    pub gid: u32,
    pub name: Seq<u8>,
    pub file_type: FileType,
    pub mode: u16,
    pub size: usize,
    pub created_time: u32,
    pub access_time: u32,
    pub modified_time: u32,
}

impl View for Metadata {
    type V = MetaView;

    open spec fn view(&self) -> MetaView {
        MetaView {
            ino: self.ino,
            uid: self.uid,
            gid: self.gid,
            name: self.name@,
            file_type: self.file_type,
            mode: self.mode,
            size: self.size,
            created_time: self.created_time,
            access_time: self.access_time,
            modified_time: self.modified_time,
        }
    }
}

pub open spec fn meta_views(v: Seq<Metadata>) -> Seq<MetaView> {
    v.map_values(|m: Metadata| m@)
}

/// Totals of a file system.
#[derive(Debug, Clone, Copy, PartialEq, Eq, Structural)]
pub struct FsStats {
    pub fs_type: u64,
    pub block_size: u64,
    pub blocks: u64,
    pub blocks_free: u64,
    pub blocks_available: u64,
    pub files: u64,
    pub files_free: u64,
    pub name_length: u64,
    pub fragment_size: u64,
    pub flags: u64,
}

/// What is known of a node that belongs to the first user and has no times.
pub open spec fn plain_meta(ino: u32, name: Seq<u8>, file_type: FileType, mode: u16, size: usize) -> MetaView {
    MetaView {
        ino,
        uid: 0,
        gid: 0,
        name,
        file_type,
        mode,
        size,
        created_time: 0,
        access_time: 0,
        modified_time: 0,
    }
}

/// What is known of a directory that is made up.
pub open spec fn dir_meta(ino: u32, name: Seq<u8>) -> MetaView {
    plain_meta(ino, name, FileType::Dir, 0o040755, 0)
}

/// What is known of a character device.
pub open spec fn chr_meta(ino: u32, name: Seq<u8>) -> MetaView {
    plain_meta(ino, name, FileType::CharDevice, 0o020666, 0)
}

/// What is known of a block device of `size` bytes.
pub open spec fn blk_meta(ino: u32, name: Seq<u8>, size: usize) -> MetaView {
    plain_meta(ino, name, FileType::BlockDevice, 0o060660, size)
}

impl Metadata {
    /// The attributes of a directory that a kernel file system makes up.
    pub fn dir(ino: u32, name: &[u8]) -> (r: Self)
        ensures
            r@ == dir_meta(ino, name@),
    {
        Metadata {
            ino,
            uid: 0,
            gid: 0,
            name: to_vec(name),
            file_type: FileType::Dir,
            mode: 0o040755,
            size: 0,
            created_time: 0,
            access_time: 0,
            modified_time: 0,
        }
    }

    /// The attributes of a character device.
    pub fn chr(ino: u32, name: &[u8]) -> (r: Self)
        ensures
            r@ == chr_meta(ino, name@),
    {
        Metadata {
            ino,
            uid: 0,
            gid: 0,
            name: to_vec(name),
            file_type: FileType::CharDevice,
            mode: 0o020666,
            size: 0,
            created_time: 0,
            access_time: 0,
            modified_time: 0,
        }
    }

    /// The attributes of a block device.
    pub fn blk(ino: u32, name: &[u8], size: usize) -> (r: Self)
        ensures
            r@ == blk_meta(ino, name@, size),
    {
        Metadata {
            ino,
            uid: 0,
            gid: 0,
            name: to_vec(name),
            file_type: FileType::BlockDevice,
            mode: 0o060660,
            size,
            created_time: 0,
            access_time: 0,
            modified_time: 0,
        }
    }
}

impl Default for FsStats {
    fn default() -> (r: Self)
        ensures
            r == (FsStats {
                fs_type: 0,
                block_size: 0,
                blocks: 0,
                blocks_free: 0,
                blocks_available: 0,
                files: 0,
                files_free: 0,
                name_length: 0,
                fragment_size: 0,
                flags: 0,
            }),
    {
        FsStats {
            fs_type: 0,
            block_size: 0,
            blocks: 0,
            blocks_free: 0,
            blocks_available: 0,
            files: 0,
            files_free: 0,
            name_length: 0,
            fragment_size: 0,
            flags: 0,
        }
    }
}

/// The totals of a file system that keeps none.
pub fn default_stats() -> (r: FsStats)
    ensures
        r == (FsStats {
            fs_type: 0,
            block_size: 4096,
            blocks: 0,
            blocks_free: 0,
            blocks_available: 0,
            files: 0,
            files_free: 0,
            name_length: 255,
            fragment_size: 4096,
            flags: 0,
        }),
{
    let mut s: FsStats = FsStats::default();
    s.block_size = 4096;
    s.name_length = 255;
    s.fragment_size = 4096;
    s
}

/// A file system `fs`, known by its number, at the paths that start with `prefix`.
pub struct MountPoint {
    pub prefix: Vec<u8>,
    pub fs: usize,
    pub fs_type: &'static str,
    pub source: &'static str,
}

/// What a mount point says.
pub struct MountView {
    pub prefix: Seq<u8>,
    pub fs: usize,
    pub fs_type: &'static str,
    pub source: &'static str,
}

impl View for MountPoint {
    type V = MountView;

    open spec fn view(&self) -> MountView {
        MountView { prefix: self.prefix@, fs: self.fs, fs_type: self.fs_type, source: self.source }
    }
}

/// The mount points, those with the longest prefixes first.
pub struct Vfs {
    pub mount_points: Vec<MountPoint>,
}

impl View for Vfs {
    type V = Seq<MountView>;

    open spec fn view(&self) -> Seq<MountView> {
        self.mount_points@.map_values(|m: MountPoint| m@)
    }
}

/// Whether no prefix is shorter than a later one.
pub open spec fn longest_first(s: Seq<MountView>) -> bool {
    forall|i: int, j: int|
        0 <= i < j < s.len() ==> (#[trigger] s[i]).prefix.len() >= (#[trigger] s[j]).prefix.len()
}

/// `s` with `m` behind all prefixes that are as long.
pub open spec fn mounted(s: Seq<MountView>, m: MountView) -> Seq<MountView>
    decreases s.len(),
{
    if s.len() > 0 && s.last().prefix.len() < m.prefix.len() {
        mounted(s.drop_last(), m).push(s.last())
    } else {
        s.push(m)
    }
}

/// The first mount point at `prefix`, or the number of all.
pub open spec fn mount_pos(s: Seq<MountView>, prefix: Seq<u8>) -> int
    decreases s.len(),
{
    if s.len() == 0 || s[0].prefix == prefix {
        0
    } else {
        1 + mount_pos(s.skip(1), prefix)
    }
}

/// Whether a path belongs to a mount point.
pub open spec fn serves_path(m: MountView, path: Seq<u8>) -> bool {
    has_prefix(path, m.prefix) || path == seq![46u8] && m.prefix == seq![SLASH]
}

/// What is left of a path below a prefix.
pub open spec fn below(path: Seq<u8>, prefix: Seq<u8>) -> Seq<u8> {
    if path.len() == prefix.len() {
        seq![SLASH]
    } else {
        path.skip(prefix.len() as int)
    }
}

/// The file system that a path belongs to and the path there.
pub open spec fn routed(s: Seq<MountView>, path: Seq<u8>) -> Option<(Seq<u8>, usize)>
    decreases s.len(),
{
    if s.len() == 0 {
        None
    } else if serves_path(s[0], path) {
        Some((below(path, s[0].prefix), s[0].fs))
    } else {
        routed(s.skip(1), path)
    }
}

impl Vfs {
    pub open spec fn wf(&self) -> bool {
        longest_first(self@)
    }

    pub fn new() -> (r: Self)
        ensures
            r.wf(),
            r@ == Seq::<MountView>::empty(),
    {
        let r = Vfs { mount_points: Vec::new() };
        proof {
            assert(r@ =~= Seq::<MountView>::empty());
        }
        r
    }

    /// Mounts the file system `fs` at `prefix`.
    pub fn mount(&mut self, prefix: &[u8], fs: usize, fs_type: &'static str, source: &'static str)
        requires
            old(self).wf(),
        ensures
            final(self).wf(),
            final(self)@ == mounted(
                old(self)@,
                MountView { prefix: prefix@, fs, fs_type, source },
            ),
    {
        let m: MountPoint = MountPoint { prefix: to_vec(prefix), fs, fs_type, source };
        let ghost mv = m@;
        let ghost s = self@;
        let mut i: usize = self.mount_points.len();
        proof {
            assert(s.take(i as int) =~= s);
            assert(mounted(s, mv) =~= mounted(s.take(i as int), mv) + s.skip(i as int));
        }
        while i > 0 && self.mount_points[i - 1].prefix.len() < prefix.len()
            invariant
                i <= s.len(),
                s == self@,
                mv.prefix == prefix@,
                mounted(s, mv) == mounted(s.take(i as int), mv) + s.skip(i as int),
            decreases i,
        {
            proof {
                assert(s.take(i as int).drop_last() =~= s.take(i - 1));
                assert(s.take(i as int).last() == s[i - 1]);
                assert(mounted(s.take(i - 1), mv).push(s[i - 1]) + s.skip(i as int) =~= mounted(
                    s.take(i - 1),
                    mv,
                ) + s.skip(i - 1));
            }
            i = i - 1;
        }
        self.mount_points.insert(i, m);
        proof {
            if i > 0 {
                assert(s.take(i as int).last() == s[i - 1]);
            }
            assert(mounted(s.take(i as int), mv) == s.take(i as int).push(mv));
            assert(self@ =~= s.insert(i as int, mv));
            assert(self@ =~= s.take(i as int).push(mv) + s.skip(i as int));
            lemma_mounted_sorted(s, mv);
        }
    }

    /// Unmounts what is mounted at `prefix`.
    pub fn unmount(&mut self, prefix: &[u8]) -> (r: bool)
        requires
            old(self).wf(),
        ensures
            final(self).wf(),
            r == (mount_pos(old(self)@, prefix@) < old(self)@.len()),
            final(self)@ == if r {
                old(self)@.remove(mount_pos(old(self)@, prefix@))
            } else {
                old(self)@
            },
    {
        let ghost s = self@;
        let mut i: usize = 0;
        while i < self.mount_points.len()
            invariant
                i <= s.len(),
                s == self@,
                s == old(self)@,
                self.wf(),
                forall|k: int| 0 <= k < i ==> (#[trigger] s[k]).prefix != prefix@,
            decreases s.len() - i,
        {
            if same(&self.mount_points[i].prefix, prefix) {
                proof {
                    lemma_mount_pos(s, prefix@, i as int);
                }
                self.mount_points.remove(i);
                proof {
                    assert(self@ =~= s.remove(i as int));
                }
                return true;
            }
            i = i + 1;
        }
        proof {
            lemma_mount_pos(s, prefix@, s.len() as int);
        }
        false
    }

    /// The file system that a path belongs to and the path there.
    pub fn route(&self, path: &[u8]) -> (r: Option<(Vec<u8>, usize)>)
        ensures
            match r {
                Some((rel, fs)) => routed(self@, path@) == Some((rel@, fs)),
                None => routed(self@, path@) is None,
            },
    {
        let ghost s = self@;
        let mut i: usize = 0;
        proof {
            assert(s.skip(0) =~= s);
        }
        let dot: bool = path.len() == 1 && path[0] == 46;
        proof {
            if dot {
                assert(path@ =~= seq![46u8]);
            }
        }
        while i < self.mount_points.len()
            invariant
                s == self@,
                i <= s.len(),
                dot == (path@ == seq![46u8]),
                routed(s, path@) == routed(s.skip(i as int), path@),
            decreases s.len() - i,
        {
            proof {
                assert(s.skip(i as int)[0] == s[i as int]);
                assert(s.skip(i as int).skip(1) =~= s.skip(i + 1));
                assert(s[i as int] == self.mount_points@[i as int]@);
            }
            let prefix: &Vec<u8> = &self.mount_points[i].prefix;
            if starts_with(path, prefix) || (dot && is_root(prefix)) {
                let mut rel: Vec<u8> = cut(path, prefix.len(), path.len());
                proof {
                    assert(rel@ =~= path@.skip(prefix@.len() as int));
                }
                if rel.len() == 0 {
                    rel.push(SLASH);
                    proof {
                        assert(rel@ =~= seq![SLASH]);
                    }
                }
                return Some((rel, self.mount_points[i].fs));
            }
            i = i + 1;
        }
        None
    }

    /// The file system that renames, to which both paths have to belong, and the paths
    /// there.
    pub fn rename(&self, old_path: &[u8], new_path: &[u8]) -> (r: Result<
        (Vec<u8>, Vec<u8>, usize),
        (),
    >)
        ensures
            match (routed(self@, old_path@), routed(self@, new_path@)) {
                (Some((a, f)), Some((b, g))) => match r {
                    Ok((x, y, fs)) => f == g && fs == f && x@ == a && y@ == b,
                    Err(_) => f != g,
                },
                _ => r is Err,
            },
    {
        match (self.route(old_path), self.route(new_path)) {
            (Some((a, f)), Some((b, g))) => {
                if f == g {
                    Ok((a, b, f))
                } else {
                    Err(())
                }
            },
            _ => Err(()),
        }
    }

    /// The file system that a path belongs to and the path there, or an error.
    fn served(&self, path: &[u8]) -> (r: Result<(Vec<u8>, usize), ()>)
        ensures
            match r {
                Ok((rel, fs)) => routed(self@, path@) == Some((rel@, fs)),
                Err(_) => routed(self@, path@) is None,
            },
    {
        match self.route(path) {
            Some(x) => Ok(x),
            None => Err(()),
        }
    }

    /// The file system that opens a path, and the path there.
    pub fn open(&self, path: &[u8]) -> (r: Result<(Vec<u8>, usize), ()>)
        ensures
            match r {
                Ok((rel, fs)) => routed(self@, path@) == Some((rel@, fs)),
                Err(_) => routed(self@, path@) is None,
            },
    {
        self.served(path)
    }

    /// The file system that makes a directory below `parent_path`, and the path there.
    pub fn mkdir(&self, parent_path: &[u8]) -> (r: Result<(Vec<u8>, usize), ()>)
        ensures
            match r {
                Ok((rel, fs)) => routed(self@, parent_path@) == Some((rel@, fs)),
                Err(_) => routed(self@, parent_path@) is None,
            },
    {
        self.served(parent_path)
    }

    /// The file system that removes a directory, and the path there.
    pub fn rmdir(&self, path: &[u8]) -> (r: Result<(Vec<u8>, usize), ()>)
        ensures
            match r {
                Ok((rel, fs)) => routed(self@, path@) == Some((rel@, fs)),
                Err(_) => routed(self@, path@) is None,
            },
    {
        self.served(path)
    }

    /// The file system that lists a directory, and the path there.
    pub fn ls(&self, path: &[u8]) -> (r: Result<(Vec<u8>, usize), ()>)
        ensures
            match r {
                Ok((rel, fs)) => routed(self@, path@) == Some((rel@, fs)),
                Err(_) => routed(self@, path@) is None,
            },
    {
        self.served(path)
    }

    /// The file system that removes a file, and the path there.
    pub fn rm(&self, path: &[u8]) -> (r: Result<(Vec<u8>, usize), ()>)
        ensures
            match r {
                Ok((rel, fs)) => routed(self@, path@) == Some((rel@, fs)),
                Err(_) => routed(self@, path@) is None,
            },
    {
        self.served(path)
    }

    /// The file system that makes a file below `parent_path`, and the path there.
    pub fn touch(&self, parent_path: &[u8]) -> (r: Result<(Vec<u8>, usize), ()>)
        ensures
            match r {
                Ok((rel, fs)) => routed(self@, parent_path@) == Some((rel@, fs)),
                Err(_) => routed(self@, parent_path@) is None,
            },
    {
        self.served(parent_path)
    }

    /// The file system that describes a file, and the path there.
    pub fn metadata(&self, path: &[u8]) -> (r: Result<(Vec<u8>, usize), ()>)
        ensures
            match r {
                Ok((rel, fs)) => routed(self@, path@) == Some((rel@, fs)),
                Err(_) => routed(self@, path@) is None,
            },
    {
        self.served(path)
    }

    /// The file system that changes an attribute, and the path there.
    pub fn set_attr(&self, path: &[u8]) -> (r: Result<(Vec<u8>, usize), ()>)
        ensures
            match r {
                Ok((rel, fs)) => routed(self@, path@) == Some((rel@, fs)),
                Err(_) => routed(self@, path@) is None,
            },
    {
        self.served(path)
    }

    /// The file system that knows an attribute, and the path there.
    pub fn get_attr(&self, path: &[u8]) -> (r: Result<(Vec<u8>, usize), ()>)
        ensures
            match r {
                Ok((rel, fs)) => routed(self@, path@) == Some((rel@, fs)),
                Err(_) => routed(self@, path@) is None,
            },
    {
        self.served(path)
    }

    /// The file system that changes a mode, and the path there.
    pub fn chmod(&self, path: &[u8]) -> (r: Result<(Vec<u8>, usize), VfsError>)
        ensures
            match r {
                Ok((rel, fs)) => routed(self@, path@) == Some((rel@, fs)),
                Err(e) => e == VfsError::NotFound && routed(self@, path@) is None,
            },
    {
        match self.route(path) {
            Some(x) => Ok(x),
            None => Err(VfsError::NotFound),
        }
    }

    /// The file system that a path belongs to.
    pub fn stats(&self, path: &[u8]) -> (r: Result<usize, ()>)
        ensures
            match r {
                Ok(fs) => routed(self@, path@) matches Some((_, f)) && f == fs,
                Err(_) => routed(self@, path@) is None,
            },
    {
        match self.route(path) {
            Some((_, fs)) => Ok(fs),
            None => Err(()),
        }
    }

    /// Whether something is mounted at `prefix`.
    pub fn is_mounted(&self, prefix: &[u8]) -> (r: bool)
        ensures
            r == exists|i: int| 0 <= i < self@.len() && (#[trigger] self@[i]).prefix == prefix@,
    {
        let mut i: usize = 0;
        while i < self.mount_points.len()
            invariant
                i <= self@.len(),
                forall|k: int| 0 <= k < i ==> (#[trigger] self@[k]).prefix != prefix@,
            decreases self@.len() - i,
        {
            if same(&self.mount_points[i].prefix, prefix) {
                proof {
                    assert(self@[i as int].prefix == prefix@);
                }
                return true;
            }
            i = i + 1;
        }
        false
    }
}

proof fn lemma_mounted_sorted(s: Seq<MountView>, m: MountView)
    requires
        longest_first(s),
    ensures
        longest_first(mounted(s, m)),
        mounted(s, m).len() == s.len() + 1,
        forall|i: int|
            0 <= i < mounted(s, m).len() ==> #[trigger] mounted(s, m)[i] == m || s.contains(
                mounted(s, m)[i],
            ),
    decreases s.len(),
{
    let t = mounted(s, m);
    if s.len() > 0 && s.last().prefix.len() < m.prefix.len() {
        let front = s.drop_last();
        lemma_mounted_sorted(front, m);
        let u = mounted(front, m);
        assert forall|i: int| 0 <= i < t.len() implies #[trigger] t[i] == m || s.contains(t[i]) by {
            if i < u.len() {
                assert(u[i] == t[i]);
                if u[i] != m {
                    assert(front.contains(u[i]));
                    let k = choose|k: int| 0 <= k < front.len() && front[k] == u[i];
                    assert(s[k] == u[i]);
                }
            } else {
                assert(s[s.len() - 1] == t[i]);
            }
        }
        assert forall|i: int, j: int| 0 <= i < j < t.len() implies (#[trigger] t[i]).prefix.len() >= (
        #[trigger] t[j]).prefix.len() by {
            assert(u[i] == t[i]);
            if j < u.len() {
                assert(u[j] == t[j]);
            } else if u[i] != m {
                let k = choose|k: int| 0 <= k < front.len() && front[k] == u[i];
                assert(s[k] == u[i] && s[s.len() - 1] == t[j]);
            }
        }
    } else {
        assert forall|i: int| 0 <= i < t.len() implies #[trigger] t[i] == m || s.contains(t[i]) by {
            if i < s.len() {
                assert(s[i] == t[i]);
            }
        }
        assert forall|i: int, j: int| 0 <= i < j < t.len() implies (#[trigger] t[i]).prefix.len() >= (
        #[trigger] t[j]).prefix.len() by {
            assert(s[i] == t[i]);
            assert(s[i].prefix.len() >= s[s.len() - 1].prefix.len());
            if j < s.len() {
                assert(s[j] == t[j]);
            }
        }
    }
}

proof fn lemma_mount_pos(s: Seq<MountView>, prefix: Seq<u8>, k: int)
    requires
        0 <= k <= s.len(),
        forall|i: int| 0 <= i < k ==> (#[trigger] s[i]).prefix != prefix,
        k == s.len() || s[k].prefix == prefix,
    ensures
        mount_pos(s, prefix) == k,
    decreases s.len(),
{
    if k > 0 {
        assert(s[0].prefix != prefix);
        assert forall|i: int| 0 <= i < k - 1 implies (#[trigger] s.skip(1)[i]).prefix != prefix by {
            assert(s.skip(1)[i] == s[i + 1]);
        }
        lemma_mount_pos(s.skip(1), prefix, k - 1);
    }
}

/// A path goes to the mount point with the longest prefix that it starts with.
pub proof fn lemma_longest_prefix(s: Seq<MountView>, path: Seq<u8>)
    requires
        longest_first(s),
    ensures
        match routed(s, path) {
            Some((rel, fs)) => exists|i: int| #[trigger] routes_to(s, path, i) && rel == below(path, s[i].prefix) && fs == s[i].fs,
            None => forall|j: int| 0 <= j < s.len() ==> !serves_path(#[trigger] s[j], path),
        },
    decreases s.len(),
{
    if s.len() > 0 {
        if serves_path(s[0], path) {
            assert(routes_to(s, path, 0));
        } else {
            let t = s.skip(1);
            assert forall|i: int, j: int| 0 <= i < j < t.len() implies (#[trigger] t[i]).prefix.len() >= (
            #[trigger] t[j]).prefix.len() by {
                assert(t[i] == s[i + 1] && t[j] == s[j + 1]);
            }
            lemma_longest_prefix(t, path);
            match routed(t, path) {
                Some((rel, fs)) => {
                    let i = choose|i: int| #[trigger]
                        routes_to(t, path, i) && rel == below(path, t[i].prefix) && fs == t[i].fs;
                    assert(s[i + 1] == t[i]);
                    assert forall|j: int| 0 <= j < s.len() && serves_path(#[trigger] s[j], path) implies s[j].prefix.len()
                        <= s[i + 1].prefix.len() by {
                        if j > 0 {
                            assert(t[j - 1] == s[j]);
                        }
                    }
                    assert(routes_to(s, path, i + 1));
                },
                None => {
                    assert forall|j: int| 0 <= j < s.len() implies !serves_path(#[trigger] s[j], path) by {
                        if j > 0 {
                            assert(t[j - 1] == s[j]);
                        }
                    }
                },
            }
        }
    }
}

/// Whether mount point `i` serves a path and none with a longer prefix does.
pub open spec fn routes_to(s: Seq<MountView>, path: Seq<u8>, i: int) -> bool {
    &&& 0 <= i < s.len()
    &&& serves_path(s[i], path)
    &&& forall|j: int|
        0 <= j < s.len() && serves_path(#[trigger] s[j], path) ==> s[j].prefix.len()
            <= s[i].prefix.len()
}

/// Where reading goes on after `read` of `left` bytes at `offset` were read; none
/// once all are there.
pub fn read_exact_step(offset: usize, left: usize, read: usize) -> (r: Result<
    Option<(usize, usize)>,
    (),
>)
    requires
        read <= left,
    ensures
        match r {
            Ok(None) => read == left && (left > 0 ==> offset + read <= usize::MAX),
            Ok(Some((o, l))) => 0 < read < left && o == offset + read && l == left - read,
            Err(_) => left > 0 && (read == 0 || offset + read > usize::MAX),
        },
{
    if left == 0 {
        return Ok(None);
    }
    if read == 0 {
        return Err(());
    }
    if offset > usize::MAX - read {
        return Err(());
    }
    if read == left {
        Ok(None)
    } else {
        Ok(Some((offset + read, left - read)))
    }
}

} // verus!
