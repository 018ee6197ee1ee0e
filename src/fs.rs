//! The mounted filesystem: the assembled tree, the chunk stores and their router,
//! the handle tables, and the decisions behind each kernel callback.
use vstd::prelude::*;
use crate::chunkstore::ChunkStore;
use crate::le::bytes_equal;
use crate::handles::HandleTable;
use crate::manifest::{Manifest, ManifestError, FLAG_DIRECTORY};
use crate::router::ChunkRouter;
use crate::sku::StockKeepingUnit;
use crate::vfs::{FileEntry, Node, Vfs, VfsError, node_path, node_name, reals_from, covers_entries, max_path_len,
    paths_ascending, dirs_match, dir_walk,
    ROOT_INODE};
use crate::manifest::FileMapping;

verus! {

/// Attributes are cached by the kernel for this many seconds.
pub const TTL_SECS: u64 = 10;
pub const BLOCK_SIZE: u32 = 512;
pub const PERMISSIONS: u16 = 0o755;
pub const OWNER_ID: u32 = 1000;

#[derive(Clone, Copy, Debug, PartialEq, Eq, Structural)]
pub enum FsError {
    /// No entry of that name in the directory.
    NoEntry,
    /// An inode out of range, a read past the end, a read of a directory.
    Invalid,
    /// An unknown handle, or one opened for another inode.
    BadFileDescriptor,
    /// A chunk could not be read or did not verify.
    Io,
}

#[derive(Clone, Copy, Debug, PartialEq, Eq, Structural)]
pub enum PrepareError {
    Manifest { depot: u32, error: ManifestError },
    Tree(VfsError),
}

/// The attributes of a node, as the kernel sees them.
#[derive(Clone, Copy, Debug, PartialEq, Eq, Structural)]
pub struct FileAttr {
    pub ino: u64,
    pub size: u64,
    pub blocks: u64,
    /// Access, change, modification and creation time, in seconds since the epoch.
    pub time: u64,
    pub is_dir: bool,
    pub perm: u16,
    pub nlink: u32,
    pub uid: u32,
    pub gid: u32,
    pub blksize: u32,
}

/// One entry of a directory listing; offsets count from 1.
pub struct DirEntry {
    pub ino: u64,
    pub offset: u64,
    pub is_dir: bool,
    pub name: Vec<u8>,
}

/// A node is a directory when it is implied by paths, or its flags say so.
pub open spec fn node_is_dir(n: Node) -> bool {
    match n {
        Node::Real { file_mapping, .. } => file_mapping.flags & FLAG_DIRECTORY != 0,
        Node::Synthetic { .. } => true,
    }
}

pub fn is_dir(n: &Node) -> (r: bool)
    ensures
        r == node_is_dir(*n),
{
    match n {
        Node::Real { file_mapping, .. } => file_mapping.flags & FLAG_DIRECTORY != 0,
        Node::Synthetic { .. } => true,
    }
}

pub open spec fn size_of(n: Node) -> u64 {
    match n {
        Node::Real { file_mapping, .. } => file_mapping.size,
        Node::Synthetic { .. } => 0,
    }
}

/// Whole blocks of 512 bytes that `size` bytes take.
pub open spec fn blocks_of(size: u64) -> u64 {
    ((size as int + 511) / 512) as u64
}

pub fn blocks(size: u64) -> (r: u64)
    ensures
        r == blocks_of(size),
{
    size / 512 + if size % 512 == 0 { 0 } else { 1 }
}

pub open spec fn attr_spec(n: Node, ino: u64) -> FileAttr {
    let m = match n {
        Node::Real { metadata, .. } => metadata,
        Node::Synthetic { metadata, .. } => metadata,
    };
    FileAttr {
        ino,
        size: size_of(n),
        blocks: blocks_of(size_of(n)),
        time: m.creation_time as u64,
        is_dir: node_is_dir(n),
        perm: PERMISSIONS,
        nlink: 1,
        uid: OWNER_ID,
        gid: OWNER_ID,
        blksize: BLOCK_SIZE,
    }
}

pub open spec fn root_attr() -> FileAttr {
    FileAttr {
        ino: ROOT_INODE,
        size: 0,
        blocks: 0,
        time: 0,
        is_dir: true,
        perm: PERMISSIONS,
        nlink: 1,
        uid: OWNER_ID,
        gid: OWNER_ID,
        blksize: BLOCK_SIZE,
    }
}

pub fn node_attr(n: &Node, ino: u64) -> (r: FileAttr)
    ensures
        r == attr_spec(*n, ino),
{
    let size = match n {
        Node::Real { file_mapping, .. } => file_mapping.size,
        Node::Synthetic { .. } => 0,
    };
    let m = n.metadata();
    FileAttr {
        ino,
        size,
        blocks: blocks(size),
        time: m.creation_time as u64,
        is_dir: is_dir(n),
        perm: PERMISSIONS,
        nlink: 1,
        uid: OWNER_ID,
        gid: OWNER_ID,
        blksize: BLOCK_SIZE,
    }
}

/// The root and the nodes that `node_is_dir` accepts are directories.
pub open spec fn inode_is_dir(nodes: Seq<Node>, i: int) -> bool {
    i == 1 || node_is_dir(nodes[i - 2])
}

/// The context of an open file on the Windows back end: the inode it resolved to.
#[derive(Debug)]
pub struct EntryHandle {
    pub ino: u64,
}

/// Access bits that ask for writing: generic write, write data, append data,
/// write extended attributes, write attributes.
pub const WRITE_ACCESS: u32 = 0x4000_0000 | 0x2 | 0x4 | 0x10 | 0x100;
pub const FILE_OPEN: u32 = 1;
pub const FILE_DIRECTORY_FILE: u32 = 0x1;
pub const FILE_NON_DIRECTORY_FILE: u32 = 0x40;

#[derive(Clone, Copy, Debug, PartialEq, Eq, Structural)]
pub enum OpenError {
    MediaWriteProtected,
    InvalidParameter,
    NameNotFound,
    NotADirectory,
    FileIsADirectory,
}

/// The file entries of one manifest, in order.
pub open spec fn manifest_entries(m: Manifest) -> Seq<FileEntry> {
    m.payload@.map_values(|f: FileMapping| FileEntry { metadata: m.metadata, mapping: f })
}

/// The file entries of all manifests, manifest after manifest.
pub open spec fn entries_of(ms: Seq<(u32, Manifest)>) -> Seq<FileEntry>
    decreases ms.len(),
{
    if ms.len() == 0 {
        Seq::empty()
    } else {
        entries_of(ms.drop_last()) + manifest_entries(ms.last().1)
    }
}

fn empty_mapping() -> FileMapping {
    FileMapping { filename: Vec::new(), flags: 0, size: 0, linktarget: None, sha_filename: Vec::new(), chunks: Vec::new() }
}

fn file_entries(manifests: Vec<(u32, Manifest)>) -> (r: Vec<FileEntry>)
    ensures
        r@ == entries_of(manifests@),
{
    let ghost orig = manifests@;
    let mut ms = manifests;
    let mut entries: Vec<FileEntry> = Vec::new();
    let mut i: usize = 0;
    assert(orig.take(0) =~= Seq::<(u32, Manifest)>::empty());
    while i < ms.len()
        invariant
            ms@.len() == orig.len(),
            i <= orig.len(),
            entries@ == entries_of(orig.take(i as int)),
            forall|j: int| i <= j < orig.len() ==> (#[trigger] ms@[j]) == orig[j],
        decreases orig.len() - i,
    {
        let mut item = (0u32, Manifest { payload: Vec::new(), metadata: crate::manifest::empty_metadata(), signature: Vec::new() });
        std::mem::swap(&mut item, &mut ms[i]);
        assert(item == orig[i as int]);
        let (_, m) = item;
        let metadata = m.metadata;
        let mut payload = m.payload;
        let ghost pay0 = payload@;
        let ghost base = entries@;
        let mut k: usize = 0;
        assert(manifest_entries(m).take(0) =~= Seq::<FileEntry>::empty());
        assert(base + Seq::<FileEntry>::empty() =~= base);
        while k < payload.len()
            invariant
                payload@.len() == pay0.len(),
                pay0 == m.payload@,
                metadata == m.metadata,
                k <= pay0.len(),
                entries@ == base + manifest_entries(m).take(k as int),
                forall|k2: int| k <= k2 < pay0.len() ==> (#[trigger] payload@[k2]) == pay0[k2],
            decreases pay0.len() - k,
        {
            let mut f = empty_mapping();
            std::mem::swap(&mut f, &mut payload[k]);
            entries.push(FileEntry { metadata, mapping: f });
            assert(manifest_entries(m).take(k + 1) =~= manifest_entries(m).take(k as int).push(
                FileEntry { metadata: m.metadata, mapping: pay0[k as int] },
            ));
            k = k + 1;
        }
        assert(manifest_entries(m).take(k as int) =~= manifest_entries(m));
        assert(orig.take(i + 1).drop_last() =~= orig.take(i as int));
        assert(orig.take(i + 1).last() == orig[i as int]);
        i = i + 1;
    }
    assert(orig.take(i as int) =~= orig);
    entries
}

pub struct BackupFs {
    pub name: Vec<u8>,
    pub vfs: Vfs,
    pub stores: Vec<ChunkStore>,
    pub router: ChunkRouter,
    pub files: HandleTable,
    pub dirs: HandleTable,
}

impl BackupFs {
    pub open spec fn wf(&self) -> bool {
        self.vfs.wf() && self.router.wf(self.stores@)
    }

    /// Assembles the filesystem from the SKU, the manifest of each depot, and the
    /// opened chunk stores. Fails on the first manifest that belongs to another
    /// depot or still has encrypted file names.
    pub fn prepare(sku: &StockKeepingUnit, manifests: Vec<(u32, Manifest)>, stores: Vec<ChunkStore>) -> (r: Result<
        BackupFs,
        PrepareError,
    >)
        ensures
            r matches Ok(fs) ==> fs.wf() && fs.name@ == sku.name@ && fs.stores@ == stores@ && reals_from(
                fs.vfs.inodes@.subrange(0, fs.vfs.real_count as int),
                entries_of(manifests@),
            ) && covers_entries(fs.vfs.inodes@.subrange(0, fs.vfs.real_count as int), entries_of(manifests@))
                && paths_ascending(fs.vfs.inodes@, fs.vfs.real_count as int) && dirs_match(
                fs.vfs.inodes@,
                fs.vfs.real_count as int,
                dir_walk(fs.vfs.inodes@.subrange(0, fs.vfs.real_count as int), fs.vfs.real_count as int),
            ),
            forall|i: int|
                0 <= i < manifests@.len() && (forall|j: int| 0 <= j < i ==> (#[trigger] manifests@[j]).1.metadata.depot_id
                    == manifests@[j].0 && !manifests@[j].1.metadata.filenames_encrypted)
                    && (#[trigger] manifests@[i]).1.metadata.depot_id != manifests@[i].0 ==> r
                    == Err::<BackupFs, PrepareError>(PrepareError::Manifest {
                    depot: manifests@[i].0,
                    error: ManifestError::DepotMismatch { found: manifests@[i].1.metadata.depot_id },
                }),
            forall|i: int|
                0 <= i < manifests@.len() && (forall|j: int| 0 <= j < i ==> (#[trigger] manifests@[j]).1.metadata.depot_id
                    == manifests@[j].0 && !manifests@[j].1.metadata.filenames_encrypted)
                    && (#[trigger] manifests@[i]).1.metadata.depot_id == manifests@[i].0
                    && manifests@[i].1.metadata.filenames_encrypted ==> r == Err::<BackupFs, PrepareError>(
                    PrepareError::Manifest { depot: manifests@[i].0, error: ManifestError::EncryptedFilenames },
                ),
            (forall|j: int| 0 <= j < manifests@.len() ==> (#[trigger] manifests@[j]).1.metadata.depot_id
                == manifests@[j].0 && !manifests@[j].1.metadata.filenames_encrypted) ==> (r is Ok || r matches Err(
                PrepareError::Tree(_),
            )),
            (forall|j: int| 0 <= j < manifests@.len() ==> (#[trigger] manifests@[j]).1.metadata.depot_id
                == manifests@[j].0 && !manifests@[j].1.metadata.filenames_encrypted) && entries_of(manifests@).len()
                * (max_path_len(entries_of(manifests@)) + 1) + 16 <= u64::MAX ==> r is Ok,
    {
        let mut i: usize = 0;
        while i < manifests.len()
            invariant
                i <= manifests@.len(),
                forall|j: int| 0 <= j < i ==> (#[trigger] manifests@[j]).1.metadata.depot_id == manifests@[j].0
                    && !manifests@[j].1.metadata.filenames_encrypted,
            decreases manifests@.len() - i,
        {
            let (depot, m) = (manifests[i].0, &manifests[i].1);
            match m.check_for_mount(depot) {
                Ok(()) => {},
                Err(error) => {
                    return Err(PrepareError::Manifest { depot, error });
                },
            }
            i = i + 1;
        }
        let entries = file_entries(manifests);
        if entries.len() as u64 > u64::MAX - 16 {
            proof {
                assert(entries@.len() * (max_path_len(entries@) + 1) >= entries@.len()) by (nonlinear_arith);
            }
            return Err(PrepareError::Tree(VfsError::TooManyNodes));
        }
        let vfs = match Vfs::assemble(entries) {
            Ok(v) => v,
            Err(e) => {
                return Err(PrepareError::Tree(e));
            },
        };
        let router = ChunkRouter::build(&stores);
        let name = crate::le::copy_range(sku.name.as_slice(), 0, sku.name.len());
        proof {
            assert(sku.name@.subrange(0, sku.name@.len() as int) =~= sku.name@);
        }
        Ok(BackupFs { name, vfs, stores, router, files: HandleTable::new(), dirs: HandleTable::new() })
    }

    /// The child named `name` of directory `parent`.
    pub fn lookup(&self, parent: u64, name: &[u8]) -> (r: Result<u64, FsError>)
        requires
            self.wf(),
        ensures
            match r {
                Ok(c) => self.vfs.lists(parent as int, c as int) && 2 <= c <= self.vfs.inodes@.len() + 1
                    && node_name(self.vfs.inodes@[c - 2]) == name@,
                Err(FsError::Invalid) => !(1 <= parent <= self.vfs.dir_map@.len()),
                Err(FsError::NoEntry) => 1 <= parent <= self.vfs.dir_map@.len() && forall|c: int|
                    self.vfs.lists(parent as int, c) ==> node_name(#[trigger] self.vfs.inodes@[c - 2]) != name@,
                Err(_) => false,
            },
    {
        let children = match self.vfs.children(parent) {
            Some(c) => c,
            None => {
                return Err(FsError::Invalid);
            },
        };
        let mut j: usize = 0;
        while j < children.len()
            invariant
                self.wf(),
                1 <= parent <= self.vfs.dir_map@.len(),
                *children == self.vfs.dir_map@[parent - 1],
                j <= children@.len(),
                forall|j2: int| 0 <= j2 < j ==> node_name(#[trigger] self.vfs.inodes@[children@[j2] - 2]) != name@,
            decreases children@.len() - j,
        {
            let c = children[j];
            assert(2 <= self.vfs.dir_map@[parent - 1]@[j as int] <= self.vfs.inodes@.len() + 1);
            let node = match self.vfs.get_node(c) {
                Some(n) => n,
                None => {
                    return Err(FsError::Invalid);
                },
            };
            assert(node_path(*node).len() > 0);
            if bytes_equal(node.name(), name) {
                assert(children@.contains(c));
                return Ok(c);
            }
            j = j + 1;
        }
        proof {
            assert forall|c: int| self.vfs.lists(parent as int, c) implies node_name(
                #[trigger] self.vfs.inodes@[c - 2],
            ) != name@ by {
                let w = choose|w: int| 0 <= w < children@.len() && children@[w] == c as u64;
                assert(2 <= self.vfs.dir_map@[parent - 1]@[w] <= self.vfs.inodes@.len() + 1);
            }
        }
        Err(FsError::NoEntry)
    }

    /// A handle given to `getattr` is open for `ino`: as a directory handle if one
    /// has that number, else as a file handle.
    pub open spec fn handle_ok(&self, ino: u64, fh: Option<u64>) -> bool {
        match fh {
            None => true,
            Some(h) => if self.dirs.open@.contains_key(h) {
                self.dirs.open@[h] == ino
            } else {
                self.files.open@.contains_key(h) && self.files.open@[h] == ino
            },
        }
    }

    /// The attributes of `ino`; when a handle is given it must be open for `ino`.
    pub fn getattr(&self, ino: u64, fh: Option<u64>) -> (r: Result<FileAttr, FsError>)
        ensures
            !self.handle_ok(ino, fh) ==> r == Err::<FileAttr, FsError>(FsError::BadFileDescriptor),
            self.handle_ok(ino, fh) && ino == ROOT_INODE ==> r == Ok::<FileAttr, FsError>(root_attr()),
            self.handle_ok(ino, fh) && 2 <= ino <= self.vfs.inodes@.len() + 1 ==> r == Ok::<FileAttr, FsError>(
                attr_spec(self.vfs.inodes@[ino - 2], ino),
            ),
            self.handle_ok(ino, fh) && ino != ROOT_INODE && !(2 <= ino <= self.vfs.inodes@.len() + 1) ==> r == Err::<
                FileAttr,
                FsError,
            >(FsError::NoEntry),
    {
        match fh {
            Some(h) => match self.dirs.inode_of(h) {
                Some(expected) => {
                    if expected != ino {
                        return Err(FsError::BadFileDescriptor);
                    }
                },
                None => {
                    if !self.files.check(h, ino) {
                        return Err(FsError::BadFileDescriptor);
                    }
                },
            },
            None => {},
        }
        if ino == ROOT_INODE {
            return Ok(
                FileAttr {
                    ino: ROOT_INODE,
                    size: 0,
                    blocks: 0,
                    time: 0,
                    is_dir: true,
                    perm: PERMISSIONS,
                    nlink: 1,
                    uid: OWNER_ID,
                    gid: OWNER_ID,
                    blksize: BLOCK_SIZE,
                },
            );
        }
        match self.vfs.get_node(ino) {
            Some(n) => Ok(node_attr(n, ino)),
            None => Err(FsError::NoEntry),
        }
    }

    /// Opens `ino` for reading; any inode may be opened.
    pub fn open(&mut self, ino: u64) -> (fh: u64)
        ensures
            fh == old(self).files.next,
            final(self).files.open@ == old(self).files.open@.insert(fh, ino),
            final(self).files.next == crate::handles::wrapping_next(old(self).files.next),
            final(self).dirs == old(self).dirs,
            final(self).vfs == old(self).vfs,
            final(self).stores == old(self).stores,
            final(self).router == old(self).router,
    {
        self.files.open(ino)
    }

    pub fn opendir(&mut self, ino: u64) -> (fh: u64)
        ensures
            fh == old(self).dirs.next,
            final(self).dirs.open@ == old(self).dirs.open@.insert(fh, ino),
            final(self).dirs.next == crate::handles::wrapping_next(old(self).dirs.next),
            final(self).files == old(self).files,
            final(self).vfs == old(self).vfs,
            final(self).stores == old(self).stores,
            final(self).router == old(self).router,
    {
        self.dirs.open(ino)
    }

    pub fn release(&mut self, ino: u64, fh: u64) -> (r: Result<(), FsError>)
        ensures
            r is Ok == (old(self).files.open@.contains_key(fh) && old(self).files.open@[fh] == ino),
            r is Ok ==> final(self).files.open@ == old(self).files.open@.remove(fh),
            r is Err ==> r == Err::<(), FsError>(FsError::BadFileDescriptor) && final(self).files.open@ == old(self).files.open@,
            final(self).dirs == old(self).dirs,
            final(self).vfs == old(self).vfs,
    {
        if self.files.release(fh, ino) {
            Ok(())
        } else {
            Err(FsError::BadFileDescriptor)
        }
    }

    pub fn releasedir(&mut self, ino: u64, fh: u64) -> (r: Result<(), FsError>)
        ensures
            r is Ok == (old(self).dirs.open@.contains_key(fh) && old(self).dirs.open@[fh] == ino),
            r is Ok ==> final(self).dirs.open@ == old(self).dirs.open@.remove(fh),
            r is Err ==> r == Err::<(), FsError>(FsError::BadFileDescriptor) && final(self).dirs.open@ == old(self).dirs.open@,
            final(self).files == old(self).files,
            final(self).vfs == old(self).vfs,
    {
        if self.dirs.release(fh, ino) {
            Ok(())
        } else {
            Err(FsError::BadFileDescriptor)
        }
    }

    /// The node to read for `ino`, once the handle is checked.
    pub fn read_target(&self, ino: u64, fh: u64) -> (r: Result<&Node, FsError>)
        ensures
            match r {
                Ok(n) => self.files.open@.contains_key(fh) && self.files.open@[fh] == ino && 2 <= ino
                    <= self.vfs.inodes@.len() + 1 && *n == self.vfs.inodes@[ino - 2],
                Err(e) => e == FsError::BadFileDescriptor && !(self.files.open@.contains_key(fh)
                    && self.files.open@[fh] == ino && 2 <= ino <= self.vfs.inodes@.len() + 1),
            },
    {
        match self.vfs.get_node(ino) {
            Some(n) => if self.files.check(fh, ino) {
                Ok(n)
            } else {
                Err(FsError::BadFileDescriptor)
            },
            None => Err(FsError::BadFileDescriptor),
        }
    }

    /// The entries of directory `ino` from position `offset` on.
    pub fn readdir(&self, ino: u64, fh: u64, offset: u64) -> (r: Result<Vec<DirEntry>, FsError>)
        requires
            self.wf(),
        ensures
            match r {
                Ok(v) => self.dirs.open@.contains_key(fh) && self.dirs.open@[fh] == ino && 1 <= ino
                    <= self.vfs.dir_map@.len() && v@.len() == (if offset < self.vfs.dir_map@[ino - 1]@.len() {
                    self.vfs.dir_map@[ino - 1]@.len() - offset
                } else {
                    0
                }) && forall|j: int| 0 <= j < v@.len() ==> {
                    let c = self.vfs.dir_map@[ino - 1]@[offset + j];
                    &&& (#[trigger] v@[j]).ino == c
                    &&& v@[j].offset == offset + j + 1
                    &&& v@[j].is_dir == node_is_dir(self.vfs.inodes@[c - 2])
                    &&& v@[j].name@ == node_name(self.vfs.inodes@[c - 2])
                },
                Err(e) => e == FsError::BadFileDescriptor && !(self.dirs.open@.contains_key(fh)
                    && self.dirs.open@[fh] == ino && 1 <= ino <= self.vfs.dir_map@.len()),
            },
    {
        let children = match self.vfs.children(ino) {
            Some(c) => c,
            None => {
                return Err(FsError::BadFileDescriptor);
            },
        };
        if !self.dirs.check(fh, ino) {
            return Err(FsError::BadFileDescriptor);
        }
        let mut out: Vec<DirEntry> = Vec::new();
        let mut j: usize = if offset < children.len() as u64 { offset as usize } else { children.len() };
        let start = j;
        while j < children.len()
            invariant
                self.wf(),
                1 <= ino <= self.vfs.dir_map@.len(),
                *children == self.vfs.dir_map@[ino - 1],
                start <= j <= children@.len(),
                start == (if offset < children@.len() { offset as int } else { children@.len() as int }),
                out@.len() == j - start,
                forall|j2: int| 0 <= j2 < out@.len() ==> {
                    let c = self.vfs.dir_map@[ino - 1]@[start + j2];
                    &&& (#[trigger] out@[j2]).ino == c
                    &&& out@[j2].offset == start + j2 + 1
                    &&& out@[j2].is_dir == node_is_dir(self.vfs.inodes@[c - 2])
                    &&& out@[j2].name@ == node_name(self.vfs.inodes@[c - 2])
                },
            decreases children@.len() - j,
        {
            let c = children[j];
            assert(2 <= self.vfs.dir_map@[ino - 1]@[j as int] <= self.vfs.inodes@.len() + 1);
            let node = match self.vfs.get_node(c) {
                Some(n) => n,
                None => {
                    return Err(FsError::BadFileDescriptor);
                },
            };
            assert(node_path(*node).len() > 0);
            let nm = node.name();
            let name = crate::le::copy_range(nm, 0, nm.len());
            assert(nm@.subrange(0, nm@.len() as int) =~= nm@);
            out.push(DirEntry { ino: c, offset: j as u64 + 1, is_dir: is_dir(node), name });
            j = j + 1;
        }
        Ok(out)
    }

    /// Blocks in use (saturating) and the number of inodes, root included.
    pub fn statfs(&self) -> (r: (u64, u64))
        ensures
            r.0 == (if blocks_total(self.vfs.inodes@) <= u64::MAX {
                blocks_total(self.vfs.inodes@)
            } else {
                u64::MAX as int
            }),
            r.1 == self.vfs.inodes@.len() + 1 || self.vfs.inodes@.len() + 1 > u64::MAX,
    {
        let mut total: u64 = 0;
        let mut k: usize = 0;
        while k < self.vfs.inodes.len()
            invariant
                k <= self.vfs.inodes@.len(),
                total == (if blocks_total(self.vfs.inodes@.take(k as int)) <= u64::MAX {
                    blocks_total(self.vfs.inodes@.take(k as int))
                } else {
                    u64::MAX as int
                }),
            decreases self.vfs.inodes@.len() - k,
        {
            assert(self.vfs.inodes@.take(k + 1).drop_last() =~= self.vfs.inodes@.take(k as int));
            proof {
                lemma_blocks_total_nonneg(self.vfs.inodes@.take(k as int));
            }
            let n = &self.vfs.inodes[k];
            let size = match n {
                Node::Real { file_mapping, .. } => file_mapping.size,
                Node::Synthetic { .. } => 0,
            };
            total = total.saturating_add(blocks(size));
            k = k + 1;
        }
        assert(self.vfs.inodes@.take(k as int) =~= self.vfs.inodes@);
        let count = (self.vfs.inodes.len() as u64).saturating_add(1);
        (total, count)
    }

    /// Opens a path on the Windows back end: reading only, an existing entry only,
    /// and of the kind asked for.
    pub fn create_file(&self, path: &Vec<Vec<u8>>, desired_access: u32, disposition: u32, options: u32) -> (r: Result<
        (EntryHandle, bool),
        OpenError,
    >)
        requires
            self.wf(),
        ensures
            desired_access & WRITE_ACCESS != 0 ==> r matches Err(OpenError::MediaWriteProtected),
            desired_access & WRITE_ACCESS == 0 && disposition != FILE_OPEN ==> r matches Err(OpenError::InvalidParameter),
            desired_access & WRITE_ACCESS == 0 && disposition == FILE_OPEN && (forall|i: int|
                self.vfs.valid_inode(i) ==> #[trigger] self.vfs.path_of(i) != crate::path::pview(path)) ==> r matches Err(
                OpenError::NameNotFound,
            ),
            forall|i: int|
                desired_access & WRITE_ACCESS == 0 && disposition == FILE_OPEN && self.vfs.valid_inode(i)
                    && #[trigger] self.vfs.path_of(i) == crate::path::pview(path) ==> {
                    let d = inode_is_dir(self.vfs.inodes@, i);
                    &&& ((options & FILE_DIRECTORY_FILE != 0 && !d) ==> (r matches Err(OpenError::NotADirectory)))
                    &&& ((!(options & FILE_DIRECTORY_FILE != 0 && !d) && options & FILE_NON_DIRECTORY_FILE != 0 && d)
                        ==> (r matches Err(OpenError::FileIsADirectory)))
                    &&& ((!(options & FILE_DIRECTORY_FILE != 0 && !d) && !(options & FILE_NON_DIRECTORY_FILE != 0 && d))
                        ==> (r matches Ok((h, dd)) && h.ino == i && dd == d))
                },
{
        if desired_access & WRITE_ACCESS != 0 {
            return Err(OpenError::MediaWriteProtected);
        }
        if disposition != FILE_OPEN {
            return Err(OpenError::InvalidParameter);
        }
        let ino = match self.vfs.resolve(path) {
            Some(i) => i,
            None => {
                return Err(OpenError::NameNotFound);
            },
        };
        proof {
            assert forall|i: int| self.vfs.valid_inode(i) && #[trigger] self.vfs.path_of(i) == crate::path::pview(path)
                implies i == ino by {
                crate::vfs::lemma_ipath_injective(self.vfs.inodes@, i, ino as int);
            }
        }
        let dir = if ino == ROOT_INODE {
            true
        } else {
            match self.vfs.get_node(ino) {
                Some(n) => is_dir(n),
                None => {
                    return Err(OpenError::InvalidParameter);
                },
            }
        };
        if options & FILE_DIRECTORY_FILE != 0 && !dir {
            return Err(OpenError::NotADirectory);
        }
        if options & FILE_NON_DIRECTORY_FILE != 0 && dir {
            return Err(OpenError::FileIsADirectory);
        }
        Ok((EntryHandle { ino }, dir))
    }
}

/// The blocks that the nodes take, summed.
pub open spec fn blocks_total(nodes: Seq<Node>) -> int
    decreases nodes.len(),
{
    if nodes.len() == 0 {
        0
    } else {
        blocks_total(nodes.drop_last()) + blocks_of(size_of(nodes.last()))
    }
}

proof fn lemma_blocks_total_nonneg(nodes: Seq<Node>)
    ensures
        blocks_total(nodes) >= 0,
    decreases nodes.len(),
{
    if nodes.len() > 0 {
        lemma_blocks_total_nonneg(nodes.drop_last());
    }
}

/// What a path on disk turned out to be.
pub enum PathKind {
    Directory,
    File { parent: Vec<u8> },
    Missing,
}

#[derive(Clone, Copy, Debug, PartialEq, Eq, Structural)]
pub enum MountError {
    /// The backup path is neither a directory nor a file.
    PathDoesNotExist,
}

/// The `backup mount` command: the backup folder (or a file in it), where to
/// mount, and the folder of cached manifests.
pub struct MountBackup {
    pub path: Vec<u8>,
    pub mountpoint: Vec<u8>,
    pub manifest_dir: Vec<u8>,
}

impl MountBackup {
    /// The backup directory to mount: the path itself when it is a directory, the
    /// folder that holds it when it is a file.
    pub fn run(self, kind: PathKind) -> (r: Result<Vec<u8>, MountError>)
        ensures
            match kind {
                PathKind::Directory => r matches Ok(d) && d@ == self.path@,
                PathKind::File { parent } => r matches Ok(d) && d@ == parent@,
                PathKind::Missing => r == Err::<Vec<u8>, MountError>(MountError::PathDoesNotExist),
            },
    {
        match kind {
            PathKind::Directory => Ok(self.path),
            PathKind::File { parent } => Ok(parent),
            PathKind::Missing => Err(MountError::PathDoesNotExist),
        }
    }
}

} // verus!
