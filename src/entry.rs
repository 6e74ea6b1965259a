//! Registry entries (directories and files) and the attributes reported for them.
use vstd::prelude::*;
use crate::item::{ItemView, content_bytes};
use crate::text::sanitized;

verus! {

/// Inode of the root directory.
pub const ROOT_INO: u64 = 1;

/// Inode of the static informational file in the root.
pub const README_INO: u64 = 2;

/// Inode given to the first entry discovered at run time; later ones count up.
pub const FIRST_DYNAMIC_INO: u64 = 4;

/// Name of the static informational file.
pub const README_NAME: &'static str = "README.txt";

/// How long, in seconds, a container listing is served from the cache.
pub const CACHE_TTL: u64 = 120;

/// Fixed attribute values shared by every entry.
pub const OWNER_UID: u32 = 501;
pub const OWNER_GID: u32 = 20;
pub const BLOCK_SIZE: u32 = 512;
pub const DIR_PERM: u16 = 0o755;
pub const FILE_PERM: u16 = 0o644;

#[derive(Clone, Copy, Debug, PartialEq, Eq, Structural)]
pub enum NodeKind {
    Directory,
    RegularFile,
}

/// Attributes of one node; times are seconds since the Unix epoch.
#[derive(Clone, Copy, Debug, PartialEq, Eq, Structural)]
pub struct Attr {
    pub ino: u64,
    pub size: u64,
    pub blocks: u64,
    pub atime: u64,
    pub mtime: u64,
    pub ctime: u64,
    pub crtime: u64,
    pub kind: NodeKind,
    pub perm: u16,
    pub nlink: u32,
    pub uid: u32,
    pub gid: u32,
    pub blksize: u32,
}

/// A container's cached listing: the inodes of its files in listing order, and
/// when the listing was fetched.
#[derive(Debug)]
pub struct DirCache {
    pub children: Vec<u64>,
    pub refreshed_at: u64,
}

#[derive(Debug)]
pub enum EntryKind {
    Directory { cache: Option<DirCache> },
    File { external_id: String, content: Vec<u8> },
}

/// One registered node that is neither the root nor the static file.
#[derive(Debug)]
pub struct Entry {
    pub name: String,
    pub ino: u64,
    pub created_at: u64,
    pub kind: EntryKind,
}

pub struct CacheView {
    pub children: Seq<u64>,
    pub refreshed_at: u64,
}

pub enum KindView {
    Directory { cache: Option<CacheView> },
    File { external_id: Seq<char>, content: Seq<u8> },
}

pub struct EntryView {
    pub name: Seq<char>,
    pub ino: u64,
    pub created_at: u64,
    pub kind: KindView,
}

impl View for DirCache {
    type V = CacheView;

    open spec fn view(&self) -> CacheView {
        CacheView { children: self.children@, refreshed_at: self.refreshed_at }
    }
}

impl View for Entry {
    type V = EntryView;

    open spec fn view(&self) -> EntryView {
        EntryView {
            name: self.name@,
            ino: self.ino,
            created_at: self.created_at,
            kind: match &self.kind {
                EntryKind::Directory { cache } => KindView::Directory {
                    cache: match cache {
                        Some(c) => Some(c@),
                        None => None,
                    },
                },
                EntryKind::File { external_id, content } => KindView::File {
                    external_id: external_id@,
                    content: content@,
                },
            },
        }
    }
}

pub open spec fn is_dir(e: EntryView) -> bool {
    e.kind is Directory
}

pub open spec fn is_file(e: EntryView) -> bool {
    e.kind is File
}

pub open spec fn cache_of(e: EntryView) -> Option<CacheView> {
    match e.kind {
        KindView::Directory { cache } => cache,
        KindView::File { .. } => None,
    }
}

pub open spec fn is_file_with_id(e: EntryView, id: Seq<char>) -> bool {
    match e.kind {
        KindView::File { external_id, .. } => external_id == id,
        KindView::Directory { .. } => false,
    }
}

pub open spec fn is_dir_named(e: EntryView, name: Seq<char>) -> bool {
    is_dir(e) && e.name == name
}

/// The entry that a first sighting of `item` creates.
pub open spec fn new_file(item: ItemView, ino: u64, now: u64) -> EntryView {
    EntryView {
        name: sanitized(item.title),
        ino,
        created_at: now,
        kind: KindView::File { external_id: item.external_id, content: content_bytes(item) },
    }
}

/// The entry that a first lookup of a container name creates.
pub open spec fn new_dir(name: Seq<char>, ino: u64, now: u64) -> EntryView {
    EntryView { name, ino, created_at: now, kind: KindView::Directory { cache: None } }
}

pub open spec fn dir_attr(ino: u64, created: u64, modified: u64) -> Attr {
    Attr {
        ino,
        size: 0,
        blocks: 0,
        atime: created,
        mtime: modified,
        ctime: created,
        crtime: created,
        kind: NodeKind::Directory,
        perm: DIR_PERM,
        nlink: 2,
        uid: OWNER_UID,
        gid: OWNER_GID,
        blksize: BLOCK_SIZE,
    }
}

pub open spec fn file_attr(ino: u64, size: u64, created: u64) -> Attr {
    Attr {
        ino,
        size,
        blocks: 1,
        atime: created,
        mtime: created,
        ctime: created,
        crtime: created,
        kind: NodeKind::RegularFile,
        perm: FILE_PERM,
        nlink: 1,
        uid: OWNER_UID,
        gid: OWNER_GID,
        blksize: BLOCK_SIZE,
    }
}

/// The attributes of a registered entry: a directory's modification time is
/// the time of its last listing, a file's size is the length of its content.
pub open spec fn attr_of(e: EntryView) -> Attr {
    match e.kind {
        KindView::Directory { cache } => dir_attr(
            e.ino,
            e.created_at,
            match cache {
                Some(c) => c.refreshed_at,
                None => e.created_at,
            },
        ),
        KindView::File { content, .. } => file_attr(e.ino, content.len() as u64, e.created_at),
    }
}

pub fn make_dir_attr(ino: u64, created: u64, modified: u64) -> (r: Attr)
    ensures
        r == dir_attr(ino, created, modified),
{
    Attr {
        ino,
        size: 0,
        blocks: 0,
        atime: created,
        mtime: modified,
        ctime: created,
        crtime: created,
        kind: NodeKind::Directory,
        perm: DIR_PERM,
        nlink: 2,
        uid: OWNER_UID,
        gid: OWNER_GID,
        blksize: BLOCK_SIZE,
    }
}

pub fn make_file_attr(ino: u64, size: u64, created: u64) -> (r: Attr)
    ensures
        r == file_attr(ino, size, created),
{
    Attr {
        ino,
        size,
        blocks: 1,
        atime: created,
        mtime: created,
        ctime: created,
        crtime: created,
        kind: NodeKind::RegularFile,
        perm: FILE_PERM,
        nlink: 1,
        uid: OWNER_UID,
        gid: OWNER_GID,
        blksize: BLOCK_SIZE,
    }
}

impl Entry {
    /// The attributes reported for this entry.
    pub fn attr(&self) -> (r: Attr)
        ensures
            r == attr_of(self@),
    {
        match &self.kind {
            EntryKind::Directory { cache } => {
                let modified = match cache {
                    Some(c) => c.refreshed_at,
                    None => self.created_at,
                };
                make_dir_attr(self.ino, self.created_at, modified)
            },
            EntryKind::File { content, .. } => make_file_attr(
                self.ino,
                content.len() as u64,
                self.created_at,
            ),
        }
    }
}

/// The index of the first element of `s` that satisfies `p`, or -1.
pub open spec fn first_index<T>(s: Seq<T>, p: spec_fn(T) -> bool) -> int
    decreases s.len(),
{
    if s.len() == 0 {
        -1
    } else {
        let k = first_index(s.drop_last(), p);
        if k >= 0 {
            k
        } else if p(s.last()) {
            s.len() - 1
        } else {
            -1
        }
    }
}

/// `first_index` finds the first match, and -1 means that nothing matches.
pub proof fn lemma_first_index<T>(s: Seq<T>, p: spec_fn(T) -> bool)
    ensures
        -1 <= first_index(s, p) < s.len(),
        first_index(s, p) >= 0 ==> p(s[first_index(s, p)]),
        forall|i: int| 0 <= i < first_index(s, p) ==> !p(#[trigger] s[i]),
        first_index(s, p) == -1 ==> forall|i: int| 0 <= i < s.len() ==> !p(#[trigger] s[i]),
    decreases s.len(),
{
    if s.len() > 0 {
        lemma_first_index(s.drop_last(), p);
        assert(forall|i: int| 0 <= i < s.len() - 1 ==> s.drop_last()[i] == s[i]);
    }
}

/// A match at `i` with none before it is the first match.
pub proof fn lemma_first_index_at<T>(s: Seq<T>, p: spec_fn(T) -> bool, i: int)
    requires
        0 <= i < s.len(),
        p(s[i]),
        forall|k: int| 0 <= k < i ==> !p(#[trigger] s[k]),
    ensures
        first_index(s, p) == i,
{
    lemma_first_index(s, p);
}

/// Appending keeps an existing first match, and finds the new element otherwise.
pub proof fn lemma_first_index_push<T>(s: Seq<T>, x: T, p: spec_fn(T) -> bool)
    ensures
        first_index(s.push(x), p) == if first_index(s, p) >= 0 {
            first_index(s, p)
        } else if p(x) {
            s.len() as int
        } else {
            -1
        },
{
    assert(s.push(x).drop_last() =~= s);
}

} // verus!
