//! The filesystem state: the inode registry, the per-container listing cache,
//! and the request handlers built on them.
use vstd::prelude::*;
use crate::entry::{
    Attr, CacheView, DirCache, Entry, EntryKind, EntryView, KindView, NodeKind, attr_of, cache_of, dir_attr,
    file_attr, first_index, is_dir, is_dir_named, is_file, is_file_with_id, lemma_first_index,
    lemma_first_index_at, lemma_first_index_push, make_dir_attr, make_file_attr, new_dir, new_file,
    CACHE_TTL, FIRST_DYNAMIC_INO, README_INO, README_NAME, ROOT_INO,
};
use crate::item::{ContentItem, ItemView, item_content, item_views};
use crate::text::{contains_char, sanitize_name};

verus! {

/// Ways in which a request can fail.
#[derive(Clone, Copy, Debug, PartialEq, Eq, Structural)]
pub enum FsError {
    /// No such inode, or no such name under the given directory.
    NotFound,
    /// Fetching a container's listing from the platform failed.
    IoFailure,
    /// A directory was asked for file content.
    IsDirectory,
    /// A file was asked for a directory listing.
    NotDirectory,
    /// No inode numbers are left for new entries.
    NoSpace,
}

/// One entry of a directory listing; `offset` is the position of the entry
/// that follows it, from which a later listing may resume.
#[derive(Debug)]
pub struct DirEntry {
    pub ino: u64,
    pub kind: NodeKind,
    pub name: String,
    pub offset: u64,
}

impl View for DirEntry {
    type V = (u64, NodeKind, Seq<char>, u64);

    open spec fn view(&self) -> (u64, NodeKind, Seq<char>, u64) {
        (self.ino, self.kind, self.name@, self.offset)
    }
}

/// Marks a failed fetch of a container listing.
#[derive(Clone, Copy, Debug, PartialEq, Eq, Structural)]
pub struct FetchError;

/// The whole filesystem state. Entry `i` of the registry has inode
/// `FIRST_DYNAMIC_INO + i`; entries are never removed.
pub struct RedditFS {
    entries: Vec<Entry>,
    next_ino: u64,
    started_at: u64,
}

/// The content of the static informational file: "Reddit filesystem\n".
pub open spec fn readme_bytes() -> Seq<u8> {
    seq![82u8, 101, 100, 100, 105, 116, 32, 102, 105, 108, 101, 115, 121, 115, 116, 101, 109, 10]
}

/// The root's attributes; its times are the time the filesystem started.
pub open spec fn root_attr(started: u64) -> Attr {
    dir_attr(ROOT_INO, started, started)
}

/// The static file's attributes; its times are the time the filesystem started.
pub open spec fn readme_attr(started: u64) -> Attr {
    file_attr(README_INO, readme_bytes().len() as u64, started)
}

/// The registered entry with inode `ino`, if any.
pub open spec fn entry_of(m: Seq<EntryView>, ino: u64) -> Option<EntryView> {
    if FIRST_DYNAMIC_INO <= ino && ino - FIRST_DYNAMIC_INO < m.len() {
        Some(m[ino - FIRST_DYNAMIC_INO])
    } else {
        None
    }
}

/// Whether `ino` names a registered file.
pub open spec fn is_file_ino(m: Seq<EntryView>, ino: u64) -> bool {
    match entry_of(m, ino) {
        Some(e) => is_file(e),
        None => false,
    }
}

/// What the registry upholds: inodes follow positions and fit in 64 bits,
/// cached listings name registered files, no two files share an external
/// identity and no two directories share a name.
pub open spec fn registry_wf(m: Seq<EntryView>) -> bool {
    &&& FIRST_DYNAMIC_INO + m.len() <= u64::MAX
    &&& forall|i: int| 0 <= i < m.len() ==> #[trigger] m[i].ino == FIRST_DYNAMIC_INO + i
    &&& forall|i: int|
        0 <= i < m.len() && #[trigger] cache_of(m[i]) is Some ==> FIRST_DYNAMIC_INO + cache_of(
            m[i],
        )->0.children.len() <= u64::MAX
    &&& forall|i: int, k: int|
        0 <= i < m.len() && cache_of(m[i]) is Some && 0 <= k < cache_of(m[i])->0.children.len()
            ==> is_file_ino(m, #[trigger] cache_of(m[i])->0.children[k])
    &&& forall|i: int, j: int|
        0 <= i < m.len() && 0 <= j < m.len() && is_file(m[i]) && #[trigger] is_file_with_id(
            m[j],
            m[i].kind->File_external_id,
        ) ==> i == j
    &&& forall|i: int, j: int|
        0 <= i < m.len() && 0 <= j < m.len() && is_dir(m[i]) && #[trigger] is_dir_named(
            m[j],
            m[i].name,
        ) ==> i == j
}

pub open spec fn file_pred(id: Seq<char>) -> spec_fn(EntryView) -> bool {
    |e: EntryView| is_file_with_id(e, id)
}

pub open spec fn dir_pred(name: Seq<char>) -> spec_fn(EntryView) -> bool {
    |e: EntryView| is_dir_named(e, name)
}

/// Position of the file with external identity `id`, or -1.
pub open spec fn find_file(m: Seq<EntryView>, id: Seq<char>) -> int {
    first_index(m, file_pred(id))
}

/// Position of the directory named `name`, or -1.
pub open spec fn find_dir(m: Seq<EntryView>, name: Seq<char>) -> int {
    first_index(m, dir_pred(name))
}

/// The registry after `item` is seen: unchanged if a file with its external
/// identity exists, else with a new file at the next inode.
pub open spec fn with_item(m: Seq<EntryView>, item: ItemView, now: u64) -> Seq<EntryView> {
    if find_file(m, item.external_id) >= 0 {
        m
    } else {
        m.push(new_file(item, (FIRST_DYNAMIC_INO + m.len()) as u64, now))
    }
}

/// The registry after the container `name` is looked up: unchanged if a
/// directory of that name exists, else with a new, unlisted directory.
pub open spec fn with_dir(m: Seq<EntryView>, name: Seq<char>, now: u64) -> Seq<EntryView> {
    if find_dir(m, name) >= 0 {
        m
    } else {
        m.push(new_dir(name, (FIRST_DYNAMIC_INO + m.len()) as u64, now))
    }
}

/// Appending one entry at the next inode keeps the registry well formed, as
/// long as it brings no second file of an identity or directory of a name.
pub(crate) proof fn lemma_push_wf(m: Seq<EntryView>, e: EntryView)
    requires
        registry_wf(m),
        FIRST_DYNAMIC_INO + m.len() + 1 <= u64::MAX,
        e.ino == FIRST_DYNAMIC_INO + m.len(),
        cache_of(e) is None,
        is_file(e) ==> find_file(m, e.kind->File_external_id) == -1,
        is_dir(e) ==> find_dir(m, e.name) == -1,
    ensures
        registry_wf(m.push(e)),
        forall|ino: u64| #[trigger] entry_of(m, ino) is Some ==> entry_of(m.push(e), ino) == entry_of(m, ino),
{
    let m2 = m.push(e);
    assert forall|ino: u64| #[trigger] entry_of(m, ino) is Some implies entry_of(m2, ino) == entry_of(m, ino) by {
    }
    assert forall|i: int, k: int|
        0 <= i < m2.len() && cache_of(m2[i]) is Some && 0 <= k < cache_of(m2[i])->0.children.len()
            implies is_file_ino(m2, #[trigger] cache_of(m2[i])->0.children[k]) by {
        assert(m2[i] == m[i]);
        assert(is_file_ino(m, cache_of(m[i])->0.children[k]));
    }
    if is_file(e) {
        lemma_first_index(m, file_pred(e.kind->File_external_id));
    }
    if is_dir(e) {
        lemma_first_index(m, dir_pred(e.name));
    }
    assert forall|i: int, j: int|
        0 <= i < m2.len() && 0 <= j < m2.len() && is_file(m2[i]) && #[trigger] is_file_with_id(
            m2[j],
            m2[i].kind->File_external_id,
        ) implies i == j by {
        if i == m.len() && j < m.len() {
            assert(m2[j] == m[j]);
            assert(file_pred(e.kind->File_external_id)(m[j]));
        } else if j == m.len() && i < m.len() {
            assert(m2[i] == m[i]);
            assert(is_file_with_id(m[i], e.kind->File_external_id));
            assert(file_pred(e.kind->File_external_id)(m[i]));
        } else if i < m.len() && j < m.len() {
            assert(m2[i] == m[i] && m2[j] == m[j]);
            assert(is_file_with_id(m[j], m[i].kind->File_external_id));
        }
    }
    assert forall|i: int, j: int|
        0 <= i < m2.len() && 0 <= j < m2.len() && is_dir(m2[i]) && #[trigger] is_dir_named(
            m2[j],
            m2[i].name,
        ) implies i == j by {
        if i == m.len() && j < m.len() {
            assert(dir_pred(e.name)(m[j]));
        }
        if j == m.len() && i < m.len() {
            assert(dir_pred(e.name)(m[i]));
        }
    }
}

/// The registry after each item of a listing is seen, in listing order.
pub open spec fn after_items(m: Seq<EntryView>, items: Seq<ItemView>, now: u64) -> Seq<EntryView>
    decreases items.len(),
{
    if items.len() == 0 {
        m
    } else {
        with_item(after_items(m, items.drop_last(), now), items.last(), now)
    }
}

/// The inode of the file that stands for each item of a listing.
pub open spec fn item_inos(m: Seq<EntryView>, items: Seq<ItemView>) -> Seq<u64> {
    Seq::new(
        items.len(),
        |j: int| (FIRST_DYNAMIC_INO + find_file(m, items[j].external_id)) as u64,
    )
}

/// `s` with each value kept at its first place only.
pub open spec fn distinct(s: Seq<u64>) -> Seq<u64>
    decreases s.len(),
{
    if s.len() == 0 {
        s
    } else {
        let d = distinct(s.drop_last());
        if d.contains(s.last()) {
            d
        } else {
            d.push(s.last())
        }
    }
}

/// The inodes that a directory lists after taking in `items`: the files of
/// the items in listing order, each listed once, where it first appears.
pub open spec fn listing_inos(m: Seq<EntryView>, items: Seq<ItemView>) -> Seq<u64> {
    distinct(item_inos(m, items))
}

/// The directory at position `i` with `cache` as its listing.
pub open spec fn with_cache(m: Seq<EntryView>, i: int, cache: CacheView) -> Seq<EntryView> {
    m.update(
        i,
        EntryView {
            name: m[i].name,
            ino: m[i].ino,
            created_at: m[i].created_at,
            kind: KindView::Directory { cache: Some(cache) },
        },
    )
}

/// The registry after the directory at position `i` has taken in a fetched
/// listing at time `now`: every item is materialized, then the directory's
/// cache is replaced by the items' inodes in listing order, each listed once.
pub open spec fn with_listing(m: Seq<EntryView>, i: int, items: Seq<ItemView>, now: u64) -> Seq<
    EntryView,
> {
    let m2 = after_items(m, items, now);
    with_cache(m2, i, CacheView { children: listing_inos(m2, items), refreshed_at: now })
}

/// Whether `ino` names a registered container directory.
pub open spec fn is_container(m: Seq<EntryView>, ino: u64) -> bool {
    match entry_of(m, ino) {
        Some(e) => is_dir(e),
        None => false,
    }
}

/// Whether there are inode numbers left for `n` new entries.
pub open spec fn has_room(m: Seq<EntryView>, n: int) -> bool {
    FIRST_DYNAMIC_INO + m.len() + n <= u64::MAX
}

/// Whether a listing fetched at `refreshed_at` is too old to serve at `now`.
pub open spec fn is_expired(refreshed_at: u64, now: u64) -> bool {
    now > refreshed_at && now - refreshed_at > CACHE_TTL
}

/// Whether listing a container from position `offset` at `now` needs a fetch:
/// it was never listed, or its listing has expired and `offset` is within it.
pub open spec fn needs_fetch(cache: Option<CacheView>, offset: u64, now: u64) -> bool {
    match cache {
        None => true,
        Some(c) => offset < c.children.len() + 2 && is_expired(c.refreshed_at, now),
    }
}

/// The error for an inode that is not a directory.
pub open spec fn dir_error(m: Seq<EntryView>, ino: u64) -> FsError {
    if ino == README_INO || is_file_ino(m, ino) {
        FsError::NotDirectory
    } else {
        FsError::NotFound
    }
}

pub open spec fn cached_children(m: Seq<EntryView>, ino: u64) -> Seq<u64> {
    match cache_of(entry_of(m, ino)->0) {
        Some(c) => c.children,
        None => Seq::empty(),
    }
}

/// The container directories of the registry, in registry order.
pub open spec fn containers(m: Seq<EntryView>) -> Seq<(u64, NodeKind, Seq<char>)>
    decreases m.len(),
{
    if m.len() == 0 {
        Seq::empty()
    } else {
        let r = containers(m.drop_last());
        if is_dir(m.last()) {
            r.push((m.last().ino, NodeKind::Directory, m.last().name))
        } else {
            r
        }
    }
}

/// The `.` and `..` entries of the directory `ino`, whose parent is the root.
pub open spec fn dot_entries(ino: u64) -> Seq<(u64, NodeKind, Seq<char>)> {
    seq![(ino, NodeKind::Directory, seq!['.']), (ROOT_INO, NodeKind::Directory, seq!['.', '.'])]
}

/// The files named by a cached listing, in listing order.
pub open spec fn child_entries(m: Seq<EntryView>, children: Seq<u64>) -> Seq<
    (u64, NodeKind, Seq<char>),
> {
    Seq::new(
        children.len(),
        |k: int| (children[k], NodeKind::RegularFile, entry_of(m, children[k])->0.name),
    )
}

/// The complete, ordered listing of the directory `ino`.
pub open spec fn dir_listing(m: Seq<EntryView>, ino: u64) -> Seq<(u64, NodeKind, Seq<char>)> {
    if ino == ROOT_INO {
        dot_entries(ROOT_INO).push((README_INO, NodeKind::RegularFile, README_NAME@)) + containers(m)
    } else {
        dot_entries(ino) + child_entries(m, cached_children(m, ino))
    }
}

/// A listing with each entry given the position of its successor.
pub open spec fn numbered(l: Seq<(u64, NodeKind, Seq<char>)>) -> Seq<(u64, NodeKind, Seq<char>, u64)> {
    Seq::new(l.len(), |j: int| (l[j].0, l[j].1, l[j].2, (j + 1) as u64))
}

/// The part of a listing that starts at position `offset`.
pub open spec fn page(l: Seq<(u64, NodeKind, Seq<char>)>, offset: u64) -> Seq<
    (u64, NodeKind, Seq<char>, u64),
> {
    if offset >= l.len() {
        Seq::empty()
    } else {
        numbered(l).subrange(offset as int, l.len() as int)
    }
}

pub open spec fn entry_views(v: Seq<DirEntry>) -> Seq<(u64, NodeKind, Seq<char>, u64)> {
    v.map_values(|d: DirEntry| d@)
}

pub open spec fn name_pred(m: Seq<EntryView>, name: Seq<char>) -> spec_fn(u64) -> bool {
    |c: u64| entry_of(m, c)->0.name == name
}

/// The first file of the cached listing of `parent` whose name is `name`.
/// Titles are not made unique: two items with one title both show in a
/// listing under that name, and a lookup finds the first of them.
pub open spec fn child_named(m: Seq<EntryView>, parent: u64, name: Seq<char>) -> Option<EntryView> {
    let cs = cached_children(m, parent);
    let k = first_index(cs, name_pred(m, name));
    if is_container(m, parent) && k >= 0 {
        Some(entry_of(m, cs[k])->0)
    } else {
        None
    }
}

proof fn lemma_numbered_push(l: Seq<(u64, NodeKind, Seq<char>)>, x: (u64, NodeKind, Seq<char>))
    ensures
        numbered(l.push(x)) =~= numbered(l).push((x.0, x.1, x.2, (l.len() + 1) as u64)),
{
}

/// Whether `x` occurs in `v`.
fn contains_ino(v: &Vec<u64>, x: u64) -> (r: bool)
    ensures
        r == v@.contains(x),
{
    let mut i: usize = 0;
    while i < v.len()
        invariant
            i <= v@.len(),
            forall|k: int| 0 <= k < i ==> v@[k] != x,
        decreases v@.len() - i,
    {
        if v[i] == x {
            assert(v@[i as int] == x);
            return true;
        }
        i += 1;
    }
    false
}

fn dot_name() -> (r: String)
    ensures
        r@ == seq!['.'],
{
    let mut s = String::new();
    s.push('.');
    s
}

fn dot_dot_name() -> (r: String)
    ensures
        r@ == seq!['.', '.'],
{
    let mut s = String::new();
    s.push('.');
    s.push('.');
    assert(s@ =~= seq!['.', '.']);
    s
}

impl RedditFS {
    /// The registry as a sequence of entry values, in inode order.
    pub closed spec fn model(&self) -> Seq<EntryView> {
        self.entries@.map_values(|e: Entry| e@)
    }

    /// When the filesystem started, in seconds since the Unix epoch.
    pub closed spec fn started_at(&self) -> u64 {
        self.started_at
    }

    pub closed spec fn counter_ok(&self) -> bool {
        self.next_ino == FIRST_DYNAMIC_INO + self.entries@.len()
    }

    pub open spec fn wf(&self) -> bool {
        self.counter_ok() && registry_wf(self.model())
    }

    proof fn lemma_model(&self)
        ensures
            self.model().len() == self.entries@.len(),
            forall|i: int| 0 <= i < self.entries@.len() ==> #[trigger] self.model()[i] == self.entries@[i]@,
    {
    }

    /// An empty filesystem started at `now`: the root and the static file only.
    pub fn new(now: u64) -> (r: RedditFS)
        ensures
            r.wf(),
            r.started_at() == now,
            r.model() == Seq::<EntryView>::empty(),
    {
        let r = RedditFS { entries: Vec::new(), next_ino: FIRST_DYNAMIC_INO, started_at: now };
        assert(r.model() =~= Seq::<EntryView>::empty());
        r
    }

    /// The attributes of the node with inode `ino`.
    pub fn getattr(&self, ino: u64) -> (r: Result<Attr, FsError>)
        requires
            self.wf(),
        ensures
            ino == ROOT_INO ==> r == Ok::<Attr, FsError>(root_attr(self.started_at())),
            ino == README_INO ==> r == Ok::<Attr, FsError>(readme_attr(self.started_at())),
            ino != ROOT_INO && ino != README_INO ==> r == match entry_of(self.model(), ino) {
                Some(e) => Ok::<Attr, FsError>(attr_of(e)),
                None => Err(FsError::NotFound),
            },
    {
        proof {
            self.lemma_model();
        }
        if ino == ROOT_INO {
            Ok(make_dir_attr(ROOT_INO, self.started_at, self.started_at))
        } else if ino == README_INO {
            Ok(make_file_attr(README_INO, 18, self.started_at))
        } else {
            match self.get(ino) {
                Some(e) => Ok(e.attr()),
                None => Err(FsError::NotFound),
            }
        }
    }

    /// The registered entry with inode `ino`.
    fn get(&self, ino: u64) -> (r: Option<&Entry>)
        requires
            self.wf(),
        ensures
            match entry_of(self.model(), ino) {
                Some(e) => r is Some && r->0@ == e,
                None => r is None,
            },
    {
        proof {
            self.lemma_model();
        }
        if ino >= FIRST_DYNAMIC_INO && ino - FIRST_DYNAMIC_INO < self.entries.len() as u64 {
            let i = (ino - FIRST_DYNAMIC_INO) as usize;
            Some(&self.entries[i])
        } else {
            None
        }
    }

    /// The position of the container directory with inode `ino`.
    fn dir_index(&self, ino: u64) -> (r: Option<usize>)
        requires
            self.wf(),
        ensures
            r is Some <==> is_container(self.model(), ino),
            r is Some ==> r->0 == ino - FIRST_DYNAMIC_INO,
    {
        proof {
            self.lemma_model();
        }
        if ino >= FIRST_DYNAMIC_INO && ino - FIRST_DYNAMIC_INO < self.entries.len() as u64 {
            let i = (ino - FIRST_DYNAMIC_INO) as usize;
            match &self.entries[i].kind {
                EntryKind::Directory { .. } => Some(i),
                EntryKind::File { .. } => None,
            }
        } else {
            None
        }
    }

    /// The whole content of the file with inode `ino`.
    pub fn read(&self, ino: u64) -> (r: Result<Vec<u8>, FsError>)
        requires
            self.wf(),
        ensures
            ino == README_INO ==> r is Ok && r->Ok_0@ == readme_bytes(),
            ino == ROOT_INO ==> r == Err::<Vec<u8>, FsError>(FsError::IsDirectory),
            ino != ROOT_INO && ino != README_INO ==> match entry_of(self.model(), ino) {
                Some(e) => match e.kind {
                    KindView::File { content, .. } => r is Ok && r->Ok_0@ == content,
                    KindView::Directory { .. } => r == Err::<Vec<u8>, FsError>(
                        FsError::IsDirectory,
                    ),
                },
                None => r == Err::<Vec<u8>, FsError>(FsError::NotFound),
            },
    {
        if ino == README_INO {
            Ok(vec![82u8, 101, 100, 100, 105, 116, 32, 102, 105, 108, 101, 115, 121, 115, 116, 101, 109, 10])
        } else if ino == ROOT_INO {
            Err(FsError::IsDirectory)
        } else {
            match self.get(ino) {
                Some(e) => match &e.kind {
                    EntryKind::File { content, .. } => {
                        let c = content.clone();
                        assert(c@ =~= content@);
                        Ok(c)
                    },
                    EntryKind::Directory { .. } => Err(FsError::IsDirectory),
                },
                None => Err(FsError::NotFound),
            }
        }
    }

    /// Position of the file with external identity `id`, if one is registered.
    fn find_file_index(&self, id: &String) -> (r: Option<usize>)
        requires
            self.wf(),
        ensures
            match r {
                Some(i) => i == find_file(self.model(), id@),
                None => find_file(self.model(), id@) == -1,
            },
    {
        proof {
            self.lemma_model();
            lemma_first_index(self.model(), file_pred(id@));
        }
        let mut i: usize = 0;
        while i < self.entries.len()
            invariant
                self.wf(),
                i <= self.entries@.len(),
                forall|k: int| 0 <= k < i ==> !file_pred(id@)(#[trigger] self.model()[k]),
            decreases self.entries@.len() - i,
        {
            proof {
                self.lemma_model();
            }
            if let EntryKind::File { external_id, .. } = &self.entries[i].kind {
                if *external_id == *id {
                    proof {
                        lemma_first_index_at(self.model(), file_pred(id@), i as int);
                    }
                    return Some(i);
                }
            }
            i += 1;
        }
        proof {
            self.lemma_model();
            if find_file(self.model(), id@) >= 0 {
                let f = find_file(self.model(), id@);
                assert(file_pred(id@)(self.model()[f]));
            }
        }
        None
    }

    /// Position of the directory named `name`, if one is registered.
    fn find_dir_index(&self, name: &String) -> (r: Option<usize>)
        requires
            self.wf(),
        ensures
            match r {
                Some(i) => i == find_dir(self.model(), name@),
                None => find_dir(self.model(), name@) == -1,
            },
    {
        proof {
            self.lemma_model();
            lemma_first_index(self.model(), dir_pred(name@));
        }
        let mut i: usize = 0;
        while i < self.entries.len()
            invariant
                self.wf(),
                i <= self.entries@.len(),
                forall|k: int| 0 <= k < i ==> !dir_pred(name@)(#[trigger] self.model()[k]),
            decreases self.entries@.len() - i,
        {
            proof {
                self.lemma_model();
            }
            if let EntryKind::Directory { .. } = &self.entries[i].kind {
                if self.entries[i].name == *name {
                    proof {
                        lemma_first_index_at(self.model(), dir_pred(name@), i as int);
                    }
                    return Some(i);
                }
            }
            i += 1;
        }
        proof {
            self.lemma_model();
            if find_dir(self.model(), name@) >= 0 {
                let f = find_dir(self.model(), name@);
                assert(dir_pred(name@)(self.model()[f]));
            }
        }
        None
    }

    /// Registers `item` as a file unless its external identity is known, and
    /// returns the inode of the file that stands for it.
    fn materialize_item(&mut self, item: &ContentItem, now: u64) -> (r: u64)
        requires
            old(self).wf(),
            FIRST_DYNAMIC_INO + old(self).model().len() < u64::MAX,
        ensures
            final(self).wf(),
            final(self).started_at() == old(self).started_at(),
            final(self).model() == with_item(old(self).model(), item@, now),
            find_file(final(self).model(), item@.external_id) >= 0,
            r == FIRST_DYNAMIC_INO + find_file(final(self).model(), item@.external_id),
    {
        proof {
            self.lemma_model();
        }
        match self.find_file_index(&item.external_id) {
            Some(i) => {
                proof {
                    lemma_first_index(self.model(), file_pred(item@.external_id));
                }
                FIRST_DYNAMIC_INO + i as u64
            },
            None => {
                let ino = self.next_ino;
                let e = Entry {
                    name: sanitize_name(item.title.as_str()),
                    ino,
                    created_at: now,
                    kind: EntryKind::File {
                        external_id: item.external_id.clone(),
                        content: item_content(item),
                    },
                };
                let ghost m = self.model();
                assert(e@ == new_file(item@, ino, now));
                proof {
                    lemma_push_wf(m, e@);
                    lemma_first_index_push(m, e@, file_pred(item@.external_id));
                }
                self.entries.push(e);
                self.next_ino = self.next_ino + 1;
                assert(self.model() =~= m.push(e@));
                ino
            },
        }
    }

    /// Registers the container `name` as a directory unless one of that name
    /// exists, and returns its position.
    fn materialize_dir(&mut self, name: &str, now: u64) -> (r: Result<usize, FsError>)
        requires
            old(self).wf(),
        ensures
            final(self).wf(),
            final(self).started_at() == old(self).started_at(),
            match r {
                Ok(i) => final(self).model() == with_dir(old(self).model(), name@, now) && i
                    == find_dir(final(self).model(), name@),
                Err(e) => e == FsError::NoSpace && find_dir(old(self).model(), name@) == -1
                    && FIRST_DYNAMIC_INO + old(self).model().len() == u64::MAX && final(self).model()
                    == old(self).model(),
            },
    {
        proof {
            self.lemma_model();
        }
        let owned = name.to_owned();
        match self.find_dir_index(&owned) {
            Some(i) => Ok(i),
            None => {
                if self.next_ino == u64::MAX {
                    return Err(FsError::NoSpace);
                }
                let ino = self.next_ino;
                let i = self.entries.len();
                let e = Entry {
                    name: owned,
                    ino,
                    created_at: now,
                    kind: EntryKind::Directory { cache: None },
                };
                let ghost m = self.model();
                assert(e@ == new_dir(name@, ino, now));
                proof {
                    lemma_push_wf(m, e@);
                    lemma_first_index_push(m, e@, dir_pred(name@));
                }
                self.entries.push(e);
                self.next_ino = self.next_ino + 1;
                assert(self.model() =~= m.push(e@));
                Ok(i)
            },
        }
    }

    /// Takes a fetched listing into the directory at position `i`.
    fn refresh_dir(&mut self, i: usize, items: &Vec<ContentItem>, now: u64)
        requires
            old(self).wf(),
            i < old(self).model().len(),
            is_dir(old(self).model()[i as int]),
            has_room(old(self).model(), items@.len() as int),
        ensures
            final(self).wf(),
            final(self).started_at() == old(self).started_at(),
            final(self).model() == with_listing(
                old(self).model(),
                i as int,
                item_views(items@),
                now,
            ),
    {
        let ghost m0 = self.model();
        let ghost started = self.started_at;
        let ghost views = item_views(items@);
        let mut inos: Vec<u64> = Vec::new();
        let mut j: usize = 0;
        while j < items.len()
            invariant
                self.wf(),
                self.started_at == started,
                j <= items@.len(),
                views == item_views(items@),
                has_room(m0, items@.len() as int),
                m0.len() <= self.model().len() <= m0.len() + j,
                forall|k: int| 0 <= k < m0.len() ==> #[trigger] self.model()[k] == m0[k],
                self.model() == after_items(m0, views.take(j as int), now),
                forall|k: int| 0 <= k < j ==> find_file(self.model(), #[trigger] views[k].external_id) >= 0,
                inos@ == distinct(item_inos(self.model(), views.take(j as int))),
            decreases items@.len() - j,
        {
            let ghost before = self.model();
            let ino = self.materialize_item(&items[j], now);
            proof {
                assert(views.take(j + 1).drop_last() =~= views.take(j as int));
                assert(views[j as int] == items@[j as int]@);
                assert forall|k: int| 0 <= k < j implies find_file(
                    self.model(),
                    #[trigger] views[k].external_id,
                ) == find_file(before, views[k].external_id) by {
                    if find_file(before, items@[j as int]@.external_id) < 0 {
                        let e = new_file(items@[j as int]@, (FIRST_DYNAMIC_INO + before.len()) as u64, now);
                        lemma_first_index_push(before, e, file_pred(views[k].external_id));
                    }
                }
                let s = item_inos(self.model(), views.take(j + 1));
                assert(s.drop_last() =~= item_inos(before, views.take(j as int)));
                assert(s.last() == ino);
            }
            if !contains_ino(&inos, ino) {
                inos.push(ino);
            }
            j += 1;
        }
        assert(views.take(items@.len() as int) =~= views);
        proof {
            self.lemma_model();
            crate::laws::lemma_with_listing(m0, i as int, views, now);
        }
        let ghost m2 = self.model();
        let old_e = &self.entries[i];
        let e = Entry {
            name: old_e.name.clone(),
            ino: old_e.ino,
            created_at: old_e.created_at,
            kind: EntryKind::Directory { cache: Some(DirCache { children: inos, refreshed_at: now }) },
        };
        let ghost cache = CacheView { children: listing_inos(m2, views), refreshed_at: now };
        assert(e@ == with_cache(m2, i as int, cache)[i as int]);
        self.entries.set(i, e);
        assert(self.model() =~= with_cache(m2, i as int, cache));
    }

    /// Takes the outcome of fetching the listing of container `ino` at time
    /// `now`. A failed fetch changes nothing and is an I/O error; a fetched
    /// listing replaces the container's cache as `with_listing` says.
    pub fn finish_refresh(
        &mut self,
        ino: u64,
        fetched: Result<Vec<ContentItem>, FetchError>,
        now: u64,
    ) -> (r: Result<(), FsError>)
        requires
            old(self).wf(),
        ensures
            final(self).wf(),
            final(self).started_at() == old(self).started_at(),
            !is_container(old(self).model(), ino) ==> r == Err::<(), FsError>(FsError::NotFound)
                && final(self).model() == old(self).model(),
            is_container(old(self).model(), ino) && fetched is Err ==> r == Err::<(), FsError>(
                FsError::IoFailure,
            ) && final(self).model() == old(self).model(),
            is_container(old(self).model(), ino) && fetched is Ok && !has_room(
                old(self).model(),
                fetched->Ok_0@.len() as int,
            ) ==> r == Err::<(), FsError>(FsError::NoSpace) && final(self).model() == old(
                self,
            ).model(),
            is_container(old(self).model(), ino) && fetched is Ok && has_room(
                old(self).model(),
                fetched->Ok_0@.len() as int,
            ) ==> r == Ok::<(), FsError>(()) && final(self).model() == with_listing(
                old(self).model(),
                ino - FIRST_DYNAMIC_INO,
                item_views(fetched->Ok_0@),
                now,
            ),
    {
        let i = match self.dir_index(ino) {
            Some(i) => i,
            None => return Err(FsError::NotFound),
        };
        match fetched {
            Err(_) => Err(FsError::IoFailure),
            Ok(items) => {
                if items.len() as u64 > u64::MAX - self.next_ino {
                    Err(FsError::NoSpace)
                } else {
                    self.refresh_dir(i, &items, now);
                    Ok(())
                }
            },
        }
    }

    /// Decides whether listing directory `ino` from `offset` at time `now`
    /// needs a fetch first, and if so returns the container's name to fetch.
    /// The root never needs one.
    pub fn refresh_target(&self, ino: u64, offset: u64, now: u64) -> (r: Result<
        Option<String>,
        FsError,
    >)
        requires
            self.wf(),
        ensures
            ino == ROOT_INO ==> r == Ok::<Option<String>, FsError>(None),
            ino != ROOT_INO && !is_container(self.model(), ino) ==> r == Err::<
                Option<String>,
                FsError,
            >(dir_error(self.model(), ino)),
            is_container(self.model(), ino) ==> r is Ok && (r->Ok_0 is Some <==> needs_fetch(
                cache_of(entry_of(self.model(), ino)->0),
                offset,
                now,
            )),
            is_container(self.model(), ino) && r is Ok && r->Ok_0 is Some ==> r->Ok_0->0@ == entry_of(
                self.model(),
                ino,
            )->0.name,
    {
        proof {
            self.lemma_model();
        }
        if ino == ROOT_INO {
            return Ok(None);
        }
        match self.get(ino) {
            Some(e) => match &e.kind {
                EntryKind::Directory { cache } => {
                    let stale = match cache {
                        None => true,
                        Some(c) => {
                            let n = c.children.len() as u64;
                            let within = offset < n || offset - n < 2;
                            within && now > c.refreshed_at && now - c.refreshed_at > CACHE_TTL
                        },
                    };
                    if stale {
                        Ok(Some(e.name.clone()))
                    } else {
                        Ok(None)
                    }
                },
                EntryKind::File { .. } => Err(FsError::NotDirectory),
            },
            None => if ino == README_INO {
                Err(FsError::NotDirectory)
            } else {
                Err(FsError::NotFound)
            },
        }
    }

    /// The entries of directory `ino` from position `offset` on, as the
    /// registry holds them now: a container shows its cached listing and
    /// triggers no fetch. An offset at or past the end gives no entries.
    pub fn list_entries(&self, ino: u64, offset: u64) -> (r: Result<Vec<DirEntry>, FsError>)
        requires
            self.wf(),
        ensures
            ino == ROOT_INO || is_container(self.model(), ino) ==> r is Ok && entry_views(
                r->Ok_0@,
            ) == page(dir_listing(self.model(), ino), offset),
            ino != ROOT_INO && !is_container(self.model(), ino) ==> r == Err::<
                Vec<DirEntry>,
                FsError,
            >(dir_error(self.model(), ino)),
    {
        proof {
            self.lemma_model();
        }
        let ghost m = self.model();
        let mut all: Vec<DirEntry> = Vec::new();
        all.push(DirEntry { ino, kind: NodeKind::Directory, name: dot_name(), offset: 1 });
        all.push(DirEntry { ino: ROOT_INO, kind: NodeKind::Directory, name: dot_dot_name(), offset: 2 });
        assert(entry_views(all@) =~= numbered(dot_entries(ino)));
        if ino == ROOT_INO {
            all.push(
                DirEntry {
                    ino: README_INO,
                    kind: NodeKind::RegularFile,
                    name: README_NAME.to_owned(),
                    offset: 3,
                },
            );
            let ghost base = dot_entries(ROOT_INO).push(
                (README_INO, NodeKind::RegularFile, README_NAME@),
            );
            assert(entry_views(all@) =~= numbered(base + containers(m.take(0))));
            let mut i: usize = 0;
            while i < self.entries.len()
                invariant
                    self.wf(),
                    m == self.model(),
                    i <= self.entries@.len(),
                    base.len() == 3,
                    all@.len() == base.len() + containers(m.take(i as int)).len(),
                    all@.len() <= 3 + i,
                    entry_views(all@) == numbered(base + containers(m.take(i as int))),
                decreases self.entries@.len() - i,
            {
                proof {
                    self.lemma_model();
                    assert(m.take(i + 1).drop_last() =~= m.take(i as int));
                    assert(m.take(i + 1).last() == m[i as int]);
                }
                let e = &self.entries[i];
                if let EntryKind::Directory { .. } = &e.kind {
                    let ghost prev = base + containers(m.take(i as int));
                    let ghost x = (e.ino, NodeKind::Directory, e.name@);
                    proof {
                        assert(containers(m.take(i + 1)) == containers(m.take(i as int)).push(x));
                        assert(base + containers(m.take(i + 1)) =~= prev.push(x));
                        lemma_numbered_push(prev, x);
                    }
                    all.push(
                        DirEntry {
                            ino: e.ino,
                            kind: NodeKind::Directory,
                            name: e.name.clone(),
                            offset: all.len() as u64 + 1,
                        },
                    );
                    assert(entry_views(all@) =~= numbered(base + containers(m.take(i + 1))));
                } else {
                    assert(entry_views(all@) =~= numbered(base + containers(m.take(i + 1))));
                }
                i += 1;
            }
            assert(m.take(self.entries@.len() as int) =~= m);
        } else {
            let children: &Vec<u64> = match self.get(ino) {
                Some(e) => match &e.kind {
                    EntryKind::Directory { cache } => match cache {
                        Some(c) => &c.children,
                        None => {
                            return Ok(Self::page_of(all, offset));
                        },
                    },
                    EntryKind::File { .. } => {
                        return Err(FsError::NotDirectory);
                    },
                },
                None => {
                    return if ino == README_INO {
                        Err(FsError::NotDirectory)
                    } else {
                        Err(FsError::NotFound)
                    };
                },
            };
            let ghost cs = children@;
            assert(cs == cached_children(m, ino));
            assert(FIRST_DYNAMIC_INO + cs.len() <= u64::MAX) by {
                let d = ino - FIRST_DYNAMIC_INO;
                assert(cache_of(m[d]) is Some);
            }
            assert(entry_views(all@) =~= numbered(dot_entries(ino) + child_entries(m, cs.take(0))));
            let mut k: usize = 0;
            while k < children.len()
                invariant
                    self.wf(),
                    m == self.model(),
                    cs == children@,
                    cs == cached_children(m, ino),
                    is_container(m, ino),
                    k <= cs.len(),
                    all@.len() == 2 + k,
                    FIRST_DYNAMIC_INO + cs.len() <= u64::MAX,
                    entry_views(all@) == numbered(dot_entries(ino) + child_entries(m, cs.take(k as int))),
                decreases cs.len() - k,
            {
                let c = children[k];
                proof {
                    let d = ino - FIRST_DYNAMIC_INO;
                    assert(cache_of(m[d])->0.children[k as int] == c);
                    assert(is_file_ino(m, c));
                }
                let f = match self.get(c) {
                    Some(f) => f,
                    None => {
                        return Err(FsError::NotFound);
                    },
                };
                proof {
                    let prev = dot_entries(ino) + child_entries(m, cs.take(k as int));
                    let x = (c, NodeKind::RegularFile, f.name@);
                    assert(dot_entries(ino) + child_entries(m, cs.take(k + 1)) =~= prev.push(x));
                    lemma_numbered_push(prev, x);
                    let d = ino - FIRST_DYNAMIC_INO;
                    assert(FIRST_DYNAMIC_INO + cache_of(m[d])->0.children.len() <= u64::MAX);
                }
                all.push(
                    DirEntry {
                        ino: c,
                        kind: NodeKind::RegularFile,
                        name: f.name.clone(),
                        offset: all.len() as u64 + 1,
                    },
                );
                assert(entry_views(all@) =~= numbered(
                    dot_entries(ino) + child_entries(m, cs.take(k + 1)),
                ));
                k += 1;
            }
            assert(cs.take(cs.len() as int) =~= cs);
        }
        Ok(Self::page_of(all, offset))
    }

    /// The entries of a numbered listing from position `offset` on.
    fn page_of(all: Vec<DirEntry>, offset: u64) -> (r: Vec<DirEntry>)
        ensures
            forall|l: Seq<(u64, NodeKind, Seq<char>)>|
                entry_views(all@) == numbered(l) ==> entry_views(r@) == page(l, offset),
    {
        let ghost old_all = all@;
        let mut all = all;
        if offset >= all.len() as u64 {
            let r: Vec<DirEntry> = Vec::new();
            assert forall|l: Seq<(u64, NodeKind, Seq<char>)>|
                entry_views(old_all) == numbered(l) implies entry_views(r@) == page(l, offset) by {
                assert(entry_views(old_all).len() == l.len());
                assert(entry_views(r@) =~= Seq::empty());
            }
            r
        } else {
            let r = all.split_off(offset as usize);
            assert forall|l: Seq<(u64, NodeKind, Seq<char>)>|
                entry_views(old_all) == numbered(l) implies entry_views(r@) == page(l, offset) by {
                assert(entry_views(old_all).len() == l.len());
                assert(entry_views(r@) =~= page(l, offset));
            }
            r
        }
    }

    /// Resolves `name` in the directory `parent`. In the root, the static
    /// file's name gives the static file, and a name without a dot gives the
    /// container of that name, registered on first use. In a container, the
    /// first file of its cached listing with that name is found; nothing is
    /// fetched.
    pub fn lookup(&mut self, parent: u64, name: &str, now: u64) -> (r: Result<Attr, FsError>)
        requires
            old(self).wf(),
        ensures
            final(self).wf(),
            final(self).started_at() == old(self).started_at(),
            parent == ROOT_INO && name@ == README_NAME@ ==> r == Ok::<Attr, FsError>(readme_attr(old(self).started_at()))
                && final(self).model() == old(self).model(),
            parent == ROOT_INO && name@ != README_NAME@ && name@.contains('.') ==> r == Err::<
                Attr,
                FsError,
            >(FsError::NotFound) && final(self).model() == old(self).model(),
            parent == ROOT_INO && name@ != README_NAME@ && !name@.contains('.') ==> if find_dir(
                old(self).model(),
                name@,
            ) >= 0 || has_room(old(self).model(), 1) {
                final(self).model() == with_dir(old(self).model(), name@, now) && r == Ok::<
                    Attr,
                    FsError,
                >(attr_of(final(self).model()[find_dir(final(self).model(), name@)]))
            } else {
                r == Err::<Attr, FsError>(FsError::NoSpace) && final(self).model() == old(
                    self,
                ).model()
            },
            parent != ROOT_INO ==> final(self).model() == old(self).model() && r == match child_named(
                old(self).model(),
                parent,
                name@,
            ) {
                Some(e) => Ok::<Attr, FsError>(attr_of(e)),
                None => Err(FsError::NotFound),
            },
    {
        proof {
            self.lemma_model();
        }
        let wanted = name.to_owned();
        if parent == ROOT_INO {
            if wanted == README_NAME.to_owned() {
                Ok(make_file_attr(README_INO, 18, self.started_at))
            } else if contains_char(name, '.') {
                Err(FsError::NotFound)
            } else {
                match self.materialize_dir(name, now) {
                    Ok(i) => {
                        proof {
                            self.lemma_model();
                            lemma_first_index(self.model(), dir_pred(name@));
                        }
                        Ok(self.entries[i].attr())
                    },
                    Err(e) => Err(e),
                }
            }
        } else {
            self.find_child(parent, &wanted)
        }
    }

    /// The attributes of the first file of the cached listing of `parent`
    /// named `name`.
    fn find_child(&self, parent: u64, name: &String) -> (r: Result<Attr, FsError>)
        requires
            self.wf(),
        ensures
            r == match child_named(self.model(), parent, name@) {
                Some(e) => Ok::<Attr, FsError>(attr_of(e)),
                None => Err(FsError::NotFound),
            },
    {
        proof {
            self.lemma_model();
        }
        let ghost m = self.model();
        let children: &Vec<u64> = match self.get(parent) {
            Some(e) => match &e.kind {
                EntryKind::Directory { cache } => match cache {
                    Some(c) => &c.children,
                    None => {
                        proof {
                            lemma_first_index(Seq::<u64>::empty(), name_pred(m, name@));
                        }
                        return Err(FsError::NotFound);
                    },
                },
                EntryKind::File { .. } => {
                    return Err(FsError::NotFound);
                },
            },
            None => {
                return Err(FsError::NotFound);
            },
        };
        let ghost cs = children@;
        assert(cs == cached_children(m, parent));
        proof {
            lemma_first_index(cs, name_pred(m, name@));
        }
        let mut k: usize = 0;
        while k < children.len()
            invariant
                self.wf(),
                m == self.model(),
                cs == children@,
                cs == cached_children(m, parent),
                is_container(m, parent),
                k <= cs.len(),
                forall|j: int| 0 <= j < k ==> !name_pred(m, name@)(#[trigger] cs[j]),
            decreases cs.len() - k,
        {
            let c = children[k];
            proof {
                let d = parent - FIRST_DYNAMIC_INO;
                assert(cache_of(m[d])->0.children[k as int] == c);
                assert(is_file_ino(m, c));
            }
            match self.get(c) {
                Some(f) => {
                    assert(c == cs[k as int]);
                    assert(f@ == entry_of(m, c)->0);
                    assert(name_pred(m, name@)(c) == (entry_of(m, c)->0.name == name@));
                    if f.name == *name {
                        assert(name_pred(m, name@)(cs[k as int]));
                        proof {
                            lemma_first_index_at(cs, name_pred(m, name@), k as int);
                        }
                        return Ok(f.attr());
                    }
                },
                None => {},
            }
            k += 1;
        }
        proof {
            if first_index(cs, name_pred(m, name@)) >= 0 {
                assert(name_pred(m, name@)(cs[first_index(cs, name_pred(m, name@))]));
            }
        }
        Err(FsError::NotFound)
    }
}

} // verus!
