//! Properties of the filesystem state that hold across requests, proved over
//! the same spec functions that the handlers' contracts use.
use vstd::prelude::*;
use crate::entry::{
    README_INO, README_NAME, ROOT_INO,
    EntryView, NodeKind, cache_of, first_index, is_dir, is_file, is_file_with_id, lemma_first_index,
    lemma_first_index_push, new_file, CacheView, CACHE_TTL, FIRST_DYNAMIC_INO,
};
use crate::fs::{
    dir_listing, dot_entries, page, cached_children, is_container,
    after_items, containers, file_pred, find_file, has_room, is_file_ino, listing_inos,
    registry_wf, with_cache, distinct, item_inos, with_item, with_listing, entry_of, needs_fetch, is_expired,
};
use crate::item::ItemView;

verus! {

/// Two sequences on which a predicate agrees place by place have the same
/// first match.
pub proof fn lemma_first_index_agree<T>(s1: Seq<T>, s2: Seq<T>, p: spec_fn(T) -> bool)
    requires
        s1.len() == s2.len(),
        forall|i: int| 0 <= i < s1.len() ==> p(s1[i]) == p(s2[i]),
    ensures
        first_index(s1, p) == first_index(s2, p),
    decreases s1.len(),
{
    if s1.len() > 0 {
        lemma_first_index_agree(s1.drop_last(), s2.drop_last(), p);
    }
}

/// Seeing one item keeps earlier entries and earlier identities, registers the
/// item's identity, and keeps the registry well formed.
proof fn lemma_with_item(m: Seq<EntryView>, item: ItemView, now: u64)
    requires
        registry_wf(m),
        has_room(m, 1),
    ensures
        registry_wf(with_item(m, item, now)),
        m.len() <= with_item(m, item, now).len() <= m.len() + 1,
        forall|k: int| 0 <= k < m.len() ==> #[trigger] with_item(m, item, now)[k] == m[k],
        find_file(with_item(m, item, now), item.external_id) >= 0,
        forall|id: Seq<char>|
            find_file(m, id) >= 0 ==> #[trigger] find_file(with_item(m, item, now), id) == find_file(
                m,
                id,
            ),
{
    let id = item.external_id;
    if find_file(m, id) < 0 {
        let e = new_file(item, (FIRST_DYNAMIC_INO + m.len()) as u64, now);
        crate::fs::lemma_push_wf(m, e);
        lemma_first_index_push(m, e, file_pred(id));
        assert forall|id2: Seq<char>| find_file(m, id2) >= 0 implies #[trigger] find_file(
            with_item(m, item, now),
            id2,
        ) == find_file(m, id2) by {
            lemma_first_index_push(m, e, file_pred(id2));
        }
    }
}

/// Seeing the items of a listing keeps earlier entries and identities,
/// registers every item's identity, and keeps the registry well formed.
pub proof fn lemma_after_items(m: Seq<EntryView>, items: Seq<ItemView>, now: u64)
    requires
        registry_wf(m),
        has_room(m, items.len() as int),
    ensures
        registry_wf(after_items(m, items, now)),
        m.len() <= after_items(m, items, now).len() <= m.len() + items.len(),
        forall|k: int| 0 <= k < m.len() ==> #[trigger] after_items(m, items, now)[k] == m[k],
        forall|j: int|
            0 <= j < items.len() ==> find_file(after_items(m, items, now), #[trigger] items[j].external_id)
                >= 0,
        forall|id: Seq<char>|
            find_file(m, id) >= 0 ==> #[trigger] find_file(after_items(m, items, now), id) == find_file(
                m,
                id,
            ),
    decreases items.len(),
{
    if items.len() > 0 {
        let init = items.drop_last();
        lemma_after_items(m, init, now);
        let m1 = after_items(m, init, now);
        lemma_with_item(m1, items.last(), now);
        assert forall|j: int| 0 <= j < items.len() implies find_file(
            after_items(m, items, now),
            #[trigger] items[j].external_id,
        ) >= 0 by {
            if j < items.len() - 1 {
                assert(init[j] == items[j]);
            }
        }
    }
}

/// `distinct` keeps exactly the values of `s`, each once.
pub proof fn lemma_distinct(s: Seq<u64>)
    ensures
        distinct(s).len() <= s.len(),
        forall|x: u64| #[trigger] distinct(s).contains(x) <==> s.contains(x),
        forall|a: int, b: int|
            0 <= a < b < distinct(s).len() ==> #[trigger] distinct(s)[a] != #[trigger] distinct(s)[b],
    decreases s.len(),
{
    if s.len() > 0 {
        let init = s.drop_last();
        lemma_distinct(init);
        let d = distinct(init);
        assert forall|x: u64| #[trigger] distinct(s).contains(x) <==> s.contains(x) by {
            if s.contains(x) {
                let k = choose|k: int| 0 <= k < s.len() && s[k] == x;
                if k < s.len() - 1 {
                    assert(init[k] == x);
                    assert(d.contains(x));
                    if !d.contains(s.last()) {
                        let a = choose|a: int| 0 <= a < d.len() && d[a] == x;
                        assert(d.push(s.last())[a] == x);
                    }
                } else if !d.contains(s.last()) {
                    assert(d.push(s.last())[d.len() as int] == x);
                }
            }
            if distinct(s).contains(x) {
                if d.contains(x) {
                    let k = choose|k: int| 0 <= k < init.len() && init[k] == x;
                    assert(s[k] == x);
                } else {
                    assert(x == s.last());
                    assert(s[s.len() - 1] == x);
                }
            }
        }
    }
}

/// Replacing a directory's cache by a listing of registered files leaves
/// every file where it was and keeps the registry well formed.
pub proof fn lemma_with_cache(m: Seq<EntryView>, i: int, c: CacheView)
    requires
        registry_wf(m),
        0 <= i < m.len(),
        is_dir(m[i]),
        FIRST_DYNAMIC_INO + c.children.len() <= u64::MAX,
        forall|k: int| 0 <= k < c.children.len() ==> is_file_ino(m, #[trigger] c.children[k]),
    ensures
        registry_wf(with_cache(m, i, c)),
        forall|id: Seq<char>| #[trigger] find_file(with_cache(m, i, c), id) == find_file(m, id),
{
    let m2 = with_cache(m, i, c);
    assert forall|id: Seq<char>| #[trigger] find_file(m2, id) == find_file(m, id) by {
        assert forall|k: int| 0 <= k < m.len() implies file_pred(id)(m2[k]) == file_pred(id)(m[k]) by {
            if k == i {
                assert(!is_file_with_id(m2[k], id) && !is_file_with_id(m[k], id));
            }
        }
        lemma_first_index_agree(m2, m, file_pred(id));
    }
    assert forall|a: int, k: int|
        0 <= a < m2.len() && cache_of(m2[a]) is Some && 0 <= k < cache_of(m2[a])->0.children.len()
            implies is_file_ino(m2, #[trigger] cache_of(m2[a])->0.children[k]) by {
        let ino = cache_of(m2[a])->0.children[k];
        if a != i {
            assert(is_file_ino(m, cache_of(m[a])->0.children[k]));
        }
        assert(is_file_ino(m, ino));
        assert(ino - FIRST_DYNAMIC_INO != i);
    }
    assert forall|a: int, b: int|
        0 <= a < m2.len() && 0 <= b < m2.len() && is_file(m2[a]) && #[trigger] is_file_with_id(
            m2[b],
            m2[a].kind->File_external_id,
        ) implies a == b by {
        assert(is_file_with_id(m[b], m[a].kind->File_external_id));
    }
    assert forall|a: int, b: int|
        0 <= a < m2.len() && 0 <= b < m2.len() && is_dir(m2[a]) && #[trigger] crate::entry::is_dir_named(
            m2[b],
            m2[a].name,
        ) implies a == b by {
        assert(crate::entry::is_dir_named(m[b], m[a].name));
    }
}

/// Taking in a listing keeps the registry well formed, and every file that
/// was registered before keeps its inode.
pub proof fn lemma_with_listing(m: Seq<EntryView>, i: int, items: Seq<ItemView>, now: u64)
    requires
        registry_wf(m),
        0 <= i < m.len(),
        is_dir(m[i]),
        has_room(m, items.len() as int),
    ensures
        registry_wf(with_listing(m, i, items, now)),
        forall|id: Seq<char>|
            find_file(m, id) >= 0 ==> #[trigger] find_file(with_listing(m, i, items, now), id)
                == find_file(m, id),
        forall|j: int|
            0 <= j < items.len() ==> find_file(
                with_listing(m, i, items, now),
                #[trigger] items[j].external_id,
            ) >= 0,
        cache_of(with_listing(m, i, items, now)[i]) == Some(
            CacheView {
                children: listing_inos(with_listing(m, i, items, now), items),
                refreshed_at: now,
            },
        ),
{
    lemma_after_items(m, items, now);
    let m2 = after_items(m, items, now);
    let c = CacheView { children: listing_inos(m2, items), refreshed_at: now };
    let s = item_inos(m2, items);
    lemma_distinct(s);
    assert forall|k: int| 0 <= k < c.children.len() implies is_file_ino(m2, #[trigger] c.children[k]) by {
        assert(distinct(s).contains(c.children[k]));
        let j = choose|j: int| 0 <= j < s.len() && s[j] == c.children[k];
        lemma_first_index(m2, file_pred(items[j].external_id));
        let f = find_file(m2, items[j].external_id);
        assert(file_pred(items[j].external_id)(m2[f]));
    }
    lemma_with_cache(m2, i, c);
    let m3 = with_listing(m, i, items, now);
    assert(item_inos(m3, items) =~= item_inos(m2, items));
}


/// Whether `x` is the listing entry of a directory of the registry.
pub open spec fn lists_a_directory(m: Seq<EntryView>, x: (u64, NodeKind, Seq<char>)) -> bool {
    exists|i: int| 0 <= i < m.len() && is_dir(m[i]) && x == (m[i].ino, NodeKind::Directory, m[i].name)
}

/// `containers` lists exactly the directories of the registry.
pub proof fn lemma_containers(m: Seq<EntryView>)
    ensures
        forall|i: int|
            0 <= i < m.len() && is_dir(m[i]) ==> #[trigger] containers(m).contains(
                (m[i].ino, NodeKind::Directory, m[i].name),
            ),
        forall|k: int|
            0 <= k < containers(m).len() ==> lists_a_directory(m, #[trigger] containers(m)[k]),
    decreases m.len(),
{
    if m.len() > 0 {
        let init = m.drop_last();
        lemma_containers(init);
        let r = containers(init);
        let x = (m.last().ino, NodeKind::Directory, m.last().name);
        assert forall|i: int|
            0 <= i < m.len() && is_dir(m[i]) implies #[trigger] containers(m).contains(
            (m[i].ino, NodeKind::Directory, m[i].name),
        ) by {
            if i < m.len() - 1 {
                assert(init[i] == m[i]);
                assert(r.contains((init[i].ino, NodeKind::Directory, init[i].name)));
                if is_dir(m.last()) {
                    let k = choose|k: int| 0 <= k < r.len() && r[k] == (
                        init[i].ino,
                        NodeKind::Directory,
                        init[i].name,
                    );
                    assert(r.push(x)[k] == r[k]);
                }
            } else {
                assert(r.push(x)[r.len() as int] == x);
            }
        }
        assert forall|k: int| 0 <= k < containers(m).len() implies lists_a_directory(
            m,
            #[trigger] containers(m)[k],
        ) by {
            if k < r.len() {
                assert(containers(m)[k] == r[k]);
                assert(lists_a_directory(init, r[k]));
                let i = choose|i: int|
                    0 <= i < init.len() && is_dir(init[i]) && r[k] == (
                        init[i].ino,
                        NodeKind::Directory,
                        init[i].name,
                    );
                assert(init[i] == m[i]);
            } else {
                assert(containers(m)[k] == x);
                let i = m.len() - 1;
                assert(is_dir(m[i]) && x == (m[i].ino, NodeKind::Directory, m[i].name));
            }
        }
    }
}

/// The root's listing holds `.`, `..` and the static file, then every
/// registered container directory and nothing else.
pub proof fn lemma_root_listing(m: Seq<EntryView>)
    ensures
        dir_listing(m, ROOT_INO).take(3) == dot_entries(ROOT_INO).push(
            (README_INO, NodeKind::RegularFile, README_NAME@),
        ),
        forall|x: (u64, NodeKind, Seq<char>)|
            #[trigger] dir_listing(m, ROOT_INO).skip(3).contains(x) <==> lists_a_directory(m, x),
{
    lemma_containers(m);
    let base = dot_entries(ROOT_INO).push((README_INO, NodeKind::RegularFile, README_NAME@));
    let l = dir_listing(m, ROOT_INO);
    assert(l.take(3) =~= base);
    assert(l.skip(3) =~= containers(m));
    assert forall|x: (u64, NodeKind, Seq<char>)|
        #[trigger] l.skip(3).contains(x) <==> lists_a_directory(m, x) by {
        if l.skip(3).contains(x) {
            let k = choose|k: int| 0 <= k < containers(m).len() && containers(m)[k] == x;
            assert(lists_a_directory(m, containers(m)[k]));
        }
        if lists_a_directory(m, x) {
            let i = choose|i: int|
                0 <= i < m.len() && is_dir(m[i]) && x == (m[i].ino, NodeKind::Directory, m[i].name);
            assert(containers(m).contains((m[i].ino, NodeKind::Directory, m[i].name)));
        }
    }
}

/// A container that took in a listing at `t` holds that listing with `t` as
/// its refresh time, and needs no fetch at any time up to `t + CACHE_TTL`,
/// from any offset: listing it again shows the same entries.
pub proof fn lemma_fresh_listing_needs_no_fetch(
    m: Seq<EntryView>,
    ino: u64,
    items: Seq<ItemView>,
    t: u64,
    now: u64,
    offset: u64,
)
    requires
        registry_wf(m),
        is_container(m, ino),
        has_room(m, items.len() as int),
        t <= now <= t + CACHE_TTL,
    ensures
        is_container(with_listing(m, ino - FIRST_DYNAMIC_INO, items, t), ino),
        cache_of(entry_of(with_listing(m, ino - FIRST_DYNAMIC_INO, items, t), ino)->0) == Some(
            CacheView {
                children: listing_inos(with_listing(m, ino - FIRST_DYNAMIC_INO, items, t), items),
                refreshed_at: t,
            },
        ),
        !needs_fetch(
            cache_of(entry_of(with_listing(m, ino - FIRST_DYNAMIC_INO, items, t), ino)->0),
            offset,
            now,
        ),
{
    lemma_with_listing(m, ino - FIRST_DYNAMIC_INO, items, t);
    lemma_after_items(m, items, t);
}

/// Past `t + CACHE_TTL`, a container that took in a listing at `t` needs a
/// fetch when listed from the start.
pub proof fn lemma_expired_listing_needs_fetch(
    m: Seq<EntryView>,
    ino: u64,
    items: Seq<ItemView>,
    t: u64,
    now: u64,
)
    requires
        registry_wf(m),
        is_container(m, ino),
        has_room(m, items.len() as int),
        now > t + CACHE_TTL,
    ensures
        needs_fetch(
            cache_of(entry_of(with_listing(m, ino - FIRST_DYNAMIC_INO, items, t), ino)->0),
            0,
            now,
        ),
{
    lemma_with_listing(m, ino - FIRST_DYNAMIC_INO, items, t);
    lemma_after_items(m, items, t);
}

/// Items that share an external identity resolve to one inode: within one
/// listing, and across a listing and any later one, of the same container
/// or of another; every file registered before keeps its inode, and a
/// directory lists each inode once, exactly the inodes of its items.
pub proof fn lemma_same_identity_same_inode(
    m: Seq<EntryView>,
    ino1: u64,
    items1: Seq<ItemView>,
    t1: u64,
    ino2: u64,
    items2: Seq<ItemView>,
    t2: u64,
)
    requires
        registry_wf(m),
        is_container(m, ino1),
        is_container(m, ino2),
        has_room(m, (items1.len() + items2.len()) as int),
    ensures
        ({
            let m1 = with_listing(m, ino1 - FIRST_DYNAMIC_INO, items1, t1);
            let m2 = with_listing(m1, ino2 - FIRST_DYNAMIC_INO, items2, t2);
            let s1 = item_inos(m1, items1);
            let s2 = item_inos(m2, items2);
            let c1 = cached_children(m1, ino1);
            &&& registry_wf(m1)
            &&& registry_wf(m2)
            &&& forall|id: Seq<char>|
                find_file(m, id) >= 0 ==> #[trigger] find_file(m2, id) == find_file(m, id)
            &&& forall|j: int, k: int|
                0 <= j < items1.len() && 0 <= k < items1.len() && items1[j].external_id
                    == items1[k].external_id ==> #[trigger] s1[j] == #[trigger] s1[k]
            &&& forall|j: int, k: int|
                0 <= j < items1.len() && 0 <= k < items2.len() && items1[j].external_id
                    == items2[k].external_id ==> #[trigger] s1[j] == #[trigger] s2[k]
            &&& c1 == distinct(s1)
            &&& cached_children(m2, ino2) == distinct(s2)
            &&& forall|x: u64| #[trigger] c1.contains(x) <==> s1.contains(x)
            &&& forall|a: int, b: int| 0 <= a < b < c1.len() ==> #[trigger] c1[a] != #[trigger] c1[b]
        }),
{
    let i1 = ino1 - FIRST_DYNAMIC_INO;
    let i2 = ino2 - FIRST_DYNAMIC_INO;
    lemma_with_listing(m, i1, items1, t1);
    lemma_after_items(m, items1, t1);
    let m1 = with_listing(m, i1, items1, t1);
    assert(m1.len() == after_items(m, items1, t1).len());
    assert(is_dir(m1[i2])) by {
        assert(after_items(m, items1, t1)[i2] == m[i2]);
    }
    lemma_with_listing(m1, i2, items2, t2);
    let m2 = with_listing(m1, i2, items2, t2);
    lemma_after_items(m1, items2, t2);
    assert(m2.len() == after_items(m1, items2, t2).len());
    let s1 = item_inos(m1, items1);
    let s2 = item_inos(m2, items2);
    lemma_distinct(s1);
    assert(cached_children(m1, ino1) == distinct(s1));
    assert(cached_children(m2, ino2) == distinct(s2));
    assert forall|j: int, k: int|
        0 <= j < items1.len() && 0 <= k < items2.len() && items1[j].external_id
            == items2[k].external_id implies #[trigger] s1[j] == #[trigger] s2[k] by {
        assert(find_file(m1, items1[j].external_id) >= 0);
    }
}

/// Listing a directory from an offset at or past the end of its listing
/// gives no entries, and for a container that holds a listing needs no fetch.
pub proof fn lemma_offset_past_end(m: Seq<EntryView>, ino: u64, offset: u64, now: u64)
    requires
        ino == ROOT_INO || is_container(m, ino),
        offset >= dir_listing(m, ino).len(),
    ensures
        page(dir_listing(m, ino), offset) == Seq::<(u64, NodeKind, Seq<char>, u64)>::empty(),
        ino != ROOT_INO && cache_of(entry_of(m, ino)->0) is Some ==> !needs_fetch(
            cache_of(entry_of(m, ino)->0),
            offset,
            now,
        ),
{
}


/// Seeing an item whose external identity is already registered changes
/// nothing, whatever its title, text or URL: the item resolves to the file
/// registered before, with its inode and content.
pub proof fn lemma_known_identity_changes_nothing(m: Seq<EntryView>, item: ItemView, now: u64)
    requires
        find_file(m, item.external_id) >= 0,
    ensures
        with_item(m, item, now) == m,
        find_file(with_item(m, item, now), item.external_id) == find_file(m, item.external_id),
{
}

} // verus!
