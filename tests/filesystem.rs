use redditfs::entry::{NodeKind, README_INO, ROOT_INO};
use redditfs::fs::{DirEntry, FetchError, FsError, RedditFS};
use redditfs::item::{item_content, item_from_fields, ContentItem, ItemKind};
use redditfs::json::{item_of_record, items_of_records, listing_items, ListingRecord};
use redditfs::text::{contains_char, sanitize_name, starts_with};

fn text_item(id: &str, title: &str, body: &str) -> ContentItem {
    ContentItem {
        kind: ItemKind::Text,
        external_id: id.to_string(),
        title: title.to_string(),
        text: body.to_string(),
        url: String::new(),
    }
}

fn link_item(id: &str, title: &str, url: &str) -> ContentItem {
    ContentItem {
        kind: ItemKind::Link,
        external_id: id.to_string(),
        title: title.to_string(),
        text: String::new(),
        url: url.to_string(),
    }
}

fn names(v: &[DirEntry]) -> Vec<String> {
    v.iter().map(|d| d.name.clone()).collect()
}

fn inos(v: &[DirEntry]) -> Vec<u64> {
    v.iter().map(|d| d.ino).collect()
}

/// Registers a container and lists it once with `items` at time `now`.
fn listed(fs: &mut RedditFS, name: &str, items: Vec<ContentItem>, now: u64) -> u64 {
    let ino = fs.lookup(ROOT_INO, name, now).unwrap().ino;
    assert_eq!(fs.refresh_target(ino, 0, now), Ok(Some(name.to_string())));
    assert_eq!(fs.finish_refresh(ino, Ok(items), now), Ok(()));
    ino
}

#[test]
fn sanitize_parent_name_is_quoted() {
    assert_eq!(sanitize_name(".."), "\"..\"");
    assert_ne!(sanitize_name(".."), "..");
}

#[test]
fn sanitize_removes_separators() {
    assert_eq!(sanitize_name("a/b/c"), "abc");
}

#[test]
fn sanitize_other_reserved_names() {
    assert_eq!(sanitize_name("."), "\".\"");
    assert_eq!(sanitize_name(""), "\"\"");
    assert_eq!(sanitize_name("//"), "\"\"");
    assert_eq!(sanitize_name("./"), "\".\"");
    assert_eq!(sanitize_name("..."), "...");
    assert_eq!(sanitize_name("Hello"), "Hello");
}

#[test]
fn worked_scenario_two_items() {
    let mut fs = RedditFS::new(0);
    let items = vec![text_item("a1", "Hello", "world"), link_item("a2", "Link", "http://x")];
    let c = listed(&mut fs, "rust", items, 1000);
    let l = fs.list_entries(c, 0).unwrap();
    assert_eq!(names(&l), vec![".", "..", "Hello", "Link"]);
    assert_eq!(l[2].kind, NodeKind::RegularFile);
    let hello = l[2].ino;
    let link = l[3].ino;
    assert_eq!(fs.read(hello).unwrap(), b"world\n".to_vec());
    assert_eq!(fs.read(link).unwrap(), b"http://x\n".to_vec());
    assert_eq!(fs.refresh_target(c, 0, 1001), Ok(None));
    let again = fs.list_entries(c, 0).unwrap();
    assert_eq!(inos(&again), inos(&l));
    assert_eq!(fs.lookup(c, "Hello", 1001).unwrap().ino, hello);
    assert_eq!(fs.getattr(hello).unwrap().size, 6);
}

#[test]
fn root_listing_needs_no_fetch_and_lists_containers() {
    let mut fs = RedditFS::new(0);
    assert_eq!(fs.refresh_target(ROOT_INO, 0, 5), Ok(None));
    let empty = fs.list_entries(ROOT_INO, 0).unwrap();
    assert_eq!(names(&empty), vec![".", "..", "README.txt"]);
    let a = fs.lookup(ROOT_INO, "alpha", 5).unwrap();
    let b = fs.lookup(ROOT_INO, "beta", 6).unwrap();
    listed(&mut fs, "gamma", vec![text_item("x", "X", "x")], 7);
    assert_eq!(fs.refresh_target(ROOT_INO, 0, 10_000), Ok(None));
    let l = fs.list_entries(ROOT_INO, 0).unwrap();
    assert_eq!(names(&l), vec![".", "..", "README.txt", "alpha", "beta", "gamma"]);
    assert_eq!(l[2].ino, README_INO);
    assert_eq!(l[3].ino, a.ino);
    assert_eq!(l[4].ino, b.ino);
    assert_eq!(l[3].kind, NodeKind::Directory);
    let offsets: Vec<u64> = l.iter().map(|d| d.offset).collect();
    assert_eq!(offsets, vec![1, 2, 3, 4, 5, 6]);
}

#[test]
fn container_lookup_is_deduplicated_by_name() {
    let mut fs = RedditFS::new(0);
    let a = fs.lookup(ROOT_INO, "alpha", 5).unwrap();
    let again = fs.lookup(ROOT_INO, "alpha", 9).unwrap();
    assert_eq!(a, again);
    assert_eq!(a.ino, 4);
    assert_eq!(a.kind, NodeKind::Directory);
    assert_eq!(a.perm, 0o755);
    assert_eq!(a.nlink, 2);
}

#[test]
fn second_listing_within_ttl_needs_no_fetch() {
    let mut fs = RedditFS::new(0);
    let c = listed(&mut fs, "rust", vec![text_item("a", "A", "a"), text_item("b", "B", "")], 100);
    let first = fs.list_entries(c, 0).unwrap();
    assert_eq!(fs.refresh_target(c, 0, 100), Ok(None));
    assert_eq!(fs.refresh_target(c, 0, 220), Ok(None));
    let second = fs.list_entries(c, 0).unwrap();
    assert_eq!(names(&second), names(&first));
    assert_eq!(inos(&second), inos(&first));
    assert_eq!(fs.getattr(c).unwrap().mtime, 100);
}

#[test]
fn expired_listing_is_fetched_again_and_keeps_inodes() {
    let mut fs = RedditFS::new(0);
    let c = listed(&mut fs, "rust", vec![text_item("a", "A", "a"), text_item("b", "B", "b")], 100);
    let first = fs.list_entries(c, 0).unwrap();
    assert_eq!(fs.refresh_target(c, 0, 221), Ok(Some("rust".to_string())));
    let items = vec![text_item("c", "C", "c"), text_item("a", "A changed", "new body")];
    assert_eq!(fs.finish_refresh(c, Ok(items), 221), Ok(()));
    let second = fs.list_entries(c, 0).unwrap();
    assert_eq!(names(&second), vec![".", "..", "C", "A"]);
    assert_eq!(second[3].ino, first[2].ino);
    assert_eq!(fs.read(first[2].ino).unwrap(), b"a\n".to_vec());
    assert_eq!(fs.read(first[3].ino).unwrap(), b"b\n".to_vec());
    assert_eq!(second[2].ino, first[3].ino + 1);
    assert_eq!(fs.getattr(c).unwrap().mtime, 221);
    assert_eq!(fs.refresh_target(c, 0, 222), Ok(None));
}

#[test]
fn shared_identity_resolves_to_one_inode() {
    let mut fs = RedditFS::new(0);
    let items = vec![text_item("s", "Same", "1"), text_item("t", "T", "2"), text_item("s", "Again", "3")];
    let c = listed(&mut fs, "one", items, 10);
    let l = fs.list_entries(c, 0).unwrap();
    assert_eq!(names(&l), vec![".", "..", "Same", "T"]);
    assert_eq!(fs.lookup(c, "Same", 10).unwrap().ino, l[2].ino);
    assert_eq!(fs.read(l[2].ino).unwrap(), b"1\n".to_vec());
    let d = listed(&mut fs, "two", vec![text_item("t", "Other title", "9")], 11);
    let m = fs.list_entries(d, 0).unwrap();
    assert_eq!(m[2].ino, l[3].ino);
    assert_eq!(m[2].name, "T");
    assert_eq!(fs.read(m[2].ino).unwrap(), b"2\n".to_vec());
}

#[test]
fn offset_past_end_is_empty() {
    let mut fs = RedditFS::new(0);
    let c = listed(&mut fs, "rust", vec![text_item("a", "A", "a")], 100);
    assert_eq!(fs.list_entries(c, 3).unwrap().len(), 0);
    assert_eq!(fs.list_entries(c, 50).unwrap().len(), 0);
    assert_eq!(fs.refresh_target(c, 3, 10_000), Ok(None));
    assert_eq!(fs.list_entries(ROOT_INO, 4).unwrap().len(), 0);
    let tail = fs.list_entries(c, 1).unwrap();
    assert_eq!(names(&tail), vec!["..", "A"]);
    assert_eq!(tail[1].offset, 3);
}

#[test]
fn failed_refresh_keeps_cached_listing() {
    let mut fs = RedditFS::new(0);
    let c = listed(&mut fs, "rust", vec![text_item("a", "A", "a")], 100);
    let before = fs.list_entries(c, 0).unwrap();
    assert_eq!(fs.refresh_target(c, 0, 500), Ok(Some("rust".to_string())));
    assert_eq!(fs.finish_refresh(c, Err(FetchError), 500), Err(FsError::IoFailure));
    let after = fs.list_entries(c, 0).unwrap();
    assert_eq!(inos(&after), inos(&before));
    assert_eq!(names(&after), names(&before));
    assert_eq!(fs.getattr(c).unwrap().mtime, 100);
}

#[test]
fn failed_first_refresh_leaves_container_unlisted() {
    let mut fs = RedditFS::new(0);
    let c = fs.lookup(ROOT_INO, "rust", 1).unwrap().ino;
    assert_eq!(fs.finish_refresh(c, Err(FetchError), 2), Err(FsError::IoFailure));
    assert_eq!(fs.refresh_target(c, 0, 2), Ok(Some("rust".to_string())));
    assert_eq!(names(&fs.list_entries(c, 0).unwrap()), vec![".", ".."]);
}

#[test]
fn error_variants() {
    let mut fs = RedditFS::new(0);
    assert_eq!(fs.getattr(99), Err(FsError::NotFound));
    assert_eq!(fs.read(99), Err(FsError::NotFound));
    assert_eq!(fs.read(ROOT_INO), Err(FsError::IsDirectory));
    assert_eq!(fs.lookup(ROOT_INO, "a.b", 1), Err(FsError::NotFound));
    assert_eq!(fs.lookup(99, "x", 1), Err(FsError::NotFound));
    assert_eq!(fs.list_entries(99, 0).err(), Some(FsError::NotFound));
    assert_eq!(fs.list_entries(README_INO, 0).err(), Some(FsError::NotDirectory));
    assert_eq!(fs.refresh_target(README_INO, 0, 1), Err(FsError::NotDirectory));
    assert_eq!(fs.finish_refresh(99, Ok(vec![]), 1), Err(FsError::NotFound));
    let c = listed(&mut fs, "rust", vec![text_item("a", "A", "a")], 1);
    assert_eq!(fs.read(c), Err(FsError::IsDirectory));
    assert_eq!(fs.lookup(c, "missing", 1), Err(FsError::NotFound));
    let file = fs.list_entries(c, 2).unwrap()[0].ino;
    assert_eq!(fs.list_entries(file, 0).err(), Some(FsError::NotDirectory));
    assert_eq!(fs.refresh_target(file, 0, 1), Err(FsError::NotDirectory));
    assert_eq!(fs.finish_refresh(file, Ok(vec![]), 1), Err(FsError::NotFound));
}

#[test]
fn root_and_static_file_carry_start_time() {
    let fs = RedditFS::new(1_700_000_000);
    assert_eq!(fs.getattr(ROOT_INO).unwrap().mtime, 1_700_000_000);
    assert_eq!(fs.getattr(ROOT_INO).unwrap().crtime, 1_700_000_000);
    assert_eq!(fs.getattr(README_INO).unwrap().mtime, 1_700_000_000);
}

#[test]
fn static_file_is_served_without_fetch() {
    let mut fs = RedditFS::new(0);
    assert_eq!(fs.read(README_INO).unwrap(), b"Reddit filesystem\n".to_vec());
    let attr = fs.lookup(ROOT_INO, "README.txt", 1).unwrap();
    assert_eq!(attr.ino, README_INO);
    assert_eq!(attr.size, 18);
    assert_eq!(attr.perm, 0o644);
    assert_eq!(fs.getattr(README_INO), Ok(attr));
    assert_eq!(fs.getattr(ROOT_INO).unwrap().kind, NodeKind::Directory);
}

#[test]
fn lookup_in_container_uses_cache_only() {
    let mut fs = RedditFS::new(0);
    let c = fs.lookup(ROOT_INO, "rust", 1).unwrap().ino;
    assert_eq!(fs.lookup(c, "A", 1), Err(FsError::NotFound));
    assert_eq!(fs.finish_refresh(c, Ok(vec![text_item("a", "A/B", "a")]), 2), Ok(()));
    let attr = fs.lookup(c, "AB", 3).unwrap();
    assert_eq!(attr.kind, NodeKind::RegularFile);
    assert_eq!(attr.size, 2);
    assert_eq!(attr.crtime, 2);
}

#[test]
fn content_selection() {
    let self_link = ContentItem {
        kind: ItemKind::Link,
        external_id: "i".to_string(),
        title: "t".to_string(),
        text: "self text".to_string(),
        url: "https://www.reddit.com/r/rust/comments/x".to_string(),
    };
    assert_eq!(item_content(&self_link), b"self text\n".to_vec());
    assert_eq!(item_content(&link_item("i", "t", "https://example.org")), b"https://example.org\n".to_vec());
    assert_eq!(item_content(&text_item("i", "t", "")), Vec::<u8>::new());
    assert_eq!(item_content(&text_item("i", "t", "é")), "é\n".as_bytes().to_vec());
}

#[test]
fn item_fields() {
    let link = item_from_fields("t3", "id", "T", "body", Some("http://u")).unwrap();
    assert_eq!(link.kind, ItemKind::Link);
    assert_eq!(link.url, "http://u");
    assert!(item_from_fields("t3", "id", "T", "body", None).is_none());
    let text = item_from_fields("t1", "id", "T", "body", Some("http://u")).unwrap();
    assert_eq!(text.kind, ItemKind::Text);
    assert_eq!(text.url, "");
    assert_eq!(text.text, "body");
}

#[test]
fn listing_from_json_skips_malformed_records() {
    let v: serde_json::Value = serde_json::from_str(
        r#"{"data":{"children":[
            {"kind":"t3","data":{"id":"a1","title":"Hello","selftext":"world","url":"https://www.reddit.com/r/x/a1"}},
            {"kind":"t3","data":{"id":"bad"}},
            {"kind":"t3","data":{"id":"a2","title":"Link","selftext":"","url":"http://x"}}
        ]}}"#,
    )
    .unwrap();
    let items = listing_items(&v).unwrap();
    assert_eq!(items.len(), 2);
    assert_eq!(items[0].external_id, "a1");
    assert_eq!(items[0].title, "Hello");
    assert_eq!(item_content(&items[0]), b"world\n".to_vec());
    assert_eq!(item_content(&items[1]), b"http://x\n".to_vec());
    let broken: serde_json::Value = serde_json::from_str(r#"{"data":{}}"#).unwrap();
    assert!(listing_items(&broken).is_none());
}

#[test]
fn text_helpers() {
    assert!(contains_char("a.b", '.'));
    assert!(!contains_char("ab", '.'));
    assert!(starts_with("https://www.reddit.com/r/x", "https://www.reddit.com/r/"));
    assert!(!starts_with("http", "https"));
}

fn record(kind: Option<&str>, id: Option<&str>, title: Option<&str>, text: Option<&str>, url: Option<&str>) -> ListingRecord {
    ListingRecord {
        kind: kind.map(|s| s.to_string()),
        id: id.map(|s| s.to_string()),
        title: title.map(|s| s.to_string()),
        selftext: text.map(|s| s.to_string()),
        url: url.map(|s| s.to_string()),
    }
}

#[test]
fn malformed_records_are_skipped_and_others_kept_in_order() {
    let records = vec![
        record(Some("t3"), Some("a1"), Some("Hello"), Some("world"), Some("https://www.reddit.com/r/x/a1")),
        record(Some("t3"), Some("bad"), None, Some(""), Some("http://y")),
        record(Some("t3"), Some("nourl"), Some("No URL"), Some(""), None),
        record(None, Some("nokind"), Some("K"), Some(""), None),
        record(Some("t1"), Some("c1"), Some("Comment"), Some("text"), None),
        record(Some("t3"), Some("a2"), Some("Link"), None, Some("http://x")),
        record(Some("t3"), Some("a3"), Some("Last"), Some(""), Some("http://z")),
    ];
    let items = items_of_records(&records);
    let ids: Vec<String> = items.iter().map(|i| i.external_id.clone()).collect();
    assert_eq!(ids, vec!["a1", "c1", "a3"]);
    assert_eq!(items[1].kind, ItemKind::Text);
    assert_eq!(item_content(&items[0]), b"world\n".to_vec());
    assert_eq!(item_content(&items[2]), b"http://z\n".to_vec());
    assert!(items_of_records(&vec![]).is_empty());
}

#[test]
fn record_to_item() {
    let r = record(Some("t3"), Some("a2"), Some("Link"), Some(""), Some("http://x"));
    let item = item_of_record(&r).unwrap();
    assert_eq!(item.kind, ItemKind::Link);
    assert_eq!(item.url, "http://x");
    assert!(item_of_record(&record(Some("t3"), None, Some("T"), Some(""), Some("u"))).is_none());
}
