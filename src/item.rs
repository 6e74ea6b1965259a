//! Remote items and the file content made from them.
use vstd::prelude::*;
use vstd::string::*;
use vstd::utf8::encode_utf8;
use crate::text::starts_with;

verus! {

/// URLs that point back into the platform's own containers.
pub const SELF_LINK_PREFIX: &'static str = "https://www.reddit.com/r/";

/// The platform's tag for a post that carries a URL.
pub const LINK_KIND_TAG: &'static str = "t3";

#[derive(Clone, Copy, Debug, PartialEq, Eq, Structural)]
pub enum ItemKind {
    Text,
    Link,
}

/// One item of a container listing, as the platform describes it.
#[derive(Clone, Debug)]
pub struct ContentItem {
    pub kind: ItemKind,
    pub external_id: String,
    pub title: String,
    pub text: String,
    pub url: String,
}

pub struct ItemView {
    pub kind: ItemKind,
    pub external_id: Seq<char>,
    pub title: Seq<char>,
    pub text: Seq<char>,
    pub url: Seq<char>,
}

impl View for ContentItem {
    type V = ItemView;

    open spec fn view(&self) -> ItemView {
        ItemView {
            kind: self.kind,
            external_id: self.external_id@,
            title: self.title@,
            text: self.text@,
            url: self.url@,
        }
    }
}

pub open spec fn item_views(items: Seq<ContentItem>) -> Seq<ItemView> {
    items.map_values(|it: ContentItem| it@)
}

pub open spec fn is_self_link(url: Seq<char>) -> bool {
    SELF_LINK_PREFIX@.is_prefix_of(url)
}

/// The body a file shows: the text of a text item, the URL of a link item,
/// or the text of a link item whose URL points back into the platform.
pub open spec fn selected_body(item: ItemView) -> Seq<char> {
    match item.kind {
        ItemKind::Text => item.text,
        ItemKind::Link => if is_self_link(item.url) {
            item.text
        } else {
            item.url
        },
    }
}

/// The selected body with one trailing newline, unless it is empty.
pub open spec fn content_text(item: ItemView) -> Seq<char> {
    let b = selected_body(item);
    if b.len() == 0 {
        b
    } else {
        b.push('\n')
    }
}

/// The bytes of a file made from `item`.
pub open spec fn content_bytes(item: ItemView) -> Seq<u8> {
    encode_utf8(content_text(item))
}

/// Computes the content of the file that stands for `item`.
pub fn item_content(item: &ContentItem) -> (r: Vec<u8>)
    ensures
        r@ == content_bytes(item@),
{
    let body: &String = match item.kind {
        ItemKind::Text => &item.text,
        ItemKind::Link => if starts_with(item.url.as_str(), SELF_LINK_PREFIX) {
            &item.text
        } else {
            &item.url
        },
    };
    let mut t = body.clone();
    if !t.as_str().is_empty() {
        t.push('\n');
    }
    t.as_str().as_bytes_vec()
}

/// The item described by the fields of one listing record, if they make one:
/// a record tagged as a link needs a URL, any other record is a text item.
pub open spec fn item_of_fields(
    kind: Seq<char>,
    id: Seq<char>,
    title: Seq<char>,
    text: Seq<char>,
    url: Option<Seq<char>>,
) -> Option<ItemView> {
    if kind == LINK_KIND_TAG@ {
        match url {
            Some(u) => Some(
                ItemView { kind: ItemKind::Link, external_id: id, title, text, url: u },
            ),
            None => None,
        }
    } else {
        Some(ItemView { kind: ItemKind::Text, external_id: id, title, text, url: Seq::empty() })
    }
}

pub open spec fn opt_chars(s: Option<&str>) -> Option<Seq<char>> {
    match s {
        Some(t) => Some(t@),
        None => None,
    }
}

/// Builds an item from the fields of one listing record.
pub fn item_from_fields(kind: &str, id: &str, title: &str, text: &str, url: Option<&str>) -> (r:
    Option<ContentItem>)
    ensures
        match item_of_fields(kind@, id@, title@, text@, opt_chars(url)) {
            Some(v) => r is Some && r->0@ == v,
            None => r is None,
        },
{
    let tag_len = LINK_KIND_TAG.unicode_len();
    let is_link = kind.unicode_len() == tag_len && starts_with(kind, LINK_KIND_TAG);
    proof {
        if is_link {
            assert(kind@ =~= LINK_KIND_TAG@.subrange(0, tag_len as int));
            assert(kind@ =~= LINK_KIND_TAG@);
        }
    }
    if is_link {
        match url {
            Some(u) => Some(
                ContentItem {
                    kind: ItemKind::Link,
                    external_id: id.to_owned(),
                    title: title.to_owned(),
                    text: text.to_owned(),
                    url: u.to_owned(),
                },
            ),
            None => None,
        }
    } else {
        Some(
            ContentItem {
                kind: ItemKind::Text,
                external_id: id.to_owned(),
                title: title.to_owned(),
                text: text.to_owned(),
                url: String::new(),
            },
        )
    }
}

} // verus!
