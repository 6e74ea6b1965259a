//! Reading a container listing out of the platform's JSON reply.
use vstd::prelude::*;
use serde_json::Value;
use crate::item::{ContentItem, ItemView, item_from_fields, item_of_fields, item_views, opt_chars};

verus! {

/// serde_json's `Value`, carried through as an opaque value.
#[verifier::external_type_specification]
#[verifier::external_body]
pub struct ExJsonValue(Value);

/// Relies on serde_json's `Value::as_str`: the text of a JSON string, `None`
/// for any other value.
pub assume_specification<'a>[ Value::as_str ](v: &'a Value) -> Option<&'a str>;

/// Relies on serde_json's `Value::as_array`: the elements of a JSON array,
/// `None` for any other value.
pub assume_specification<'a>[ Value::as_array ](v: &'a Value) -> Option<&'a Vec<Value>>;

/// Relies on serde_json's `Value::get` with a string key: the member of a JSON
/// object under that key, `None` if there is none or `v` is no object.
#[verifier::external_body]
fn member<'a>(v: &'a Value, key: &str) -> Option<&'a Value> {
    v.get(key)
}

/// The string fields of one listing record that an item is made from; a
/// field is `None` where the record has no string under its key.
#[derive(Clone, Debug)]
pub struct ListingRecord {
    pub kind: Option<String>,
    pub id: Option<String>,
    pub title: Option<String>,
    pub selftext: Option<String>,
    pub url: Option<String>,
}

pub open spec fn opt_string_chars(s: Option<String>) -> Option<Seq<char>> {
    match s {
        Some(t) => Some(t@),
        None => None,
    }
}

/// The item a record describes: it needs a kind, an id, a title and a text;
/// a record of the link kind needs a URL as well.
pub open spec fn record_item(r: ListingRecord) -> Option<ItemView> {
    match (r.kind, r.id, r.title, r.selftext) {
        (Some(k), Some(i), Some(t), Some(x)) => item_of_fields(
            k@,
            i@,
            t@,
            x@,
            opt_string_chars(r.url),
        ),
        _ => None,
    }
}

/// The items of a listing, in listing order: every record that describes an
/// item gives it, the others are skipped.
pub open spec fn listing_of(rs: Seq<ListingRecord>) -> Seq<ItemView>
    decreases rs.len(),
{
    if rs.len() == 0 {
        Seq::empty()
    } else {
        let init = listing_of(rs.drop_last());
        match record_item(rs.last()) {
            Some(v) => init.push(v),
            None => init,
        }
    }
}

fn opt_str(s: &Option<String>) -> (r: Option<&str>)
    ensures
        opt_chars(r) == opt_string_chars(*s),
{
    match s {
        Some(t) => Some(t.as_str()),
        None => None,
    }
}

/// The item that one record describes, if any.
pub fn item_of_record(r: &ListingRecord) -> (res: Option<ContentItem>)
    ensures
        match record_item(*r) {
            Some(v) => res is Some && res->0@ == v,
            None => res is None,
        },
{
    match (&r.kind, &r.id, &r.title, &r.selftext) {
        (Some(k), Some(i), Some(t), Some(x)) => item_from_fields(
            k.as_str(),
            i.as_str(),
            t.as_str(),
            x.as_str(),
            opt_str(&r.url),
        ),
        _ => None,
    }
}

/// The items that a listing's records describe, in listing order; records
/// that describe no item are skipped and the others still give theirs.
pub fn items_of_records(records: &Vec<ListingRecord>) -> (r: Vec<ContentItem>)
    ensures
        item_views(r@) == listing_of(records@),
{
    let mut items: Vec<ContentItem> = Vec::new();
    let mut i: usize = 0;
    while i < records.len()
        invariant
            i <= records@.len(),
            item_views(items@) == listing_of(records@.take(i as int)),
        decreases records@.len() - i,
    {
        let ghost before = items@;
        assert(records@.take(i + 1).drop_last() =~= records@.take(i as int));
        assert(records@.take(i + 1).last() == records@[i as int]);
        if let Some(item) = item_of_record(&records[i]) {
            items.push(item);
            assert(item_views(items@) =~= item_views(before).push(item@));
        }
        i += 1;
    }
    assert(records@.take(records@.len() as int) =~= records@);
    items
}

/// The string member of `v` under `key`, as an owned string.
fn string_member(v: &Value, key: &str) -> Option<String> {
    match member(v, key) {
        Some(m) => match m.as_str() {
            Some(s) => Some(s.to_owned()),
            None => None,
        },
        None => None,
    }
}

/// Copies the fields of one JSON listing record into a `ListingRecord`.
fn record_of_json(post: &Value) -> ListingRecord {
    let data = member(post, "data");
    let field = |key: &str| -> Option<String> {
        match data {
            Some(d) => string_member(d, key),
            None => None,
        }
    };
    ListingRecord {
        kind: string_member(post, "kind"),
        id: field("id"),
        title: field("title"),
        selftext: field("selftext"),
        url: field("url"),
    }
}

/// The items of a listing reply, as `items_of_records` gives them for the
/// reply's records; a reply without a `data.children` array gives `None`.
pub fn listing_items(listing: &Value) -> Option<Vec<ContentItem>> {
    let data = match member(listing, "data") {
        Some(d) => d,
        None => return None,
    };
    let children = match member(data, "children") {
        Some(c) => c,
        None => return None,
    };
    let records = match children.as_array() {
        Some(a) => a,
        None => return None,
    };
    let mut fields: Vec<ListingRecord> = Vec::new();
    let mut i: usize = 0;
    while i < records.len()
        invariant
            i <= records@.len(),
        decreases records@.len() - i,
    {
        fields.push(record_of_json(&records[i]));
        i += 1;
    }
    Some(items_of_records(&fields))
}

} // verus!
