//! What the server's handlers decide, from plain values to plain values:
//! whom a request is about, what becomes of the catalogue, and what the
//! client is told when a request cannot be served.

use vstd::prelude::*;
use vstd::string::*;
use crate::item::Item;
use crate::model::{BadRequest, CreateStatus};
use crate::shelf::{Shelf, ShelfError, ShelfView};
use crate::text::same_text;

verus! {

/// A percent-encoded text decoded and read as UTF-8, or the complaint
/// about bytes that are no UTF-8.
pub uninterp spec fn percent_decoded(text: Seq<char>) -> Result<Seq<char>, Seq<char>>;

/// A text between quotes, with its special characters escaped, as `Debug`
/// writes a string.
pub uninterp spec fn quoted(text: Seq<char>) -> Seq<char>;

/// Calls `percent_encoding::percent_decode_str` and `decode_utf8` on what
/// it gives; an error is written out. The result depends on the text
/// alone.
#[verifier::external_body]
pub(crate) fn percent_decode(text: &str) -> (r: Result<String, String>)
    ensures
        match r {
            Ok(s) => percent_decoded(text@) == Ok::<Seq<char>, Seq<char>>(s@),
            Err(e) => percent_decoded(text@) == Err::<Seq<char>, Seq<char>>(e@),
        },
{
    match percent_encoding::percent_decode_str(text).decode_utf8() {
        Ok(s) => Ok(s.into_owned()),
        Err(e) => Err(format!("{}", e)),
    }
}

/// Writes a text as `str`'s `Debug` form does.
#[verifier::external_body]
pub(crate) fn quote(text: &str) -> (r: String)
    ensures
        r@ == quoted(text@),
{
    format!("{:?}", text)
}

/// The complaint about a key that cannot be decoded.
pub open spec fn undecodable(key: Seq<char>, why: Seq<char>) -> Seq<char> {
    "Could not percent-decode item "@ + quoted(key) + ": "@ + why
}

/// The complaint about an item sent to the route of another key.
pub open spec fn key_mismatch(item_key: Seq<char>, route_key: Seq<char>) -> Seq<char> {
    "Item has key '"@ + item_key + "' but this route is for key '"@ + route_key + "'"@
}

/// The complaint about a record that the catalogue refused.
pub open spec fn refusal(error: ShelfError) -> Seq<char> {
    match error {
        ShelfError::InvalidReference(k) => "Unrecognized reference to entity "@ + k@,
        ShelfError::InvalidKey(k) => "Invalid key '"@ + k@ + "'"@,
    }
}

/// The complaint about an uploaded blob that does not say what it is.
pub open spec fn untyped_blob(name: Seq<char>) -> Seq<char> {
    "Blob "@ + name + " is missing a content-type"@
}

/// The key that stands for a blank item.
pub open spec fn template_key() -> Seq<char> {
    ":template:"@
}

/// What a request to store an item leads to: the decoded key, or the
/// complaint to answer with. The key of the route must decode to the
/// item's key, and the catalogue must hold what the item names.
pub open spec fn posted(s: ShelfView, key: Seq<char>, item: Item) -> Result<Seq<char>, Seq<char>> {
    match percent_decoded(key) {
        Err(e) => Err(undecodable(key, e)),
        Ok(d) => if d != item.key@ {
            Err(key_mismatch(item.key@, key))
        } else {
            match s.unresolved(item) {
                Some(k) => Err("Unrecognized reference to entity "@ + k),
                None => Ok(d),
            }
        },
    }
}

/// What a request for an item is answered with.
pub enum ItemAnswer<'a> {
    /// A blank item, for the client to fill in.
    Template,
    Found(&'a Item),
    NotFound,
}

/// Why a request failed, as far as the answer's status goes.
#[derive(Clone, Copy, Debug, PartialEq, Eq, Structural)]
pub enum Failure {
    /// A request to another server failed.
    Upstream,
    BadRequest,
    UnsupportedMediaType,
    /// The request's body could not be read as what the route takes.
    UnreadableBody,
    NotFound,
    Internal,
    Other,
}

/// The status that answers each failure.
pub open spec fn status_of(failure: Failure) -> u16 {
    match failure {
        Failure::Upstream => 502,
        Failure::BadRequest => 400,
        Failure::UnsupportedMediaType => 415,
        Failure::UnreadableBody => 400,
        Failure::NotFound => 404,
        Failure::Internal => 500,
        Failure::Other => 500,
    }
}

/// The status that answers a failure.
pub fn failure_status(failure: Failure) -> (r: u16)
    ensures
        r == status_of(failure),
{
    match failure {
        Failure::Upstream => 502,
        Failure::BadRequest => 400,
        Failure::UnsupportedMediaType => 415,
        Failure::UnreadableBody => 400,
        Failure::NotFound => 404,
        Failure::Internal => 500,
        Failure::Other => 500,
    }
}

/// Whether an upsert made a record or changed one.
pub fn create_status(created: bool) -> (r: CreateStatus)
    ensures
        r == if created {
            CreateStatus::Created
        } else {
            CreateStatus::Updated
        },
{
    if created {
        CreateStatus::Created
    } else {
        CreateStatus::Updated
    }
}

/// The status that answers an upsert: 201 for a new record, 202 for a
/// changed one.
pub fn create_code(status: CreateStatus) -> (r: u16)
    ensures
        r == match status {
            CreateStatus::Created => 201u16,
            CreateStatus::Updated => 202u16,
        },
{
    match status {
        CreateStatus::Created => 201,
        CreateStatus::Updated => 202,
    }
}

/// Decodes the key in a request's path.
pub fn decode_key(key: &str) -> (r: Result<String, BadRequest>)
    ensures
        match r {
            Ok(s) => percent_decoded(key@) == Ok::<Seq<char>, Seq<char>>(s@),
            Err(b) => percent_decoded(key@) matches Err(e) && b.error@ == undecodable(key@, e),
        },
{
    match percent_decode(key) {
        Ok(s) => Ok(s),
        Err(e) => {
            let mut m = String::from_str("Could not percent-decode item ");
            let q = quote(key);
            m.append(q.as_str());
            m.append(": ");
            m.append(e.as_str());
            Err(BadRequest { error: m })
        },
    }
}

/// Tells the client why the catalogue refused a record.
pub fn refused(error: &ShelfError) -> (r: BadRequest)
    ensures
        r.error@ == refusal(*error),
{
    match error {
        ShelfError::InvalidReference(k) => {
            let mut m = String::from_str("Unrecognized reference to entity ");
            m.append(k.as_str());
            BadRequest { error: m }
        },
        ShelfError::InvalidKey(k) => {
            let mut m = String::from_str("Invalid key '");
            m.append(k.as_str());
            m.append("'");
            BadRequest { error: m }
        },
    }
}

/// Tells the client that an uploaded blob does not say what it is.
pub fn missing_content_type(name: &str) -> (r: BadRequest)
    ensures
        r.error@ == untyped_blob(name@),
{
    let mut m = String::from_str("Blob ");
    m.append(name);
    m.append(" is missing a content-type");
    BadRequest { error: m }
}

/// Answers a request for the item with a key: the key that stands for a
/// blank item is taken as it is, any other is decoded and looked up.
pub fn item_get<'a>(shelf: &'a Shelf, key: &str) -> (r: Result<ItemAnswer<'a>, BadRequest>)
    ensures
        key@ == template_key() ==> r matches Ok(ItemAnswer::Template),
        key@ != template_key() ==> match percent_decoded(key@) {
            Ok(d) => match crate::keyed::find(shelf@.items, d) {
                Some(i) => r matches Ok(ItemAnswer::Found(item)) && *item == shelf@.items[i],
                None => r matches Ok(ItemAnswer::NotFound),
            },
            Err(e) => r matches Err(b) && b.error@ == undecodable(key@, e),
        },
{
    if same_text(key, ":template:") {
        return Ok(ItemAnswer::Template);
    }
    match decode_key(key) {
        Ok(decoded) => match shelf.get_item(decoded.as_str()) {
            Some(item) => Ok(ItemAnswer::Found(item)),
            None => Ok(ItemAnswer::NotFound),
        },
        Err(b) => Err(b),
    }
}

/// Stores the item that a request sent to the route of a key, and gives
/// the decoded key; or leaves the catalogue as it was and gives the
/// complaint to answer with.
pub fn item_post(shelf: &mut Shelf, key: &str, item: Item) -> (r: Result<String, BadRequest>)
    ensures
        match posted(old(shelf)@, key@, item) {
            Ok(k) => (r matches Ok(s) && s@ == k) && final(shelf)@
                == old(shelf)@.with_item(item),
            Err(m) => (r matches Err(b) && b.error@ == m) && final(shelf)@ == old(shelf)@,
        },
        old(shelf)@.wf() ==> final(shelf)@.wf(),
{
    let decoded = match decode_key(key) {
        Ok(s) => s,
        Err(b) => {
            return Err(b);
        },
    };
    if !same_text(decoded.as_str(), item.key.as_str()) {
        let mut m = String::from_str("Item has key '");
        m.append(item.key.as_str());
        m.append("' but this route is for key '");
        m.append(key);
        m.append("'");
        return Err(BadRequest { error: m });
    }
    match shelf.replace_item(item) {
        Ok(()) => Ok(decoded),
        Err(e) => Err(refused(&e)),
    }
}

} // verus!
