//! Loading a book from a REST snapshot.
use vstd::prelude::*;
use crate::book::{apply_levels_to, Orderbook};
use crate::codec::{
    decode_levels, levels_of, parse_revision, revision_of, DecodeError, PriceLevel,
};
use crate::json::{field, get_field, get_pairs, get_wire_text, json_document, pairs_of, parse_json, wire_text, Json};

verus! {

/// Why a snapshot could not be loaded.
#[derive(Clone, Copy, Debug, PartialEq, Eq, Structural)]
pub enum SnapshotError {
    /// The envelope's data collection is empty.
    EmptyPayload,
    /// The response is not JSON of the expected shape.
    MalformedEnvelope,
    /// A price, size or timestamp is not a valid number.
    Decode(DecodeError),
}

/// What a snapshot lists: the ask levels, the bid levels and its revision.
pub struct Listing {
    pub asks: Seq<PriceLevel>,
    pub bids: Seq<PriceLevel>,
    pub revision: u64,
}

pub open spec fn pairs_field(entries: Seq<(String, Json)>, key: Seq<char>) -> Option<Seq<(Seq<char>, Seq<char>)>> {
    match field(entries, key) {
        Some(j) => pairs_of(j),
        None => None,
    }
}

pub open spec fn text_field(entries: Seq<(String, Json)>, key: Seq<char>) -> Option<Seq<char>> {
    match field(entries, key) {
        Some(j) => wire_text(j),
        None => None,
    }
}

/// The listing of one book element `{asks: [...], bids: [...], ts: ...}`.
pub open spec fn listing_of(element: Json) -> Result<Listing, SnapshotError> {
    match element {
        Json::Object(e) => {
            let asks = pairs_field(e@, "asks"@);
            let bids = pairs_field(e@, "bids"@);
            let ts = text_field(e@, "ts"@);
            if asks is None || bids is None || ts is None {
                Err(SnapshotError::MalformedEnvelope)
            } else {
                match (levels_of(asks->Some_0), levels_of(bids->Some_0), revision_of(ts->Some_0)) {
                    (Some(a), Some(b), Some(r)) => Ok(Listing { asks: a, bids: b, revision: r }),
                    _ => Err(SnapshotError::Decode(DecodeError::NumericFormat)),
                }
            }
        },
        _ => Err(SnapshotError::MalformedEnvelope),
    }
}

/// The listing of a snapshot envelope `{data: [element, ...]}`: its first element.
pub open spec fn snapshot_of(doc: Json) -> Result<Listing, SnapshotError> {
    match doc {
        Json::Object(e) => match field(e@, "data"@) {
            Some(Json::Array(items)) => if items@.len() == 0 {
                Err(SnapshotError::EmptyPayload)
            } else {
                listing_of(items@[0])
            },
            _ => Err(SnapshotError::MalformedEnvelope),
        },
        _ => Err(SnapshotError::MalformedEnvelope),
    }
}

/// A document that is not JSON at all is a malformed envelope.
pub open spec fn document_or_malformed(
    doc: Option<Json>,
    f: spec_fn(Json) -> Result<Listing, SnapshotError>,
) -> Result<Listing, SnapshotError> {
    match doc {
        Some(d) => f(d),
        None => Err(SnapshotError::MalformedEnvelope),
    }
}

/// `r` is the book that `listing` describes, built as one update applied to an empty book.
pub open spec fn holds_listing(r: Orderbook, listing: Listing) -> bool {
    &&& r.wf()
    &&& r.ask_map() == apply_levels_to(Map::empty(), listing.asks)
    &&& r.bid_map() == apply_levels_to(Map::empty(), listing.bids)
    &&& r@.revision == listing.revision
}

/// `r` is what loading `expected` gives.
pub open spec fn loaded(r: Result<Orderbook, SnapshotError>, expected: Result<Listing, SnapshotError>) -> bool {
    match expected {
        Ok(l) => r matches Ok(b) && holds_listing(b, l),
        Err(e) => r == Err::<Orderbook, SnapshotError>(e),
    }
}

/// Builds the book that one book element lists.
pub fn load_element(element: &Json) -> (r: Result<Orderbook, SnapshotError>)
    ensures
        loaded(r, listing_of(*element)),
{
    match element {
        Json::Object(e) => {
            let asks = match get_field(e, "asks") {
                Some(j) => get_pairs(j),
                None => None,
            };
            let bids = match get_field(e, "bids") {
                Some(j) => get_pairs(j),
                None => None,
            };
            let ts = match get_field(e, "ts") {
                Some(j) => get_wire_text(j),
                None => None,
            };
            match (asks, bids, ts) {
                (Some(a), Some(b), Some(t)) => {
                    let asks = decode_levels(&a);
                    let bids = decode_levels(&b);
                    let revision = parse_revision(t.as_str());
                    match (asks, bids, revision) {
                        (Ok(x), Ok(y), Ok(rev)) => Ok(Orderbook::from_levels(&x, &y, rev)),
                        _ => Err(SnapshotError::Decode(DecodeError::NumericFormat)),
                    }
                },
                _ => Err(SnapshotError::MalformedEnvelope),
            }
        },
        _ => Err(SnapshotError::MalformedEnvelope),
    }
}

/// Builds the book that a snapshot envelope lists.
pub fn load_document(doc: &Json) -> (r: Result<Orderbook, SnapshotError>)
    ensures
        loaded(r, snapshot_of(*doc)),
{
    match doc {
        Json::Object(e) => match get_field(e, "data") {
            Some(Json::Array(items)) => {
                if items.len() == 0 {
                    Err(SnapshotError::EmptyPayload)
                } else {
                    load_element(&items[0])
                }
            },
            _ => Err(SnapshotError::MalformedEnvelope),
        },
        _ => Err(SnapshotError::MalformedEnvelope),
    }
}

/// The listing of a snapshot envelope, or of a bare book element when the
/// document has no `data` entry.
pub open spec fn book_of(doc: Json) -> Result<Listing, SnapshotError> {
    match doc {
        Json::Object(e) => if field(e@, "data"@) is Some {
            snapshot_of(doc)
        } else {
            listing_of(doc)
        },
        _ => Err(SnapshotError::MalformedEnvelope),
    }
}

/// A JSON object with both an `asks` and a `bids` entry.
pub open spec fn has_book_fields(doc: Json) -> bool {
    match doc {
        Json::Object(e) => field(e@, "asks"@) is Some && field(e@, "bids"@) is Some,
        _ => false,
    }
}

/// Builds the book that a snapshot envelope or a bare book element lists.
pub fn load_book(doc: &Json) -> (r: Result<Orderbook, SnapshotError>)
    ensures
        loaded(r, book_of(*doc)),
{
    match doc {
        Json::Object(e) => {
            if get_field(e, "data").is_some() {
                load_document(doc)
            } else {
                load_element(doc)
            }
        },
        _ => Err(SnapshotError::MalformedEnvelope),
    }
}

/// Loads a book from a snapshot envelope or from a bare book element.
pub fn parse_order_book(data: &str) -> (r: Result<Orderbook, SnapshotError>)
    ensures
        loaded(r, document_or_malformed(json_document(data@), |d: Json| book_of(d))),
{
    match parse_json(data) {
        Some(doc) => load_book(&doc),
        None => Err(SnapshotError::MalformedEnvelope),
    }
}

/// Whether a document is an object with both sides present.
pub fn check_book_fields(doc: &Json) -> (r: bool)
    ensures
        r == has_book_fields(*doc),
{
    match doc {
        Json::Object(e) => get_field(e, "asks").is_some() && get_field(e, "bids").is_some(),
        _ => false,
    }
}

/// Accepts a JSON object that has both an `asks` and a `bids` entry.
pub fn validate_order_book_data(data: &str) -> (r: Result<(), SnapshotError>)
    ensures
        r is Ok <==> (json_document(data@) matches Some(d) && has_book_fields(d)),
        r is Err ==> r == Err::<(), SnapshotError>(SnapshotError::MalformedEnvelope),
{
    match parse_json(data) {
        Some(doc) => {
            if check_book_fields(&doc) {
                Ok(())
            } else {
                Err(SnapshotError::MalformedEnvelope)
            }
        },
        None => Err(SnapshotError::MalformedEnvelope),
    }
}

impl Orderbook {
    /// Loads a book from the body of a REST snapshot response.
    pub fn from_snapshot(data: &str) -> (r: Result<Orderbook, SnapshotError>)
        ensures
            loaded(r, document_or_malformed(json_document(data@), |d: Json| snapshot_of(d))),
    {
        match parse_json(data) {
            Some(doc) => load_document(&doc),
            None => Err(SnapshotError::MalformedEnvelope),
        }
    }
}

} // verus!
