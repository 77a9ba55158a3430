//! Merging incremental updates from the stream into a book.
use vstd::prelude::*;
use crate::book::{apply_levels_to, is_stale, next_revision, BookUpdate, Orderbook, UpdateError};
use crate::codec::{decode_levels, levels_of, parse_revision, revision_of, DecodeError, PriceLevel};
use crate::json::{field, get_field, get_pairs, get_wire_text, json_document, pairs_of, parse_json, wire_text, Json};

verus! {

/// What an update carries: the levels of each side and its revision, if any.
pub struct Delta {
    pub asks: Seq<PriceLevel>,
    pub bids: Seq<PriceLevel>,
    pub revision: Option<u64>,
}

/// The wire pairs of an optional side: an absent side has none; a present one
/// must be an array of wire pairs.
pub open spec fn side_pairs(entries: Seq<(String, Json)>, key: Seq<char>) -> Option<Seq<(Seq<char>, Seq<char>)>> {
    match field(entries, key) {
        Some(j) => pairs_of(j),
        None => Some(Seq::empty()),
    }
}

/// The revision text of an update: absent, or a wire number.
pub open spec fn revision_text(entries: Seq<(String, Json)>) -> Option<Option<Seq<char>>> {
    match field(entries, "ts"@) {
        Some(j) => match wire_text(j) {
            Some(t) => Some(Some(t)),
            None => None,
        },
        None => Some(None),
    }
}

/// The decoded revision, if the update carries one.
pub open spec fn decoded_revision(t: Option<Seq<char>>) -> Option<Option<u64>> {
    match t {
        Some(s) => match revision_of(s) {
            Some(v) => Some(Some(v)),
            None => None,
        },
        None => Some(None),
    }
}

/// What an update payload `{asks?: [...], bids?: [...], ts?: ...}` carries.
pub open spec fn delta_of(doc: Json) -> Result<Delta, DecodeError> {
    match doc {
        Json::Object(e) => {
            let asks = side_pairs(e@, "asks"@);
            let bids = side_pairs(e@, "bids"@);
            let ts = revision_text(e@);
            if asks is None || bids is None || ts is None {
                Err(DecodeError::Malformed)
            } else {
                match (levels_of(asks->Some_0), levels_of(bids->Some_0), decoded_revision(ts->Some_0)) {
                    (Some(a), Some(b), Some(r)) => Ok(Delta { asks: a, bids: b, revision: r }),
                    _ => Err(DecodeError::NumericFormat),
                }
            }
        },
        _ => Err(DecodeError::Malformed),
    }
}

/// What an update payload carries, when the text is JSON at all.
pub open spec fn payload_delta(doc: Option<Json>) -> Result<Delta, DecodeError> {
    match doc {
        Some(d) => delta_of(d),
        None => Err(DecodeError::Malformed),
    }
}

/// `after` and `r` are what merging `delta` (or failing to decode it) into
/// `before` gives: all of it, or nothing.
pub open spec fn merged(
    before: Orderbook,
    after: Orderbook,
    r: Result<(), UpdateError>,
    delta: Result<Delta, DecodeError>,
) -> bool {
    &&& after.wf()
    &&& match delta {
        Err(e) => r == Err::<(), UpdateError>(UpdateError::Decode(e)) && after@ == before@,
        Ok(d) => if is_stale(before@.revision, d.revision) {
            r == Err::<(), UpdateError>(UpdateError::Stale) && after@ == before@
        } else {
            &&& r is Ok
            &&& after.ask_map() == apply_levels_to(before.ask_map(), d.asks)
            &&& after.bid_map() == apply_levels_to(before.bid_map(), d.bids)
            &&& after@.revision == next_revision(before@.revision, d.revision)
        },
    }
}

fn optional_side(e: &Vec<(String, Json)>, key: &str) -> (r: Option<Vec<(String, String)>>)
    ensures
        r is None <==> side_pairs(e@, key@) is None,
        r matches Some(v) ==> side_pairs(e@, key@) == Some(crate::codec::pair_texts(v@)),
{
    match get_field(e, key) {
        Some(j) => get_pairs(j),
        None => {
            let v: Vec<(String, String)> = Vec::new();
            assert(crate::codec::pair_texts(v@) =~= Seq::empty());
            Some(v)
        },
    }
}

/// Decodes an update payload.
pub fn decode_update(doc: &Json) -> (r: Result<BookUpdate, DecodeError>)
    ensures
        match delta_of(*doc) {
            Ok(d) => r matches Ok(u) && u.asks@ == d.asks && u.bids@ == d.bids && u.revision == d.revision,
            Err(e) => r == Err::<BookUpdate, DecodeError>(e),
        },
{
    match doc {
        Json::Object(e) => {
            let asks = optional_side(e, "asks");
            let bids = optional_side(e, "bids");
            let ts: Option<Option<String>> = match get_field(e, "ts") {
                Some(j) => match get_wire_text(j) {
                    Some(t) => Some(Some(t)),
                    None => None,
                },
                None => Some(None),
            };
            match (asks, bids, ts) {
                (Some(a), Some(b), Some(t)) => {
                    let asks = decode_levels(&a);
                    let bids = decode_levels(&b);
                    let revision: Result<Option<u64>, DecodeError> = match t {
                        Some(text) => match parse_revision(text.as_str()) {
                            Ok(v) => Ok(Some(v)),
                            Err(err) => Err(err),
                        },
                        None => Ok(None),
                    };
                    match (asks, bids, revision) {
                        (Ok(x), Ok(y), Ok(rev)) => Ok(BookUpdate { asks: x, bids: y, revision: rev }),
                        _ => Err(DecodeError::NumericFormat),
                    }
                },
                _ => Err(DecodeError::Malformed),
            }
        },
        _ => Err(DecodeError::Malformed),
    }
}

impl Orderbook {
    /// Merges a decoded update payload into the book, all or nothing.
    pub fn apply_document(&mut self, doc: &Json) -> (r: Result<(), UpdateError>)
        requires
            old(self).wf(),
        ensures
            merged(*old(self), *final(self), r, delta_of(*doc)),
    {
        match decode_update(doc) {
            Ok(u) => self.apply(&u),
            Err(e) => Err(UpdateError::Decode(e)),
        }
    }

    /// Merges one raw update payload from the stream into the book, all or
    /// nothing. A stale or undecodable update leaves the book as it was.
    pub fn apply_update(&mut self, update: &str) -> (r: Result<(), UpdateError>)
        requires
            old(self).wf(),
        ensures
            merged(*old(self), *final(self), r, payload_delta(json_document(update@))),
    {
        match parse_json(update) {
            Some(doc) => self.apply_document(&doc),
            None => Err(UpdateError::Decode(DecodeError::Malformed)),
        }
    }
}

} // verus!
