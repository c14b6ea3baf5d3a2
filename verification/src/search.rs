//! Results of full-text message search.

use vstd::prelude::*;

verus! {

#[derive(Debug, PartialEq, Eq)]
pub struct SearchResult {
    pub msg_id: String,
    pub peer_id: String,
    pub timestamp: u64,
}

/// The value a stored field of a matching document holds.
#[derive(Debug, Clone, PartialEq, Eq)]
pub enum StoredValue {
    Str(String),
    U64(u64),
    /// A value of another kind.
    Other,
}

/// Text of a stored field: its string, or empty when absent or not a string.
pub open spec fn field_text(v: Option<StoredValue>) -> Seq<char> {
    match v {
        Some(StoredValue::Str(s)) => s@,
        _ => Seq::empty(),
    }
}

/// Number of a stored field: its value, or zero when absent or not a number.
pub open spec fn field_number(v: Option<StoredValue>) -> u64 {
    match v {
        Some(StoredValue::U64(n)) => n,
        _ => 0,
    }
}

fn extract_str(v: Option<StoredValue>) -> (s: String)
    ensures
        s@ == field_text(v),
{
    match v {
        Some(StoredValue::Str(s)) => s,
        _ => String::new(),
    }
}

fn extract_u64(v: Option<StoredValue>) -> (n: u64)
    ensures
        n == field_number(v),
{
    match v {
        Some(StoredValue::U64(n)) => n,
        _ => 0,
    }
}

impl SearchResult {
    /// The result for a matching document with these stored message id, peer
    /// id and timestamp fields.
    pub fn from_fields(msg_id: Option<StoredValue>, peer_id: Option<StoredValue>, timestamp: Option<StoredValue>) -> (r: Self)
        ensures
            r.msg_id@ == field_text(msg_id),
            r.peer_id@ == field_text(peer_id),
            r.timestamp == field_number(timestamp),
    {
        SearchResult {
            msg_id: extract_str(msg_id),
            peer_id: extract_str(peer_id),
            timestamp: extract_u64(timestamp),
        }
    }
}

} // verus!
