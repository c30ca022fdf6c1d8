//! The wire-facing value types: signals and the request/response shapes
//! of the HTTP front end, with the validation and success/error decisions
//! that belong to the engine rather than to the transport.

use vstd::prelude::*;
use vstd::string::{StringExecFns, StringSliceAdditionalSpecFns};
use crate::response::{dec_digits, u64_to_string};

verus! {

/// An error raised at the protocol boundary, carrying its description.
#[derive(Debug, Clone, PartialEq, Eq)]
pub struct SignalError {
    /// What went wrong.
    pub message: String,
}

/// The largest accepted attribute, in bytes.
pub const MAX_ATTRIBUTE_BYTES: usize = 256;

/// The largest accepted value, in bytes.
pub const MAX_VALUE_BYTES: usize = 65536;

/// A signal to ingest: an entity, an attribute and a value.
#[derive(Debug, Clone, PartialEq, Eq)]
pub struct Signal {
    pub entity_id: u64,
    pub attribute: String,
    pub value: String,
}

/// The byte length of a string slice, as `str::len` reports it.
pub open spec fn str_byte_len(s: &str) -> nat {
    (s.spec_bytes().len() as usize) as nat
}

/// The message rejecting an attribute of `n` bytes.
pub open spec fn attribute_error_text(n: nat) -> Seq<char> {
    "Attribute length "@ + dec_digits(n) + " out of valid range 1..=256"@
}

/// The message rejecting a value of `n` bytes.
pub open spec fn value_error_text(n: nat) -> Seq<char> {
    "Value length "@ + dec_digits(n) + " out of valid range 1..=65536"@
}

impl Signal {
    /// A signal, taken as given.
    pub fn new(entity_id: u64, attribute: &str, value: &str) -> (r: Signal)
        ensures
            r.entity_id == entity_id,
            r.attribute@ == attribute@,
            r.value@ == value@,
    {
        Signal { entity_id, attribute: attribute.to_owned(), value: value.to_owned() }
    }

    /// A signal with its field lengths validated: the attribute must be 1
    /// to 256 bytes and the value 1 to 65,536 bytes, checked before any
    /// state can change. Exactly the out-of-range inputs are rejected,
    /// with a message naming the offending length.
    pub fn try_new(entity_id: u64, attribute: &str, value: &str) -> (r: Result<Signal, SignalError>)
        ensures
            r is Ok <==> (1 <= str_byte_len(attribute) <= MAX_ATTRIBUTE_BYTES
                && 1 <= str_byte_len(value) <= MAX_VALUE_BYTES),
            r matches Ok(s) ==> s.entity_id == entity_id && s.attribute@ == attribute@
                && s.value@ == value@,
            r matches Err(e) ==> e.message@ == (
                if !(1 <= str_byte_len(attribute) <= MAX_ATTRIBUTE_BYTES) {
                    attribute_error_text(str_byte_len(attribute))
                } else {
                    value_error_text(str_byte_len(value))
                }),
    {
        let alen = attribute.len();
        if alen == 0 || alen > MAX_ATTRIBUTE_BYTES {
            let mut message = String::new();
            message.append("Attribute length ");
            message.append(u64_to_string(alen as u64).as_str());
            message.append(" out of valid range 1..=256");
            proof {
                assert(message@ =~= attribute_error_text(str_byte_len(attribute)));
            }
            return Err(SignalError { message });
        }
        let vlen = value.len();
        if vlen == 0 || vlen > MAX_VALUE_BYTES {
            let mut message = String::new();
            message.append("Value length ");
            message.append(u64_to_string(vlen as u64).as_str());
            message.append(" out of valid range 1..=65536");
            proof {
                assert(message@ =~= value_error_text(str_byte_len(value)));
            }
            return Err(SignalError { message });
        }
        Ok(Signal { entity_id, attribute: attribute.to_owned(), value: value.to_owned() })
    }
}

/// The health-check reply of the HTTP front end.
#[derive(Debug, Clone, PartialEq, Eq)]
pub struct HealthResponse {
    pub status: String,
    pub version: String,
}

/// The graph status reply.
#[derive(Debug, Clone, PartialEq, Eq)]
pub struct StatusResponse {
    pub node_count: usize,
    pub edge_count: usize,
    pub stable_edges: usize,
    pub density_millionths: u64,
}

/// The developmental-stage reply.
#[derive(Debug, Clone, PartialEq, Eq)]
pub struct StageResponse {
    pub stage: String,
    pub name: String,
    pub progress_percent: u8,
    pub stable_edges_needed: usize,
    pub stable_edges_current: usize,
}

/// The reply to a signal ingestion.
#[derive(Debug, Clone, PartialEq, Eq)]
pub struct IngestResponse {
    pub success: bool,
    pub node_id: Option<u64>,
    pub error: Option<String>,
}

impl IngestResponse {
    /// The decision a client makes of an ingest reply: a failure carrying
    /// a message becomes that error; everything else passes through.
    pub fn into_result(self) -> (r: Result<IngestResponse, SignalError>)
        ensures
            match r {
                Result::Ok(resp) => resp == self && (self.success || self.error is None),
                Result::Err(e) => !self.success && (self.error matches Some(m) && e.message@ == m@),
            },
    {
        if !self.success {
            match &self.error {
                Some(e) => {
                    return Err(SignalError { message: e.clone() });
                }
                None => {}
            }
        }
        Ok(self)
    }
}

/// One edge of a query reply.
#[derive(Debug, Clone, Copy, PartialEq, Eq, Structural)]
pub struct Edge {
    pub from: u64,
    pub to: u64,
    pub weight: i64,
}

/// The reply to a query.
#[derive(Debug, Clone, PartialEq, Eq)]
pub struct QueryResponse {
    pub success: bool,
    pub found: bool,
    pub path: Vec<u64>,
    pub edges: Vec<Edge>,
    pub error: Option<String>,
}

impl QueryResponse {
    /// The decision a client makes of a query reply: a failure carrying a
    /// message becomes that error; everything else passes through.
    pub fn into_result(self) -> (r: Result<QueryResponse, SignalError>)
        ensures
            match r {
                Result::Ok(resp) => resp == self && (self.success || self.error is None),
                Result::Err(e) => !self.success && (self.error matches Some(m) && e.message@ == m@),
            },
    {
        if !self.success {
            match &self.error {
                Some(e) => {
                    return Err(SignalError { message: e.clone() });
                }
                None => {}
            }
        }
        Ok(self)
    }

    /// The first node of the reply's path, the way a lookup reads it.
    pub fn first_node(&self) -> (r: Option<u64>)
        ensures
            r == (if self.path@.len() > 0 { Some(self.path@[0]) } else { None::<u64> }),
    {
        if self.path.len() > 0 {
            Some(self.path[0])
        } else {
            None
        }
    }
}

/// The request shapes a client can send.
#[derive(Debug, Clone, PartialEq, Eq)]
pub enum Query {
    Lookup { entity_id: u64 },
    Traverse { node_id: u64, depth: usize },
    TraverseFiltered { node_id: u64, depth: usize, min_weight: i64 },
    StrongestPath { start: u64, end: u64 },
    Intersect { nodes: Vec<u64> },
    Related { node_id: u64, depth: usize },
}

} // verus!
