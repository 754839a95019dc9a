//! Core value types of the graph store: vertex identifiers, type labels,
//! edge timestamps, and the error surface.

use vstd::prelude::*;

verus! {

/// A 128-bit identifier in its canonical 16-byte big-endian form.
#[derive(Clone, Copy, PartialEq, Eq, Debug)]
pub struct Id {
    pub bytes: [u8; 16],
}

impl View for Id {
    type V = Seq<u8>;

    open spec fn view(&self) -> Seq<u8> {
        self.bytes@
    }
}

impl Id {
    pub fn new(bytes: [u8; 16]) -> (r: Id)
        ensures
            r@ == bytes@,
    {
        Id { bytes }
    }
}

/// A type label is well formed when its UTF-8 form is between 1 and 255
/// bytes long, so that it fits behind a single nonzero length byte.
pub open spec fn valid_type(t: Seq<u8>) -> bool {
    1 <= t.len() <= 255
}

/// A short textual label carried by vertices and edges, stored as its
/// UTF-8 bytes.
#[derive(Clone, PartialEq, Eq, Debug)]
pub struct Type {
    pub bytes: Vec<u8>,
}

impl View for Type {
    type V = Seq<u8>;

    open spec fn view(&self) -> Seq<u8> {
        self.bytes@
    }
}

impl Type {
    /// Accepts exactly the labels whose byte form fits the length-prefixed
    /// key encoding: 1 to 255 bytes.
    pub fn new(bytes: Vec<u8>) -> (r: Option<Type>)
        ensures
            valid_type(bytes@) <==> r is Some,
            r matches Some(t) ==> t@ == bytes@,
    {
        if 1 <= bytes.len() && bytes.len() <= 255 {
            Some(Type { bytes })
        } else {
            None
        }
    }
}

/// A vertex: an identifier and its type label.
#[derive(Clone, PartialEq, Eq, Debug)]
pub struct Vertex {
    pub id: Id,
    pub t: Type,
}

impl Vertex {
    pub fn new(id: Id, t: Type) -> (r: Vertex)
        ensures
            r.id == id,
            r.t == t,
    {
        Vertex { id, t }
    }
}

/// An edge's update instant: milliseconds since the epoch, as an unsigned
/// 64-bit count. Keys encode it big-endian, so byte order is time order.
#[derive(Clone, Copy, PartialEq, Eq, Structural, Debug)]
pub struct Datetime {
    pub millis: u64,
}

impl Datetime {
    pub fn new(millis: u64) -> (r: Datetime)
        ensures
            r.millis == millis,
    {
        Datetime { millis }
    }
}

/// The largest representable instant; the open upper bound of a time range.
pub fn max_datetime() -> (r: Datetime)
    ensures
        r.millis == u64::MAX,
{
    Datetime { millis: u64::MAX }
}

/// The error kinds surfaced to callers. Absence of a row is never an
/// error; it is an `Option` on the success path.
#[derive(Clone, Copy, PartialEq, Eq, Structural, Debug)]
pub enum Error {
    /// An underlying key-value store operation failed.
    StoreIo,
    /// A property value could not be serialized to JSON bytes.
    JsonEncode,
    /// Stored property bytes could not be parsed as JSON.
    JsonDecode,
    /// A stored key did not match the schema of its column family.
    SchemaViolation,
}

} // verus!
