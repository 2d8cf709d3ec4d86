//! A verified core for a DAP2 (Data Access Protocol v2) array-data server.
//!
//! The crate derives the two textual views of a dataset (DAS: attributes,
//! DDS: shapes), projects a constrained DDS from a client constraint
//! expression, packs hyperslabs of array data as XDR (big-endian) byte
//! streams, and joins several files into one dataset along an outer
//! dimension.

use vstd::prelude::*;

pub mod agg;
pub mod das;
pub mod dataset;
pub mod dds;
pub mod ddsparse;
pub mod hyperslab;
pub mod model;
pub mod ncml;
pub mod slab;
pub mod text;
pub mod xdr;

verus! {

/// The error kinds a DAP2 request can fail with.
#[derive(Clone, Copy, Debug, PartialEq, Eq, Structural)]
pub enum DapError {
    /// The constraint expression is malformed.
    InvalidConstraint,
    /// The constraint names a variable the dataset does not have.
    UnknownVariable,
    /// An attribute was requested that the dataset does not have.
    UnknownAttribute,
    /// A hyperslab reaches outside the variable's extent.
    SlabOutOfRange,
    /// A hyperslab uses a stride, which DAP2 serving does not support.
    StrideUnsupported,
    /// A size does not fit the wire format's 32-bit length field.
    Overflow,
    /// The file changed on disk after the dataset was opened.
    StaleDataset,
    /// The persisted chunk index does not describe the file.
    CorruptIndex,
    /// Reading from the file system failed.
    IoError,
    /// An aggregation member disagrees with the others in shape or type.
    MemberMismatch,
    /// The aggregation descriptor is not a supported join-existing setup.
    AggregationMisconfigured,
    /// A value could not be decoded from its container representation.
    InternalDecodeError,
}

impl DapError {
    /// A short description for logs and error bodies.
    pub fn message(&self) -> (r: &'static str)
        ensures
            r@.len() > 0,
    {
        proof {
            reveal_strlit("invalid constraint");
            reveal_strlit("unknown variable");
            reveal_strlit("unknown attribute");
            reveal_strlit("hyperslab out of range");
            reveal_strlit("strides not implemented");
            reveal_strlit("size overflows the XDR length field");
            reveal_strlit("dataset has changed on disk");
            reveal_strlit("corrupt chunk index");
            reveal_strlit("i/o error");
            reveal_strlit("aggregation member mismatch");
            reveal_strlit("aggregation misconfigured");
            reveal_strlit("could not decode value");
        }
        match self {
            DapError::InvalidConstraint => "invalid constraint",
            DapError::UnknownVariable => "unknown variable",
            DapError::UnknownAttribute => "unknown attribute",
            DapError::SlabOutOfRange => "hyperslab out of range",
            DapError::StrideUnsupported => "strides not implemented",
            DapError::Overflow => "size overflows the XDR length field",
            DapError::StaleDataset => "dataset has changed on disk",
            DapError::CorruptIndex => "corrupt chunk index",
            DapError::IoError => "i/o error",
            DapError::MemberMismatch => "aggregation member mismatch",
            DapError::AggregationMisconfigured => "aggregation misconfigured",
            DapError::InternalDecodeError => "could not decode value",
        }
    }
}

} // verus!
