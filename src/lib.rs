//! Decoding and encoding of the extension sequence that may follow the
//! fixed-size header of a NIfTI-1 volume file.

pub mod extension;
pub mod proofs;
pub mod wire;

pub use extension::{
    DecoderView, Extender, Extension, ExtensionSequence, ExtensionView, NiftiEcode, NiftiError,
    SequenceDecoder, SequenceView,
};
pub use wire::ByteOrder;
