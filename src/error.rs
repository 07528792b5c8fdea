use vstd::prelude::*;

verus! {

/// What can go wrong while reading or writing the wire format.
#[derive(Debug, Clone, Copy, PartialEq, Eq, Structural)]
pub enum WireError {
    /// The input ended inside a field: mid-header, mid-value or mid-payload.
    UnexpectedEof,
    /// A field header carried a wire type code outside the known set.
    InvalidWireType,
    /// A varint spelled a value wider than 64 bits.
    VarintOverflow,
    /// A tag or a length does not fit in `usize`.
    ValueTooLarge,
    /// An accessor was called on a field of another wire type.
    UnexpectedFieldType,
    /// The field's payload was already accessed.
    FieldConsumed,
    /// The stream no longer stands where the field's payload begins: another
    /// field was read since, or the stream is not the field's own.
    FieldDetached,
    /// A string payload is not valid UTF-8.
    InvalidUtf8,
    /// The field's wire type has no skip or read path.
    UnsupportedWireType,
    /// The destination buffer is smaller than the serialized message.
    BufferTooSmall,
    /// The write pass did not match the layout recorded by the size pass.
    InvalidSerializer,
    /// A size or a header does not fit in `usize`.
    SizeOverflow,
}

} // verus!
