//! A protocol-buffers style wire codec: LEB128 varints, tagged fields, a
//! streaming decoder whose fields are read at most once, and a two-pass
//! encoder that sizes nested messages before it writes them.

use vstd::prelude::*;

pub mod wire_type;
pub mod varint;
pub mod error;
pub mod input_stream;
pub mod message;
pub mod output_stream;
pub mod serializer;
pub mod output_writer;
pub mod round_trip;

pub use wire_type::WireType;
use message::{encode_message, layout, tags_ok};
use serializer::sizes_of;
pub use error::WireError;
pub use input_stream::{InputStream, Field};
pub use message::{Message, LoadableMessage, MessageField, FieldValue, MAX_TAG, tags_in_range};
pub use output_stream::{NumField, OutputStream, OutputStreamBackend};
pub use output_writer::OutputWriter;
pub use serializer::Serializer;

verus! {

/// Runs the size pass over `msg`: the result knows its encoded size and the
/// size of every nested message in it.
pub fn serializer_for<M: Message>(msg: &M) -> (r: Result<Serializer, WireError>)
    requires
        tags_ok(msg.spec_fields()),
    ensures
        r is Ok <==> encode_message(msg.spec_fields()).len() <= usize::MAX,
        r matches Ok(s) ==> s.written() == encode_message(msg.spec_fields()),
        r matches Ok(s) ==> sizes_of(s.nested_sizes()) == layout(msg.spec_fields()),
        r is Err ==> r == Err::<Serializer, WireError>(WireError::SizeOverflow),
{
    let mut serializer = Serializer::new();
    match serializer.count_message(msg) {
        Ok(()) => {},
        Err(e) => return Err(e),
    }
    proof {
        assert(Seq::<u8>::empty() + encode_message(msg.spec_fields()) =~= encode_message(msg.spec_fields()));
        assert(sizes_of(Seq::<usize>::empty()) =~= Seq::<nat>::empty());
        assert(Seq::<nat>::empty() + layout(msg.spec_fields()) =~= layout(msg.spec_fields()));
    }
    Ok(serializer)
}

/// Encodes `msg` into a new buffer, running the size pass and then the
/// write pass.
pub fn serialize<M: Message>(msg: &M) -> (r: Result<Vec<u8>, WireError>)
    requires
        tags_ok(msg.spec_fields()),
    ensures
        r is Ok <==> encode_message(msg.spec_fields()).len() <= usize::MAX,
        r matches Ok(bytes) ==> bytes@ == encode_message(msg.spec_fields()),
        r is Err ==> r == Err::<Vec<u8>, WireError>(WireError::SizeOverflow),
{
    let serializer = match serializer_for(msg) {
        Ok(s) => s,
        Err(e) => return Err(e),
    };
    let mut bytes: Vec<u8> = Vec::new();
    proof {
        let l = layout(msg.spec_fields());
        assert forall|j: int| 0 <= j < l.len() implies serializer.nested_sizes()[0 + j] as nat == #[trigger] l[j] by {
            assert(sizes_of(serializer.nested_sizes())[j] == l[j]);
        }
    }
    match serializer.serialize(msg, &mut bytes) {
        Ok(()) => {},
        Err(e) => return Err(e),
    }
    assert(bytes@ =~= encode_message(msg.spec_fields()));
    Ok(bytes)
}

} // verus!
