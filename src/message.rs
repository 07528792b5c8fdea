use vstd::prelude::*;

use crate::error::WireError;
use crate::input_stream::InputStream;
use crate::varint::{header_bytes, varint_bytes};
use crate::wire_type::WireType;

verus! {

broadcast use vstd::seq::axiom_seq_subrange_decreases, vstd::seq::axiom_seq_index_decreases,
    vstd::std_specs::vec::axiom_vec_decreases_to_view;

/// The largest tag a field may carry: its header then fits in 32 bits.
pub const MAX_TAG: usize = 0x1fff_ffff;

/// The payload of one field of a message value.
pub enum FieldValue {
    /// An unsigned integer, written as a varint.
    Varint(u64),
    /// Raw bytes, written length-delimited.
    Bytes(Vec<u8>),
    /// A nested message, written length-delimited; omitted when empty.
    Message(Vec<MessageField>),
}

/// One tagged field of a message value.
pub struct MessageField {
    pub tag: usize,
    pub value: FieldValue,
}

/// The wire bytes of a message value: each field in order; a nested message
/// is its header, its length and its own bytes, or nothing when those bytes
/// are empty.
pub open spec fn encode_message(fs: Seq<MessageField>) -> Seq<u8>
    decreases fs,
{
    if fs.len() == 0 {
        Seq::empty()
    } else {
        let f = fs.last();
        encode_message(fs.drop_last()) + match f.value {
            FieldValue::Varint(v) => header_bytes(f.tag as nat, WireType::Varint) + varint_bytes(v as nat),
            FieldValue::Bytes(b) => header_bytes(f.tag as nat, WireType::LengthDelimited) + varint_bytes(
                b@.len(),
            ) + b@,
            FieldValue::Message(m) => nested_bytes(f.tag as nat, encode_message(m@)),
        }
    }
}

/// The wire bytes of a nested message field whose content is `content`:
/// nothing at all when the content is empty.
pub open spec fn nested_bytes(tag: nat, content: Seq<u8>) -> Seq<u8> {
    if content.len() == 0 {
        Seq::empty()
    } else {
        header_bytes(tag, WireType::LengthDelimited) + varint_bytes(content.len()) + content
    }
}

/// The wire bytes of one field.
pub open spec fn encode_field(f: MessageField) -> Seq<u8> {
    encode_message(seq![f])
}

/// The sizes of the nested messages of a value, in depth-first pre-order:
/// each nested message's encoded length, followed by those inside it.
pub open spec fn layout(fs: Seq<MessageField>) -> Seq<nat>
    decreases fs,
{
    if fs.len() == 0 {
        Seq::empty()
    } else {
        let f = fs.last();
        layout(fs.drop_last()) + match f.value {
            FieldValue::Message(m) => seq![encode_message(m@).len()] + layout(m@),
            _ => Seq::empty(),
        }
    }
}

/// The nested layout of one field.
pub open spec fn field_layout(f: MessageField) -> Seq<nat> {
    layout(seq![f])
}

/// Every tag of the value, nested ones included, has a header that fits in
/// 32 bits.
pub open spec fn tags_ok(fs: Seq<MessageField>) -> bool
    decreases fs,
{
    if fs.len() == 0 {
        true
    } else {
        let f = fs.last();
        &&& tags_ok(fs.drop_last())
        &&& f.tag <= MAX_TAG
        &&& match f.value {
            FieldValue::Message(m) => tags_ok(m@),
            _ => true,
        }
    }
}

/// Appending a field appends its bytes, its nested layout and its tags.
pub proof fn lemma_encode_push(fs: Seq<MessageField>, f: MessageField)
    ensures
        encode_message(fs.push(f)) == encode_message(fs) + encode_field(f),
        layout(fs.push(f)) == layout(fs) + field_layout(f),
        tags_ok(fs.push(f)) == (tags_ok(fs) && tags_ok(seq![f])),
{
    let one = seq![f];
    assert(fs.push(f).drop_last() =~= fs);
    assert(fs.push(f).last() == f);
    assert(one.drop_last() =~= Seq::<MessageField>::empty());
    assert(one.last() == f);
    assert(encode_message(Seq::<MessageField>::empty()) == Seq::<u8>::empty());
    assert(layout(Seq::<MessageField>::empty()) == Seq::<nat>::empty());
    assert(tags_ok(Seq::<MessageField>::empty()));
    lemma_encode_one(f);
}

/// The bytes and the nested layout of a single field.
pub proof fn lemma_encode_one(f: MessageField)
    ensures
        encode_field(f) == match f.value {
            FieldValue::Varint(v) => header_bytes(f.tag as nat, WireType::Varint) + varint_bytes(v as nat),
            FieldValue::Bytes(b) => header_bytes(f.tag as nat, WireType::LengthDelimited) + varint_bytes(b@.len())
                + b@,
            FieldValue::Message(m) => nested_bytes(f.tag as nat, encode_message(m@)),
        },
        field_layout(f) == match f.value {
            FieldValue::Message(m) => seq![encode_message(m@).len()] + layout(m@),
            _ => Seq::<nat>::empty(),
        },
{
    let one = seq![f];
    assert(one.drop_last() =~= Seq::<MessageField>::empty());
    assert(one.last() == f);
    assert(encode_message(Seq::<MessageField>::empty()) == Seq::<u8>::empty());
    assert(layout(Seq::<MessageField>::empty()) == Seq::<nat>::empty());
    let tail_bytes = match f.value {
        FieldValue::Varint(v) => header_bytes(f.tag as nat, WireType::Varint) + varint_bytes(v as nat),
        FieldValue::Bytes(b) => header_bytes(f.tag as nat, WireType::LengthDelimited) + varint_bytes(b@.len())
            + b@,
        FieldValue::Message(m) => nested_bytes(f.tag as nat, encode_message(m@)),
    };
    assert(encode_field(f) == Seq::<u8>::empty() + tail_bytes);
    assert(Seq::<u8>::empty() + tail_bytes =~= tail_bytes);
    let tail_layout = match f.value {
        FieldValue::Message(m) => seq![encode_message(m@).len()] + layout(m@),
        _ => Seq::empty(),
    };
    assert(field_layout(f) == Seq::<nat>::empty() + tail_layout);
    assert(Seq::<nat>::empty() + tail_layout =~= tail_layout);
}

/// Every prefix of a value with valid tags has valid tags.
pub proof fn lemma_tags_prefix(fs: Seq<MessageField>, k: int)
    requires
        0 <= k <= fs.len(),
        tags_ok(fs),
    ensures
        tags_ok(fs.subrange(0, k)),
        k > 0 ==> tags_ok(seq![fs[k - 1]]),
    decreases fs.len() - k,
{
    if k < fs.len() {
        lemma_tags_prefix(fs, k + 1);
        assert(fs.subrange(0, k + 1).drop_last() =~= fs.subrange(0, k));
        lemma_encode_push(fs.subrange(0, k), fs[k]);
        assert(fs.subrange(0, k).push(fs[k]) =~= fs.subrange(0, k + 1));
    } else {
        assert(fs.subrange(0, k) =~= fs);
    }
    if k > 0 {
        lemma_encode_push(fs.subrange(0, k - 1), fs[k - 1]);
        assert(fs.subrange(0, k - 1).push(fs[k - 1]) =~= fs.subrange(0, k));
        lemma_tags_prefix_step(fs, k);
    }
}

pub proof fn lemma_tags_prefix_step(fs: Seq<MessageField>, k: int)
    requires
        0 < k <= fs.len(),
        tags_ok(fs.subrange(0, k)),
    ensures
        tags_ok(seq![fs[k - 1]]),
{
    lemma_encode_push(fs.subrange(0, k - 1), fs[k - 1]);
    assert(fs.subrange(0, k - 1).push(fs[k - 1]) =~= fs.subrange(0, k));
}

/// A field with a valid tag: its own tag and those nested in it.
pub proof fn lemma_tags_one(f: MessageField)
    requires
        tags_ok(seq![f]),
    ensures
        f.tag <= MAX_TAG,
        f.value matches FieldValue::Message(m) ==> tags_ok(m@),
{
    assert(seq![f].last() == f);
}

/// The bytes of a prefix of the fields are no longer than those of all of them.
pub proof fn lemma_encode_prefix(fs: Seq<MessageField>, k: int)
    requires
        0 <= k <= fs.len(),
    ensures
        encode_message(fs.subrange(0, k)).len() <= encode_message(fs).len(),
    decreases fs.len() - k,
{
    if k < fs.len() {
        lemma_encode_prefix(fs, k + 1);
        lemma_encode_push(fs.subrange(0, k), fs[k]);
        assert(fs.subrange(0, k).push(fs[k]) =~= fs.subrange(0, k + 1));
    } else {
        assert(fs.subrange(0, k) =~= fs);
    }
}

/// The nested layout of a prefix of the fields is a prefix of theirs.
pub proof fn lemma_layout_prefix(fs: Seq<MessageField>, k: int)
    requires
        0 <= k <= fs.len(),
    ensures
        layout(fs.subrange(0, k)).len() <= layout(fs).len(),
        layout(fs).subrange(0, layout(fs.subrange(0, k)).len() as int) == layout(fs.subrange(0, k)),
    decreases fs.len() - k,
{
    if k < fs.len() {
        lemma_layout_prefix(fs, k + 1);
        lemma_encode_push(fs.subrange(0, k), fs[k]);
        assert(fs.subrange(0, k).push(fs[k]) =~= fs.subrange(0, k + 1));
        let a = layout(fs.subrange(0, k));
        let b = layout(fs.subrange(0, k + 1));
        assert(b.subrange(0, a.len() as int) =~= a);
        assert(layout(fs).subrange(0, a.len() as int) =~= b.subrange(0, a.len() as int));
    } else {
        assert(fs.subrange(0, k) =~= fs);
        assert(layout(fs).subrange(0, layout(fs).len() as int) =~= layout(fs));
    }
}

/// Whether every tag of the value, nested ones included, is at most
/// `MAX_TAG`: the condition under which it can be serialized.
pub fn tags_in_range(fs: &Vec<MessageField>) -> (r: bool)
    ensures
        r == tags_ok(fs@),
    decreases fs@,
{
    let mut i: usize = 0;
    while i < fs.len()
        invariant
            i <= fs@.len(),
            tags_ok(fs@.subrange(0, i as int)),
        decreases fs@.len() - i,
    {
        let ghost f = fs@[i as int];
        proof {
            lemma_encode_push(fs@.subrange(0, i as int), f);
            assert(fs@.subrange(0, i as int).push(f) =~= fs@.subrange(0, i + 1));
            assert(seq![f].drop_last() =~= Seq::<MessageField>::empty());
            assert(seq![f].last() == f);
            assert(tags_ok(Seq::<MessageField>::empty()));
        }
        if fs[i].tag > MAX_TAG {
            proof {
                lemma_tags_prefix_all(fs@, i + 1);
            }
            return false;
        }
        match &fs[i].value {
            FieldValue::Message(m) => {
                proof {
                    assert(decreases_to!(fs@ => f));
                    assert(decreases_to!(f => f.value));
                    assert(decreases_to!(f.value => *m));
                    assert(decreases_to!(*m => m@));
                }
                if !tags_in_range(m) {
                    proof {
                        lemma_tags_prefix_all(fs@, i + 1);
                    }
                    return false;
                }
            },
            _ => {},
        }
        i = i + 1;
    }
    assert(fs@.subrange(0, i as int) =~= fs@);
    true
}

/// Valid tags in a value mean valid tags in each of its prefixes.
proof fn lemma_tags_prefix_all(fs: Seq<MessageField>, k: int)
    requires
        0 <= k <= fs.len(),
    ensures
        tags_ok(fs) ==> tags_ok(fs.subrange(0, k)),
{
    if tags_ok(fs) {
        lemma_tags_prefix(fs, k);
    }
}

/// A value that can be written to the wire. Its fields must be the same each
/// time they are asked for, since a message is walked once to size it and
/// once more to write it.
pub trait Message {
    /// The fields this value writes.
    spec fn spec_fields(&self) -> Seq<MessageField>;

    fn fields(&self) -> (r: &Vec<MessageField>)
        ensures
            r@ == self.spec_fields(),
    ;
}

/// A list of fields is a message value of its own.
impl Message for Vec<MessageField> {
    open spec fn spec_fields(&self) -> Seq<MessageField> {
        self@
    }

    fn fields(&self) -> (r: &Vec<MessageField>) {
        self
    }
}

/// A value that can be built from a decoding session.
pub trait LoadableMessage: Sized {
    fn load_from_stream(input: &mut InputStream) -> (r: Result<Self, WireError>)
        requires
            old(input).wf(),
        ensures
            final(input).wf(),
    ;

    /// Builds a value from the fields encoded in `bytes`.
    fn load(bytes: &[u8]) -> (r: Result<Self, WireError>) {
        let mut input = InputStream::new(bytes);
        Self::load_from_stream(&mut input)
    }
}

} // verus!
