use vstd::prelude::*;

use crate::error::WireError;
use crate::input_stream::{decode_delimited, decode_header, decode_required, decode_varint};
use crate::message::{
    FieldValue, MessageField, encode_field, encode_message, lemma_encode_one,
    lemma_encode_push, lemma_tags_one, lemma_tags_prefix, nested_bytes, tags_ok,
};
use crate::varint::{
    header_bytes, header_value, lemma_end_of_encoding, lemma_pow128_ten, lemma_varint_bytes, varint_bytes,
};
use crate::wire_type::WireType;

verus! {

/// The wire type a field is written with.
pub open spec fn wire_type_of(f: MessageField) -> WireType {
    match f.value {
        FieldValue::Varint(_) => WireType::Varint,
        _ => WireType::LengthDelimited,
    }
}

/// The content a length-delimited field carries.
pub open spec fn payload_of(f: MessageField) -> Seq<u8> {
    match f.value {
        FieldValue::Varint(_) => Seq::empty(),
        FieldValue::Bytes(b) => b@,
        FieldValue::Message(m) => encode_message(m@),
    }
}

/// Reading `d` at `p` gives back the field `f`: its header names its tag and
/// wire type, and its payload reads as its value and ends where its encoding
/// ends. An omitted empty nested message has nothing to read.
pub open spec fn reads_back(d: Seq<u8>, p: int, f: MessageField) -> bool {
    let q = p + header_bytes(f.tag as nat, wire_type_of(f)).len();
    let end = p + encode_field(f).len();
    match f.value {
        FieldValue::Varint(v) => {
            &&& decode_header(d, p) == Ok::<Option<(nat, WireType, int)>, WireError>(
                Some((f.tag as nat, WireType::Varint, q)),
            )
            &&& decode_required(d, q) == Ok::<(nat, int), WireError>((v as nat, end))
        },
        _ => encode_field(f).len() == 0 || {
            &&& decode_header(d, p) == Ok::<Option<(nat, WireType, int)>, WireError>(
                Some((f.tag as nat, WireType::LengthDelimited, q)),
            )
            &&& decode_delimited(d, q) == Ok::<(int, int), WireError>((end - payload_of(f).len(), end))
            &&& d.subrange(end - payload_of(f).len(), end) == payload_of(f)
        },
    }
}

proof fn lemma_code_round_trip(w: WireType)
    ensures
        WireType::spec_from_code(w.code() as int) == Some(w),
{
}

/// A varint read where a value was written gives the value back.
proof fn lemma_read_varint(pre: Seq<u8>, v: nat, rest: Seq<u8>)
    requires
        v <= u64::MAX,
    ensures
        decode_varint(pre + varint_bytes(v) + rest, pre.len() as int) == Ok::<Option<(nat, int)>, WireError>(
            Some((v, pre.len() + varint_bytes(v).len() as int)),
        ),
{
    lemma_end_of_encoding(pre, v, rest);
    lemma_varint_bytes(v);
    lemma_pow128_ten();
}

/// A header read where a field header was written gives its tag and type.
proof fn lemma_read_header(pre: Seq<u8>, tag: nat, w: WireType, rest: Seq<u8>)
    requires
        tag * 8 + 7 <= usize::MAX,
    ensures
        decode_header(pre + header_bytes(tag, w) + rest, pre.len() as int) == Ok::<
            Option<(nat, WireType, int)>,
            WireError,
        >(Some((tag, w, pre.len() + header_bytes(tag, w).len() as int))),
{
    let h = header_value(tag, w);
    lemma_read_varint(pre, h, rest);
    lemma_code_round_trip(w);
    assert(h % 8 == w.code());
    assert(h / 8 == tag);
}

/// Reading back one field written at `pre.len()`, whatever follows it.
pub proof fn lemma_field_reads_back(pre: Seq<u8>, f: MessageField, rest: Seq<u8>)
    requires
        f.tag * 8 + 7 <= usize::MAX,
        payload_of(f).len() <= usize::MAX,
    ensures
        reads_back(pre + encode_field(f) + rest, pre.len() as int, f),
{
    lemma_encode_one(f);
    let d = pre + encode_field(f) + rest;
    let w = wire_type_of(f);
    let h = header_bytes(f.tag as nat, w);
    let p = pre.len() as int;
    let q = p + h.len();
    match f.value {
        FieldValue::Varint(v) => {
            assert(d =~= pre + h + (varint_bytes(v as nat) + rest));
            lemma_read_header(pre, f.tag as nat, w, varint_bytes(v as nat) + rest);
            assert(d =~= (pre + h) + varint_bytes(v as nat) + rest);
            lemma_read_varint(pre + h, v as nat, rest);
        },
        _ => {
            let c = payload_of(f);
            if encode_field(f).len() != 0 {
                let l = varint_bytes(c.len());
                assert(encode_field(f) == h + l + c);
                assert(d =~= pre + h + (l + c + rest));
                lemma_read_header(pre, f.tag as nat, w, l + c + rest);
                assert(d =~= (pre + h) + l + (c + rest));
                lemma_read_varint(pre + h, c.len(), c + rest);
                assert(d.subrange(q + l.len(), q + l.len() + c.len()) =~= c);
            }
        },
    }
}

/// Encoding two runs of fields one after the other is encoding them together.
pub proof fn lemma_encode_concat(a: Seq<MessageField>, b: Seq<MessageField>)
    ensures
        encode_message(a + b) == encode_message(a) + encode_message(b),
    decreases b.len(),
{
    if b.len() == 0 {
        assert(a + b =~= a);
        assert(encode_message(b) == Seq::<u8>::empty());
        assert(encode_message(a) + encode_message(b) =~= encode_message(a));
    } else {
        lemma_encode_concat(a, b.drop_last());
        lemma_encode_push(a + b.drop_last(), b.last());
        lemma_encode_push(b.drop_last(), b.last());
        assert((a + b.drop_last()).push(b.last()) =~= a + b);
        assert(b.drop_last().push(b.last()) =~= b);
        assert(encode_message(a + b) =~= encode_message(a) + encode_message(b));
    }
}

/// Round trip: in the encoding of a message value, each field reads back as
/// itself from where the fields before it end, and it ends where the next one
/// begins; after the last one the stream ends cleanly.
pub proof fn lemma_round_trip(fs: Seq<MessageField>, i: int)
    requires
        tags_ok(fs),
        0 <= i < fs.len(),
        encode_message(fs).len() <= usize::MAX,
    ensures
        reads_back(encode_message(fs), encode_message(fs.subrange(0, i)).len() as int, fs[i]),
        encode_message(fs.subrange(0, i)).len() + encode_field(fs[i]).len() == encode_message(
            fs.subrange(0, i + 1),
        ).len(),
        decode_header(encode_message(fs), encode_message(fs).len() as int) == Ok::<
            Option<(nat, WireType, int)>,
            WireError,
        >(None),
{
    let pre = fs.subrange(0, i);
    let f = fs[i];
    let post = fs.subrange(i + 1, fs.len() as int);
    lemma_encode_push(pre, f);
    assert(pre.push(f) =~= fs.subrange(0, i + 1));
    assert(fs.subrange(0, i + 1) + post =~= fs);
    lemma_encode_concat(fs.subrange(0, i + 1), post);
    lemma_tags_prefix(fs, i + 1);
    let d = encode_message(fs);
    assert(d =~= encode_message(pre) + encode_field(f) + encode_message(post));
    lemma_tags_one(f);
    lemma_encode_one(f);
    let c = payload_of(f);
    if !(f.value is Varint) && encode_field(f).len() != 0 {
        assert(c.len() <= encode_field(f).len());
    }
    if !(f.value is Varint) && encode_field(f).len() == 0 {
        assert(reads_back(d, encode_message(pre).len() as int, f));
    } else {
        assert(f.tag * 8 + 7 <= usize::MAX);
        lemma_field_reads_back(encode_message(pre), f, encode_message(post));
    }
}

/// Skipping a field read back from an encoding lands where the next field
/// begins: the payload's read ends there, whatever the wire type.
pub proof fn lemma_skip_reaches_next_field(fs: Seq<MessageField>, i: int)
    requires
        tags_ok(fs),
        0 <= i < fs.len(),
        encode_message(fs).len() <= usize::MAX,
        encode_field(fs[i]).len() > 0,
    ensures
        ({
            let d = encode_message(fs);
            let p = encode_message(fs.subrange(0, i)).len() as int;
            let next = encode_message(fs.subrange(0, i + 1)).len() as int;
            match decode_header(d, p) {
                Ok(Some((tag, w, q))) => tag == fs[i].tag && match w {
                    WireType::Varint => decode_required(d, q) matches Ok((_, n)) && n == next,
                    WireType::LengthDelimited => decode_delimited(d, q) matches Ok((_, n)) && n == next,
                    _ => false,
                },
                _ => false,
            }
        }),
{
    lemma_round_trip(fs, i);
}

/// A nested message whose content encodes to nothing leaves no bytes at all:
/// no header, no length, no content.
pub proof fn lemma_empty_nested_omitted(tag: usize, m: Vec<MessageField>)
    requires
        encode_message(m@).len() == 0,
    ensures
        encode_field(MessageField { tag, value: FieldValue::Message(m) }).len() == 0,
        nested_bytes(tag as nat, encode_message(m@)) == Seq::<u8>::empty(),
{
    lemma_encode_one(MessageField { tag, value: FieldValue::Message(m) });
}

} // verus!
