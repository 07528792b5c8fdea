use pbwire::{
    serialize, serializer_for, Field, FieldValue, InputStream, LoadableMessage, Message, MessageField,
    OutputStream, OutputStreamBackend, OutputWriter, Serializer, WireError, WireType,
};

fn empty() -> Vec<MessageField> {
    Vec::new()
}

fn simple() -> Vec<MessageField> {
    vec![MessageField { tag: 1, value: FieldValue::Bytes(b"hello".to_vec()) }]
}

fn varint(tag: usize, v: u64) -> MessageField {
    MessageField { tag, value: FieldValue::Varint(v) }
}

fn bytes(tag: usize, b: &[u8]) -> MessageField {
    MessageField { tag, value: FieldValue::Bytes(b.to_vec()) }
}

fn nested(tag: usize, fs: Vec<MessageField>) -> MessageField {
    MessageField { tag, value: FieldValue::Message(fs) }
}

#[test]
fn test_writing_unit_struct() {
    let bytes = serialize(&empty()).unwrap();
    assert!(bytes.is_empty());
}

#[test]
fn test_writing_simple_message() {
    let bytes = serialize(&simple()).unwrap();
    let expect = b"\x0A\x05hello";
    assert!(bytes.as_slice() == expect, "expect={:?}; actual={:?}", expect, bytes);
}

#[test]
fn varint_fields_are_encoded_exactly() {
    assert_eq!(serialize(&vec![varint(0, 8)]).unwrap(), b"\x00\x08".to_vec());
    assert_eq!(serialize(&vec![varint(0, 1554)]).unwrap(), b"\x00\x92\x0C".to_vec());
    assert_eq!(serialize(&vec![varint(1, 0)]).unwrap(), b"\x08\x00".to_vec());
    assert_eq!(
        serialize(&vec![varint(1, u64::MAX)]).unwrap(),
        b"\x08\xFF\xFF\xFF\xFF\xFF\xFF\xFF\xFF\xFF\x01".to_vec()
    );
}

#[test]
fn headers_are_encoded_exactly() {
    assert_eq!(serialize(&vec![bytes(1, b"")]).unwrap(), b"\x0A\x00".to_vec());
    assert_eq!(serialize(&vec![bytes(18, b"zomg")]).unwrap(), b"\x92\x01\x04zomg".to_vec());
}

#[test]
fn sequential_fields_are_encoded_in_order() {
    let msg = vec![varint(0, 8), bytes(1, b"zomg"), bytes(2, b"lol")];
    assert_eq!(serialize(&msg).unwrap(), b"\x00\x08\x0A\x04zomg\x12\x03lol".to_vec());
}

#[test]
fn nested_message_is_length_prefixed() {
    let msg = vec![nested(3, vec![varint(1, 150)])];
    assert_eq!(serialize(&msg).unwrap(), b"\x1A\x03\x08\x96\x01".to_vec());
}

#[test]
fn empty_nested_message_is_omitted() {
    let msg = vec![varint(1, 5), nested(2, vec![]), varint(3, 6)];
    assert_eq!(serialize(&msg).unwrap(), b"\x08\x05\x18\x06".to_vec());
    let deep = vec![nested(2, vec![nested(4, vec![])])];
    assert!(serialize(&deep).unwrap().is_empty());
}

#[test]
fn empty_nested_messages_keep_the_layout_aligned() {
    // a skipped empty message holds an empty message of its own; the sibling
    // after it must still get its own recorded size
    let msg = vec![nested(1, vec![nested(2, vec![])]), nested(3, vec![varint(1, 1)])];
    assert_eq!(serialize(&msg).unwrap(), b"\x1A\x02\x08\x01".to_vec());
}

#[test]
fn size_pass_records_nested_sizes_in_pre_order() {
    let msg = vec![
        nested(1, vec![varint(1, 1)]),
        nested(2, vec![varint(1, 1), nested(2, vec![varint(1, 300)])]),
        nested(3, vec![bytes(1, b"abc")]),
    ];
    let s = serializer_for(&msg).unwrap();
    let bytes = serialize(&msg).unwrap();
    assert_eq!(s.size(), bytes.len());
    assert_eq!(s.size(), 4 + 9 + 7);
}

#[test]
fn size_matches_written_length() {
    let msg = vec![varint(7, 1 << 40), bytes(9, &[0u8; 200]), nested(5, vec![bytes(1, b"x")])];
    let s = serializer_for(&msg).unwrap();
    let mut out = Vec::new();
    s.serialize(&msg, &mut out).unwrap();
    assert_eq!(out.len(), s.size());
    assert_eq!(out, serialize(&msg).unwrap());
}

#[test]
fn serialize_appends_to_the_writer() {
    let s = serializer_for(&simple()).unwrap();
    let mut out = b"ab".to_vec();
    s.serialize(&simple(), &mut out).unwrap();
    assert_eq!(out, b"ab\x0A\x05hello".to_vec());
}

#[test]
fn serialize_into_checks_capacity() {
    let s = serializer_for(&simple()).unwrap();
    let mut small = [0u8; 6];
    assert_eq!(s.serialize_into(&simple(), &mut small), Err(WireError::BufferTooSmall));
    assert_eq!(small, [0u8; 6]);
    let mut big = [0xEEu8; 9];
    s.serialize_into(&simple(), &mut big).unwrap();
    assert_eq!(&big, b"\x0A\x05hello\xEE\xEE");
}

#[test]
fn layout_of_another_value_is_detected() {
    let one = vec![nested(1, vec![varint(1, 1)])];
    let two = vec![nested(1, vec![varint(1, 1)]), nested(2, vec![varint(1, 1)])];
    let s = serializer_for(&one).unwrap();
    let mut out = Vec::new();
    assert_eq!(s.serialize(&two, &mut out), Err(WireError::InvalidSerializer));
    assert!(out.is_empty());
    let other = vec![nested(1, vec![varint(1, 300)])];
    assert_eq!(s.serialize(&other, &mut out), Err(WireError::InvalidSerializer));
}

#[test]
fn field_writing_surface_on_both_passes() {
    let mut counter = Serializer::new();
    counter.write_varint_field(1, 150u64).unwrap();
    counter.write_varint_field(2, None::<u64>).unwrap();
    counter.write_varint_field(8, Some(3usize)).unwrap();
    counter.write_opt_str_field(3, Some("hi")).unwrap();
    counter.write_repeated_str_field(4, &["a", "bc"]).unwrap();
    counter.write_repeated_byte_field(5, &[vec![1u8], vec![]]).unwrap();
    counter.write_message_field(6, &simple()).unwrap();
    counter.write_repeated_message_field(7, &[empty(), empty()]).unwrap();

    let mut w = OutputWriter::new(&[7, 0, 0], Vec::new());
    w.write_varint_field(1, 150u64).unwrap();
    w.write_varint_field(2, None::<u64>).unwrap();
    w.write_varint_field(8, Some(3usize)).unwrap();
    w.write_opt_str_field(3, Some("hi")).unwrap();
    w.write_repeated_str_field(4, &["a", "bc"]).unwrap();
    w.write_repeated_byte_field(5, &[vec![1u8], vec![]]).unwrap();
    w.write_message_field(6, &simple()).unwrap();
    w.write_repeated_message_field(7, &[empty(), empty()]).unwrap();
    let out = w.into_bytes();
    assert_eq!(
        out,
        b"\x08\x96\x01\x40\x03\x1A\x02hi\x22\x01a\x22\x02bc\x2A\x01\x01\x2A\x00\x32\x07\x0A\x05hello".to_vec()
    );
    assert_eq!(counter.size(), out.len());
}

#[test]
fn write_pass_past_the_recorded_sizes_fails() {
    let mut w = OutputWriter::new(&[], Vec::new());
    assert_eq!(w.write_message_field(1, &simple()), Err(WireError::InvalidSerializer));
}

#[test]
fn raw_backend_writes_varints() {
    let mut w = OutputWriter::new(&[], Vec::new());
    w.write_unsigned_varint(8).unwrap();
    w.write_usize(1554).unwrap();
    w.write_head(18, WireType::LengthDelimited).unwrap();
    w.write_byte(0x7F).unwrap();
    assert_eq!(w.into_bytes(), b"\x08\x92\x0C\x92\x01\x7F".to_vec());
}

struct Pair {
    id: u64,
    name: String,
}

impl LoadableMessage for Pair {
    fn load_from_stream(input: &mut InputStream) -> Result<Pair, WireError> {
        let mut id = 0;
        let mut name = String::new();
        while let Some(mut f) = input.read_field()? {
            match f.get_tag() {
                1 => id = f.read_u64(input)?,
                2 => name = f.read_string(input)?,
                _ => f.skip(input)?,
            }
        }
        Ok(Pair { id, name })
    }
}

#[test]
fn round_trip_through_a_record_type() {
    let p = Pair { id: 1554, name: "zomg".to_string() };
    let bytes = serialize(&vec![varint(1, p.id), bytes(2, p.name.as_bytes())]).unwrap();
    let back = Pair::load(&bytes).unwrap();
    assert_eq!(back.id, 1554);
    assert_eq!(back.name, "zomg");
}

#[test]
fn round_trip_reads_each_field_back() {
    let msg = vec![varint(1, 300), bytes(2, b"abc"), nested(3, vec![varint(1, 1)]), varint(4, 0)];
    let encoded = serialize(&msg).unwrap();
    let mut i = InputStream::new(&encoded);
    let read = |i: &mut InputStream| -> Field { i.read_field().unwrap().unwrap() };
    let mut f = read(&mut i);
    assert_eq!((f.get_tag(), f.read_u64(&mut i).unwrap()), (1, 300));
    let mut f = read(&mut i);
    assert_eq!((f.get_tag(), f.read_bytes(&mut i).unwrap()), (2, b"abc".to_vec()));
    let mut f = read(&mut i);
    assert_eq!((f.get_tag(), f.read_bytes(&mut i).unwrap()), (3, b"\x08\x01".to_vec()));
    let mut f = read(&mut i);
    assert_eq!((f.get_tag(), f.read_u64(&mut i).unwrap()), (4, 0));
    assert!(i.read_field().unwrap().is_none());
}

#[test]
fn tags_in_range_checks_nested_tags() {
    assert!(pbwire::tags_in_range(&vec![varint(1, 1), nested(2, vec![varint(pbwire::MAX_TAG, 0)])]));
    assert!(!pbwire::tags_in_range(&vec![varint(1, 1), nested(2, vec![varint(pbwire::MAX_TAG + 1, 0)])]));
    assert!(!pbwire::tags_in_range(&vec![bytes(pbwire::MAX_TAG + 1, b"")]));
    assert!(pbwire::tags_in_range(&vec![]));
}

#[test]
fn largest_tag_round_trips() {
    let msg = vec![bytes(pbwire::MAX_TAG, b"")];
    let encoded = serialize(&msg).unwrap();
    assert_eq!(encoded, b"\xFA\xFF\xFF\xFF\x0F\x00".to_vec());
    let mut i = InputStream::new(&encoded);
    let mut f = i.read_field().unwrap().unwrap();
    assert_eq!(f.get_tag(), pbwire::MAX_TAG);
    assert_eq!(f.get_wire_type(), WireType::LengthDelimited);
    assert!(f.read_bytes(&mut i).unwrap().is_empty());
    assert!(i.read_field().unwrap().is_none());
}

#[test]
fn recorded_zero_size_writes_nothing_and_moves_on() {
    let mut w = OutputWriter::new(&[0, 7], Vec::new());
    w.write_message_field(1, &empty()).unwrap();
    w.write_message_field(2, &simple()).unwrap();
    assert_eq!(w.into_bytes(), b"\x12\x07\x0A\x05hello".to_vec());
}

#[test]
fn size_pass_appends_zero_for_an_empty_message() {
    let mut counter = Serializer::new();
    counter.write_message_field(1, &empty()).unwrap();
    assert_eq!(counter.size(), 0);
    let mut w = OutputWriter::new(&[0], Vec::new());
    w.write_message_field(1, &empty()).unwrap();
    assert_eq!(w.write_message_field(1, &empty()), Err(WireError::InvalidSerializer));
    assert!(w.into_bytes().is_empty());
}
