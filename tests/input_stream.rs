use pbwire::{Field, InputStream, WireError, WireType};

fn with_input_stream<F: FnOnce(&mut InputStream)>(bytes: &[u8], action: F) {
    let mut stream = InputStream::new(bytes);
    action(&mut stream)
}

fn next_field(i: &mut InputStream) -> Field {
    i.read_field().unwrap().unwrap()
}

#[test]
fn test_reading_empty_stream() {
    with_input_stream(&[], |i| {
        assert!(i.read_field().unwrap().is_none());
    });
}

#[test]
fn test_reading_string() {
    with_input_stream(b"\x0A\x04zomg", |i| {
        {
            let mut f = next_field(i);
            assert_eq!(f.get_tag(), 1);
            assert_eq!(f.read_string(i).unwrap(), "zomg".to_string());
        }

        assert!(i.read_field().unwrap().is_none());
    });
}

#[test]
fn test_reading_single_byte_usize() {
    with_input_stream(b"\x00\x08", |i| {
        {
            let mut f = next_field(i);
            assert_eq!(f.get_tag(), 0);
            assert_eq!(f.read_u64(i).unwrap(), 8);
        }

        assert!(i.read_field().unwrap().is_none());
    });
}

#[test]
fn test_reading_multi_byte_usize() {
    with_input_stream(b"\x00\x92\x0C", |i| {
        {
            let mut f = next_field(i);
            assert_eq!(f.get_tag(), 0);
            assert_eq!(f.read_u64(i).unwrap(), 1554);
        }

        assert!(i.read_field().unwrap().is_none());
    });
}

#[test]
fn test_reading_sequential_fields() {
    with_input_stream(b"\x00\x08\x0A\x04zomg\x12\x03lol", |i| {
        {
            let mut f = next_field(i);
            assert_eq!(f.get_tag(), 0);
            assert_eq!(f.read_u64(i).unwrap(), 8);
        }

        {
            let mut f = next_field(i);
            assert_eq!(f.get_tag(), 1);
            assert_eq!(f.read_string(i).unwrap(), "zomg".to_string());
        }

        {
            let mut f = next_field(i);
            assert_eq!(f.get_tag(), 2);
            assert_eq!(f.read_string(i).unwrap(), "lol".to_string());
        }

        assert!(i.read_field().unwrap().is_none());
    });
}

#[test]
fn test_skipping_string_field() {
    with_input_stream(b"\x00\x08\x0A\x04zomg\x12\x03lol", |i| {
        next_field(i).skip(i).unwrap();

        {
            let mut f = next_field(i);
            assert_eq!(f.get_tag(), 1);
            assert_eq!(f.read_string(i).unwrap(), "zomg".to_string());
        }

        next_field(i).skip(i).unwrap();

        assert!(i.read_field().unwrap().is_none());
    });
}

#[test]
fn test_reading_multi_byte_tag_field() {
    with_input_stream(b"\x92\x01\x04zomg", |i| {
        {
            let mut f = next_field(i);
            assert_eq!(f.get_tag(), 18);
            assert_eq!(f.read_string(i).unwrap(), "zomg".to_string());
        }

        assert!(i.read_field().unwrap().is_none());
    });
}

#[test]
fn test_reading_twice_from_field() {
    with_input_stream(b"\x92\x01\x04zomg\x92\x01\x04zomg", |i| {
        {
            let mut f = next_field(i);
            f.read_string(i).unwrap();

            assert!(f.read_string(i).is_err());
        }
    });
}

#[test]
fn test_reading_incorrect_type_from_field() {
    with_input_stream(b"\x92\x01\x04zomg", |i| {
        {
            let mut f = next_field(i);
            assert!(f.read_u64(i).is_err());
        }
    });
}

#[test]
fn second_access_reports_consumed_field() {
    let mut i = InputStream::new(b"\x00\x08\x00\x09");
    let mut f = next_field(&mut i);
    assert_eq!(f.read_u64(&mut i), Ok(8));
    assert_eq!(f.read_u64(&mut i), Err(WireError::FieldConsumed));
    assert_eq!(f.skip(&mut i), Err(WireError::FieldConsumed));
    let mut g = next_field(&mut i);
    assert_eq!(g.read_u64(&mut i), Ok(9));
}

#[test]
fn scalar_accessor_on_bytes_field_consumes_nothing() {
    let mut i = InputStream::new(b"\x0A\x08\x96\x01");
    let mut f = next_field(&mut i);
    assert_eq!(f.read_u64(&mut i), Err(WireError::UnexpectedFieldType));
    // the stream still stands at the length prefix 0x08, which reads as the
    // header of a varint field with tag 1 holding 150
    let mut g = next_field(&mut i);
    assert_eq!(g.get_tag(), 1);
    assert_eq!(g.read_u64(&mut i), Ok(150));
}

#[test]
fn skipping_a_varint_field_reaches_the_next_header() {
    let mut i = InputStream::new(b"\x08\x92\x0C\x12\x02hi");
    next_field(&mut i).skip(&mut i).unwrap();
    let mut f = next_field(&mut i);
    assert_eq!(f.get_tag(), 2);
    assert_eq!(f.read_bytes(&mut i).unwrap(), b"hi".to_vec());
    assert!(i.read_field().unwrap().is_none());
}

#[test]
fn truncated_header_is_an_error() {
    let mut i = InputStream::new(b"\x92");
    assert_eq!(i.read_field().err(), Some(WireError::UnexpectedEof));
}

#[test]
fn truncated_varint_value_is_an_error() {
    let mut i = InputStream::new(b"\x00\x92");
    let mut f = next_field(&mut i);
    assert_eq!(f.read_u64(&mut i), Err(WireError::UnexpectedEof));
}

#[test]
fn missing_varint_value_is_an_error() {
    let mut i = InputStream::new(b"\x00");
    let mut f = next_field(&mut i);
    assert_eq!(f.read_u64(&mut i), Err(WireError::UnexpectedEof));
}

#[test]
fn truncated_payload_is_an_error() {
    let mut i = InputStream::new(b"\x0A\x05zomg");
    let mut f = next_field(&mut i);
    assert_eq!(f.read_bytes(&mut i), Err(WireError::UnexpectedEof));
    let mut j = InputStream::new(b"\x0A\x05zomg");
    let mut g = next_field(&mut j);
    assert_eq!(g.skip(&mut j), Err(WireError::UnexpectedEof));
}

#[test]
fn unknown_wire_type_is_rejected() {
    let mut i = InputStream::new(b"\x0E\x00");
    assert_eq!(i.read_field().err(), Some(WireError::InvalidWireType));
    let mut j = InputStream::new(b"\x0F");
    assert_eq!(j.read_field().err(), Some(WireError::InvalidWireType));
}

#[test]
fn invalid_utf8_is_rejected() {
    let mut i = InputStream::new(b"\x0A\x02\xC3\x28");
    let mut f = next_field(&mut i);
    assert_eq!(f.read_string(&mut i), Err(WireError::InvalidUtf8));
}

#[test]
fn non_ascii_string_is_decoded() {
    let mut i = InputStream::new(b"\x0A\x02\xC3\xA9");
    let mut f = next_field(&mut i);
    assert_eq!(f.read_string(&mut i).unwrap(), "\u{e9}".to_string());
}

#[test]
fn largest_varint_is_read() {
    let mut i = InputStream::new(b"\x00\xFF\xFF\xFF\xFF\xFF\xFF\xFF\xFF\xFF\x01");
    let mut f = next_field(&mut i);
    assert_eq!(f.read_u64(&mut i), Ok(u64::MAX));
    assert!(i.read_field().unwrap().is_none());
}

#[test]
fn varint_wider_than_64_bits_is_rejected() {
    let mut i = InputStream::new(b"\x00\xFF\xFF\xFF\xFF\xFF\xFF\xFF\xFF\xFF\x02");
    let mut f = next_field(&mut i);
    assert_eq!(f.read_u64(&mut i), Err(WireError::VarintOverflow));
    let mut j = InputStream::new(b"\x00\x80\x80\x80\x80\x80\x80\x80\x80\x80\x80\x00");
    let mut g = next_field(&mut j);
    assert_eq!(g.read_u64(&mut j), Err(WireError::VarintOverflow));
}

#[test]
fn unsupported_wire_type_cannot_be_skipped() {
    let mut i = InputStream::new(b"\x09\x00");
    let mut f = next_field(&mut i);
    assert_eq!(f.get_wire_type(), WireType::SixtyFourBit);
    assert_eq!(f.skip(&mut i), Err(WireError::UnsupportedWireType));
}

#[test]
fn wire_type_codes() {
    assert_eq!(WireType::from_uint(0), Some(WireType::Varint));
    assert_eq!(WireType::from_uint(2), Some(WireType::LengthDelimited));
    assert_eq!(WireType::from_uint(5), Some(WireType::ThirtyTwoBit));
    assert_eq!(WireType::from_uint(6), None);
    assert_eq!(WireType::ThirtyTwoBit.to_uint(), 5);
}

#[test]
fn field_is_tied_to_its_stream_position() {
    let mut i = InputStream::new(b"\x08\x01\x10\x02");
    let mut first = next_field(&mut i);
    // reading a header before the payload leaves the first field detached
    let _ = next_field(&mut i);
    assert_eq!(first.read_u64(&mut i), Err(WireError::FieldDetached));
    let mut j = InputStream::new(b"\x08\x01");
    let mut f = next_field(&mut j);
    let mut other = InputStream::new(b"\x08\x01");
    assert_eq!(f.read_u64(&mut other), Err(WireError::FieldDetached));
}
