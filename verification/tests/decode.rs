use nbt::{from_gzip_slice, from_slice, from_zlib_slice, Decoder, Error, IoKind, Reference, Value};

/// A document header announcing a compound with an empty name.
fn doc(body: &[u8]) -> Vec<u8> {
    let mut v = vec![0x0au8, 0x00, 0x00];
    v.extend_from_slice(body);
    v
}

fn entry(tag: u8, key: &str, payload: &[u8]) -> Vec<u8> {
    let mut v = vec![tag];
    let kb = key.as_bytes();
    v.push((kb.len() >> 8) as u8);
    v.push(kb.len() as u8);
    v.extend_from_slice(kb);
    v.extend_from_slice(payload);
    v
}

#[test]
fn empty_compound_decodes_to_empty_map() {
    let bytes = doc(&[0x00]);
    let (rest, v) = from_slice(&bytes).unwrap();
    assert!(rest.is_empty());
    match v {
        Value::Compound(es) => assert!(es.is_empty()),
        _ => panic!("expected a compound"),
    }
}

#[test]
fn decoding_stops_at_the_end_marker() {
    let mut bytes = doc(&[0x00]);
    bytes.extend_from_slice(&[0xde, 0xad, 0xbe, 0xef]);
    let (rest, v) = from_slice(&bytes).unwrap();
    assert_eq!(rest, &[0xde, 0xad, 0xbe, 0xef]);
    assert!(matches!(v, Value::Compound(es) if es.is_empty()));
}

#[test]
fn bare_int_root_is_rejected() {
    // Header tag 0x03 (Int) with an empty name, then four payload bytes.
    let bytes = [0x03u8, 0x00, 0x00, 0x00, 0x00, 0x00, 0x2a];
    assert!(matches!(from_slice(&bytes), Err(Error::NoRootCompound)));
}

#[test]
fn end_tag_root_is_rejected() {
    let bytes = [0x00u8];
    assert!(matches!(from_slice(&bytes), Err(Error::NoRootCompound)));
}

#[test]
fn scalar_fields_decode_big_endian() {
    let mut body = Vec::new();
    body.extend(entry(0x01, "b", &[0xff]));
    body.extend(entry(0x02, "s", &[0x01, 0x02]));
    body.extend(entry(0x03, "i", &[0xff, 0xff, 0xff, 0xfe]));
    body.extend(entry(0x04, "l", &[0x00, 0x00, 0x00, 0x00, 0x00, 0x00, 0x01, 0x00]));
    body.push(0x00);
    let bytes = doc(&body);
    let (_, v) = from_slice(&bytes).unwrap();
    let es = match v {
        Value::Compound(es) => es,
        _ => panic!("expected a compound"),
    };
    assert_eq!(es.len(), 4);
    assert_eq!(es[0].0, "b");
    assert!(matches!(es[0].1, Value::Byte(-1)));
    assert_eq!(es[1].0, "s");
    assert!(matches!(es[1].1, Value::Short(258)));
    assert_eq!(es[2].0, "i");
    assert!(matches!(es[2].1, Value::Int(-2)));
    assert_eq!(es[3].0, "l");
    assert!(matches!(es[3].1, Value::Long(256)));
}

#[test]
fn float_fields_keep_their_bits() {
    let mut body = Vec::new();
    body.extend(entry(0x05, "f", &[0x3f, 0x80, 0x00, 0x00]));
    body.extend(entry(0x06, "d", &[0x3f, 0xf0, 0x00, 0x00, 0x00, 0x00, 0x00, 0x00]));
    body.push(0x00);
    let (_, v) = from_slice(&doc(&body)).unwrap();
    let es = match v {
        Value::Compound(es) => es,
        _ => panic!("expected a compound"),
    };
    assert!(matches!(es[0].1, Value::Float(bits) if f32::from_bits(bits) == 1.0f32));
    assert!(matches!(es[1].1, Value::Double(bits) if f64::from_bits(bits) == 1.0f64));
}

#[test]
fn string_field_decodes() {
    let mut body = Vec::new();
    body.extend(entry(0x08, "name", &[0x00, 0x05, b'h', b'\xc3', b'\xa9', b'l', b'a']));
    body.push(0x00);
    let (_, v) = from_slice(&doc(&body)).unwrap();
    let es = match v {
        Value::Compound(es) => es,
        _ => panic!("expected a compound"),
    };
    assert_eq!(es[0].0, "name");
    assert!(matches!(&es[0].1, Value::Text(s) if s == "héla"));
}

#[test]
fn invalid_utf8_in_string_fails() {
    let mut body = Vec::new();
    body.extend(entry(0x08, "x", &[0x00, 0x02, 0xff, 0xfe]));
    body.push(0x00);
    assert!(matches!(from_slice(&doc(&body)), Err(Error::Io(IoKind::InvalidUtf8))));
}

#[test]
fn homogeneous_list_decodes_in_order() {
    let mut payload = vec![0x03u8, 0x00, 0x00, 0x00, 0x02];
    payload.extend_from_slice(&[0x00, 0x00, 0x00, 0x07]);
    payload.extend_from_slice(&[0x00, 0x00, 0x00, 0x09]);
    let mut body = entry(0x09, "l", &payload);
    body.push(0x00);
    let (_, v) = from_slice(&doc(&body)).unwrap();
    let es = match v {
        Value::Compound(es) => es,
        _ => panic!("expected a compound"),
    };
    match &es[0].1 {
        Value::List(tag, items) => {
            assert_eq!(*tag, 0x03);
            assert_eq!(items.len(), 2);
            assert!(matches!(items[0], Value::Int(7)));
            assert!(matches!(items[1], Value::Int(9)));
        },
        _ => panic!("expected a list"),
    }
}

#[test]
fn empty_list_consumes_exactly_five_bytes() {
    // Element tag 0x62 is not even a valid tag: with length 0 it is
    // accepted and nothing past the five header bytes is read.
    let mut body = entry(0x09, "l", &[0x62, 0x00, 0x00, 0x00, 0x00]);
    body.push(0x00);
    let mut bytes = doc(&body);
    bytes.push(0x77);
    let (rest, v) = from_slice(&bytes).unwrap();
    assert_eq!(rest, &[0x77]);
    let es = match v {
        Value::Compound(es) => es,
        _ => panic!("expected a compound"),
    };
    assert!(matches!(&es[0].1, Value::List(0x62, items) if items.is_empty()));
}

#[test]
fn typed_arrays_decode() {
    let mut body = Vec::new();
    body.extend(entry(0x07, "ba", &[0x00, 0x00, 0x00, 0x02, 0x05, 0xff]));
    body.extend(entry(0x0b, "ia", &[0x00, 0x00, 0x00, 0x01, 0x00, 0x00, 0x01, 0x00]));
    body.extend(
        entry(0x0c, "la", &[0x00, 0x00, 0x00, 0x01, 0xff, 0xff, 0xff, 0xff, 0xff, 0xff, 0xff, 0xff]),
    );
    body.push(0x00);
    let (_, v) = from_slice(&doc(&body)).unwrap();
    let es = match v {
        Value::Compound(es) => es,
        _ => panic!("expected a compound"),
    };
    assert!(matches!(&es[0].1, Value::ByteArray(b) if b.as_slice() == [5, -1]));
    assert!(matches!(&es[1].1, Value::IntArray(x) if x.as_slice() == [256]));
    assert!(matches!(&es[2].1, Value::LongArray(x) if x.as_slice() == [-1i64]));
}

#[test]
fn nested_compounds_decode() {
    let mut inner = entry(0x01, "x", &[0x2a]);
    inner.push(0x00);
    let mut body = entry(0x0a, "outer", &inner);
    body.push(0x00);
    let (_, v) = from_slice(&doc(&body)).unwrap();
    let es = match v {
        Value::Compound(es) => es,
        _ => panic!("expected a compound"),
    };
    assert_eq!(es[0].0, "outer");
    match &es[0].1 {
        Value::Compound(inner) => {
            assert_eq!(inner.len(), 1);
            assert_eq!(inner[0].0, "x");
            assert!(matches!(inner[0].1, Value::Byte(42)));
        },
        _ => panic!("expected a nested compound"),
    }
}

#[test]
fn unknown_entry_tag_fails_with_its_id() {
    let mut body = entry(0x63, "k", &[]);
    body.push(0x00);
    assert!(matches!(from_slice(&doc(&body)), Err(Error::InvalidTypeId(0x63))));
}

#[test]
fn truncated_input_fails_with_eof() {
    let body = entry(0x03, "i", &[0x00, 0x00]);
    assert!(matches!(from_slice(&doc(&body)), Err(Error::Io(IoKind::Eof))));
}

#[test]
fn bool_against_int_tag_is_a_mismatch() {
    let src = [0x00u8, 0x00, 0x00, 0x03];
    let mut d = Decoder::new(&src);
    assert!(matches!(d.decode_bool(0x03), Err(Error::TagMismatch(0x03, 0x01))));
}

#[test]
fn non_boolean_byte_is_reported() {
    let src = [0x07u8];
    let mut d = Decoder::new(&src);
    assert!(matches!(d.decode_bool(0x01), Err(Error::NonBooleanByte(7))));
}

#[test]
fn boolean_bytes_decode() {
    let src = [0x00u8, 0x01];
    let mut d = Decoder::new(&src);
    assert_eq!(d.decode_bool(0x01).unwrap(), false);
    assert_eq!(d.decode_bool(0x01).unwrap(), true);
}

#[test]
fn borrow_friendly_string_aliases_the_source() {
    let src = [0x00u8, 0x02, b'h', b'i'];
    let mut d = Decoder::new(&src);
    match d.decode_str(0x08).unwrap() {
        Reference::Borrowed(s) => {
            assert_eq!(s, "hi");
            assert_eq!(s.as_bytes().as_ptr(), src[2..].as_ptr());
        },
        Reference::Copied(_) => panic!("plain UTF-8 needs no conversion"),
        Reference::Owned(_) => panic!("a slice source should borrow"),
    }
}

#[test]
fn owned_string_request_is_independent() {
    let src = [0x00u8, 0x02, b'h', b'i'];
    let mut d = Decoder::new(&src);
    let s = d.decode_string(0x08).unwrap();
    assert_eq!(s, "hi");
    assert_ne!(s.as_bytes().as_ptr(), src[2..].as_ptr());
}

#[test]
fn owned_string_against_other_tag_is_a_mismatch() {
    let src = [0x00u8, 0x02, b'h', b'i'];
    let mut d = Decoder::new(&src);
    assert!(matches!(d.decode_string(0x03), Err(Error::TagMismatch(0x03, 0x08))));
}

#[test]
fn gzip_document_decodes() {
    let mut body = entry(0x01, "x", &[0x2a]);
    body.push(0x00);
    let plain = doc(&body);
    let mut enc = flate2::write::GzEncoder::new(Vec::new(), flate2::Compression::default());
    std::io::Write::write_all(&mut enc, &plain).unwrap();
    let packed = enc.finish().unwrap();
    let v = from_gzip_slice(&packed).unwrap();
    let es = match v {
        Value::Compound(es) => es,
        _ => panic!("expected a compound"),
    };
    assert_eq!(es[0].0, "x");
    assert!(matches!(es[0].1, Value::Byte(42)));
}

#[test]
fn zlib_document_decodes() {
    let mut body = entry(0x02, "y", &[0x01, 0x00]);
    body.push(0x00);
    let plain = doc(&body);
    let mut enc = flate2::write::ZlibEncoder::new(Vec::new(), flate2::Compression::default());
    std::io::Write::write_all(&mut enc, &plain).unwrap();
    let packed = enc.finish().unwrap();
    let v = from_zlib_slice(&packed).unwrap();
    let es = match v {
        Value::Compound(es) => es,
        _ => panic!("expected a compound"),
    };
    assert!(matches!(es[0].1, Value::Short(256)));
}

#[test]
fn corrupt_gzip_fails_with_io_kind() {
    let packed = [0x1fu8, 0x8b, 0x00, 0x01, 0x02];
    assert!(matches!(from_gzip_slice(&packed), Err(Error::Io(_))));
}

#[test]
fn modified_encoding_of_nul_is_tolerated() {
    // Java's modified encoding writes NUL as the two bytes 0xC0 0x80.
    let mut body = Vec::new();
    body.extend(entry(0x08, "z", &[0x00, 0x03, b'a', 0xc0, 0x80]));
    body.push(0x00);
    let (_, v) = from_slice(&doc(&body)).unwrap();
    let es = match v {
        Value::Compound(es) => es,
        _ => panic!("expected a compound"),
    };
    assert!(matches!(&es[0].1, Value::Text(s) if s == "a\0"));
}

#[test]
fn surrogate_pair_encoding_is_tolerated() {
    // U+1F600 in the modified encoding: a six-byte surrogate pair.
    let mut body = Vec::new();
    body.extend(entry(0x08, "e", &[0x00, 0x06, 0xed, 0xa0, 0xbd, 0xed, 0xb8, 0x80]));
    body.push(0x00);
    let (_, v) = from_slice(&doc(&body)).unwrap();
    let es = match v {
        Value::Compound(es) => es,
        _ => panic!("expected a compound"),
    };
    assert!(matches!(&es[0].1, Value::Text(s) if s == "\u{1F600}"));
}

#[test]
fn lone_surrogate_is_rejected() {
    let mut body = Vec::new();
    body.extend(entry(0x08, "x", &[0x00, 0x03, 0xed, 0xa0, 0xbd]));
    body.push(0x00);
    assert!(matches!(from_slice(&doc(&body)), Err(Error::Io(IoKind::InvalidUtf8))));
}

#[test]
fn converted_string_is_reported_as_a_copy() {
    // A borrow-friendly request against a payload that needed conversion
    // yields the Copied form, not a borrow and not a demanded allocation.
    let src = [0x00u8, 0x02, 0xc0, 0x80];
    let mut d = Decoder::new(&src);
    match d.decode_str(0x08).unwrap() {
        Reference::Copied(s) => assert_eq!(s, "\0"),
        Reference::Borrowed(_) => panic!("a converted payload cannot be borrowed"),
        Reference::Owned(_) => panic!("ownership was not demanded"),
    }
}

#[test]
fn pathological_nesting_is_reported_not_overflowed() {
    let mut bytes = vec![0x0au8, 0x00, 0x00];
    for _ in 0..600 {
        bytes.extend_from_slice(&[0x0a, 0x00, 0x00]);
    }
    for _ in 0..601 {
        bytes.push(0x00);
    }
    assert!(matches!(from_slice(&bytes), Err(Error::DepthExceeded)));
}

#[test]
fn reader_primitives_follow_the_wire() {
    let src = [0x01u8, 0x02, 0x03, 0x04, 0x05, 0x06, 0x07, 0x08];
    let mut d = Decoder::new(&src);
    assert_eq!(d.read_bare_short().unwrap(), 0x0102);
    assert_eq!(d.read_bare_int().unwrap(), 0x03040506);
    assert!(matches!(d.read_bare_long(), Err(Error::Io(IoKind::Eof))));
    assert_eq!(d.read_bare_byte().unwrap(), 0x07);
}
