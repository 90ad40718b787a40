use rusnmp::ber::decoder::{decode_integer, decode_unsigned_integer, decode_unsigned_integer64};
use rusnmp::ber::encoder::{
    encode_counter32, encode_counter64, encode_gauge32, encode_integer, encode_ip_address,
    encode_null, encode_octet_string, encode_oid, encode_opaque, encode_sequence_with,
    encode_timeticks, encode_unsigned_integer_helper,
};
use rusnmp::ber::{decode_oid, parse_ber_object, Asn1Tag, BerError};
use rusnmp::snmp::message::{parse_message, SnmpMessage};
use rusnmp::snmp::pdu::{parse_varbind, ErrorStatus, ObjectSyntax, Pdu, PduData, VarBind};

fn int_bytes(v: i32) -> Vec<u8> {
    let mut buf = Vec::new();
    encode_integer(&mut buf, v);
    buf
}

fn decode_value(bytes: &[u8]) -> Result<ObjectSyntax, BerError> {
    let (obj, rest) = parse_ber_object(bytes)?;
    assert!(rest.is_empty());
    ObjectSyntax::from_ber(obj)
}

#[test]
fn encode_integer_127() {
    assert_eq!(int_bytes(127), vec![0x02, 0x01, 0x7F]);
}

#[test]
fn encode_integer_128() {
    assert_eq!(int_bytes(128), vec![0x02, 0x02, 0x00, 0x80]);
}

#[test]
fn encode_integer_minus_one() {
    assert_eq!(int_bytes(-1), vec![0x02, 0x01, 0xFF]);
}

#[test]
fn encode_integer_minus_128() {
    assert_eq!(int_bytes(-128), vec![0x02, 0x01, 0x80]);
}

#[test]
fn encode_integer_edges() {
    assert_eq!(int_bytes(0), vec![0x02, 0x01, 0x00]);
    assert_eq!(int_bytes(-129), vec![0x02, 0x02, 0xFF, 0x7F]);
    assert_eq!(int_bytes(256), vec![0x02, 0x02, 0x01, 0x00]);
    assert_eq!(int_bytes(i32::MAX), vec![0x02, 0x04, 0x7F, 0xFF, 0xFF, 0xFF]);
    assert_eq!(int_bytes(i32::MIN), vec![0x02, 0x04, 0x80, 0x00, 0x00, 0x00]);
}

#[test]
fn encode_gauge32_2147483648() {
    let mut buf = Vec::new();
    encode_gauge32(&mut buf, 2147483648);
    assert_eq!(buf, vec![0x42, 0x05, 0x00, 0x80, 0x00, 0x00, 0x00]);
}

#[test]
fn encode_unsigned_quantities() {
    let mut buf = Vec::new();
    encode_counter32(&mut buf, 0);
    encode_timeticks(&mut buf, 128);
    encode_unsigned_integer_helper(&mut buf, Asn1Tag::Gauge32, 127);
    assert_eq!(buf, vec![0x41, 0x01, 0x00, 0x43, 0x02, 0x00, 0x80, 0x42, 0x01, 0x7F]);
    let mut buf = Vec::new();
    encode_counter64(&mut buf, u64::MAX);
    assert_eq!(
        buf,
        vec![0x46, 0x09, 0x00, 0xFF, 0xFF, 0xFF, 0xFF, 0xFF, 0xFF, 0xFF, 0xFF]
    );
}

#[test]
fn encode_oid_enterprise_net_snmp() {
    let mut buf = Vec::new();
    encode_oid(&mut buf, &[1, 3, 6, 1, 4, 1, 8072]);
    // 8072 = 0x3F * 128 + 0x08: the high group with its continuation bit,
    // then the low group
    assert_eq!(buf, vec![0x06, 0x07, 0x2B, 0x06, 0x01, 0x04, 0x01, 0xBF, 0x08]);
}

#[test]
fn encode_oid_large_and_zero_subidentifiers() {
    let mut buf = Vec::new();
    encode_oid(&mut buf, &[1, 3, 0, 4294967295]);
    assert_eq!(buf, vec![0x06, 0x07, 0x2B, 0x00, 0x8F, 0xFF, 0xFF, 0xFF, 0x7F]);
}

#[test]
fn length_boundaries() {
    // short form up to 127, then the shortest long form
    let mut buf = Vec::new();
    encode_octet_string(&mut buf, &[0u8; 127]);
    assert_eq!(&buf[..2], &[0x04, 0x7F]);
    assert_eq!(buf.len(), 2 + 127);
    let mut buf = Vec::new();
    encode_octet_string(&mut buf, &[0u8; 128]);
    assert_eq!(&buf[..3], &[0x04, 0x81, 0x80]);
    assert_eq!(buf.len(), 3 + 128);
    let mut buf = Vec::new();
    encode_octet_string(&mut buf, &[0u8; 256]);
    assert_eq!(&buf[..4], &[0x04, 0x82, 0x01, 0x00]);
    assert_eq!(buf.len(), 4 + 256);
}

#[test]
fn long_form_length_is_read_back() {
    let mut buf = Vec::new();
    encode_octet_string(&mut buf, &[7u8; 300]);
    let (obj, rest) = parse_ber_object(&buf).unwrap();
    assert_eq!(obj.tag, Asn1Tag::OctetString);
    assert_eq!(obj.header_len, 4);
    assert_eq!(obj.value_len, 300);
    assert_eq!(obj.value, &[7u8; 300][..]);
    assert!(rest.is_empty());
}

#[test]
fn malformed_lengths() {
    assert_eq!(parse_ber_object(&[0x04, 0x80]), Err(BerError::MalformedLength));
    assert_eq!(parse_ber_object(&[0x04, 0xFF]), Err(BerError::MalformedLength));
    assert_eq!(
        parse_ber_object(&[0x04, 0x89, 0, 0, 0, 0, 0, 0, 0, 0, 1]),
        Err(BerError::MalformedLength)
    );
    assert_eq!(parse_ber_object(&[0x04, 0x82, 0x01]), Err(BerError::MalformedLength));
    assert_eq!(parse_ber_object(&[0x04]), Err(BerError::IncompleteData));
    assert_eq!(parse_ber_object(&[]), Err(BerError::IncompleteData));
    assert_eq!(parse_ber_object(&[0x04, 0x03, 0x01]), Err(BerError::IncompleteData));
    assert_eq!(parse_ber_object(&[0x1F, 0x00]), Err(BerError::UnsupportedType(0x1F)));
}

#[test]
fn parse_object_keeps_the_rest() {
    let input = [0x02, 0x01, 0x05, 0xAA, 0xBB];
    let (obj, rest) = parse_ber_object(&input).unwrap();
    assert_eq!(obj.tag, Asn1Tag::Integer);
    assert_eq!(obj.header_len, 2);
    assert_eq!(obj.value_len, 1);
    assert_eq!(obj.value, &[0x05]);
    assert_eq!(rest, &[0xAA, 0xBB]);
}

#[test]
fn decode_integer_rules() {
    assert_eq!(decode_integer(&[]), Err(BerError::IncompleteData));
    assert_eq!(decode_integer(&[0x7F]), Ok(127));
    assert_eq!(decode_integer(&[0x80]), Ok(-128));
    assert_eq!(decode_integer(&[0xFF, 0x7F]), Ok(-129));
    assert_eq!(decode_integer(&[0x00, 0x00, 0x00, 0x01]), Ok(1));
    assert_eq!(decode_integer(&[0x00, 0x80, 0x00, 0x00, 0x00]), Ok(i32::MIN));
    assert_eq!(decode_integer(&[0xFF, 0x7F, 0xFF, 0xFF, 0xFF]), Ok(i32::MAX));
    assert_eq!(decode_integer(&[0x00, 0x00, 0x00, 0x00, 0x01]), Err(BerError::IntegerOverflow));
    assert_eq!(decode_integer(&[0x01, 0x00, 0x00, 0x00, 0x00]), Err(BerError::IntegerOverflow));
    assert_eq!(decode_integer(&[0, 0, 0, 0, 0, 1]), Err(BerError::IntegerOverflow));
}

#[test]
fn decode_unsigned_rules() {
    assert_eq!(decode_unsigned_integer(&[]), Err(BerError::IncompleteData));
    assert_eq!(decode_unsigned_integer(&[0x80]), Ok(128));
    assert_eq!(decode_unsigned_integer(&[0x00, 0xFF, 0xFF, 0xFF, 0xFF]), Ok(u32::MAX));
    assert_eq!(decode_unsigned_integer(&[0x01, 0x00, 0x00, 0x00, 0x00]), Err(BerError::IntegerOverflow));
    assert_eq!(decode_unsigned_integer(&[0, 0, 0, 0, 0, 0]), Err(BerError::IntegerOverflow));
    assert_eq!(decode_unsigned_integer64(&[0x00, 0xFF, 0xFF, 0xFF, 0xFF, 0xFF, 0xFF, 0xFF, 0xFF]), Ok(u64::MAX));
    assert_eq!(decode_unsigned_integer64(&[0x01, 0, 0, 0, 0, 0, 0, 0, 0]), Err(BerError::IntegerOverflow));
    assert_eq!(decode_unsigned_integer64(&[0; 10]), Err(BerError::IntegerOverflow));
    assert_eq!(decode_unsigned_integer64(&[0x01, 0x00]), Ok(256));
}

#[test]
fn decode_oid_rules() {
    assert_eq!(decode_oid(&[]), Err(BerError::IncompleteData));
    assert_eq!(decode_oid(&[0x2B, 0x06, 0x01, 0x04, 0x01, 0xBF, 0x08]), Ok(vec![1, 3, 6, 1, 4, 1, 8072]));
    assert_eq!(decode_oid(&[0x2B, 0x06, 0x81]), Err(BerError::IncompleteData));
    assert_eq!(decode_oid(&[0x2B, 0x81, 0x82, 0x83, 0x84, 0x85, 0x01]), Err(BerError::IntegerOverflow));
    // the first byte is split by 40 without regard to the ASN.1 rule for 2.x
    assert_eq!(decode_oid(&[0x58]), Ok(vec![2, 8]));
}

#[test]
fn value_round_trips() {
    let values = vec![
        ObjectSyntax::Integer(-300),
        ObjectSyntax::Integer(i32::MIN),
        ObjectSyntax::OctetString(b"abc".to_vec()),
        ObjectSyntax::Null,
        ObjectSyntax::ObjectIdentifier(vec![1, 3, 6, 1, 4, 1, 8072, 0]),
        ObjectSyntax::IpAddress(vec![192, 168, 0, 1]),
        ObjectSyntax::Counter32(u32::MAX),
        ObjectSyntax::Gauge32(2147483648),
        ObjectSyntax::TimeTicks(12345),
        ObjectSyntax::Opaque(vec![0xDE, 0xAD]),
        ObjectSyntax::Counter64(u64::MAX),
        ObjectSyntax::NoSuchObject,
        ObjectSyntax::NoSuchInstance,
        ObjectSyntax::EndOfMib,
    ];
    for v in values {
        let mut buf = Vec::new();
        v.write_to_buf(&mut buf);
        assert_eq!(decode_value(&buf), Ok(v));
    }
}

#[test]
fn exception_markers_are_written_with_empty_content() {
    let mut buf = Vec::new();
    ObjectSyntax::EndOfMib.write_to_buf(&mut buf);
    ObjectSyntax::NoSuchObject.write_to_buf(&mut buf);
    ObjectSyntax::NoSuchInstance.write_to_buf(&mut buf);
    encode_null(&mut buf);
    assert_eq!(buf, vec![0x82, 0x00, 0x80, 0x00, 0x81, 0x00, 0x05, 0x00]);
}

#[test]
fn byte_strings_keep_their_tags() {
    let mut buf = Vec::new();
    encode_ip_address(&mut buf, &[10, 0, 0, 1]);
    encode_opaque(&mut buf, &[1]);
    assert_eq!(buf, vec![0x40, 0x04, 10, 0, 0, 1, 0x44, 0x01, 1]);
}

#[test]
fn sequence_wraps_its_content() {
    let mut buf = Vec::new();
    encode_sequence_with(&mut buf, vec![0x05, 0x00]);
    assert_eq!(buf, vec![0x30, 0x02, 0x05, 0x00]);
}

#[test]
fn varbind_round_trip_and_oid_tag_check() {
    let vb = VarBind {
        oid: vec![1, 3, 6, 1, 2, 1, 1, 5, 0],
        value: ObjectSyntax::OctetString(b"host".to_vec()),
    };
    let mut buf = Vec::new();
    vb.write_to_buf(&mut buf);
    let (obj, _) = parse_ber_object(&buf).unwrap();
    assert_eq!(parse_varbind(obj), Ok(vb));
    // a binding whose first field is not an object identifier
    let bad = [0x30, 0x05, 0x02, 0x01, 0x01, 0x05, 0x00];
    let (obj, _) = parse_ber_object(&bad).unwrap();
    assert_eq!(
        parse_varbind(obj),
        Err(BerError::UnexpectedTag {
            expected: Asn1Tag::ObjectIdentifier,
            got: Asn1Tag::Integer
        })
    );
}

#[test]
fn tag_bytes_and_descriptions() {
    assert_eq!(Asn1Tag::from_u8(0xA5), Ok(Asn1Tag::GetBulkRequest));
    assert_eq!(Asn1Tag::from_u8(0x45), Err(BerError::UnsupportedType(0x45)));
    assert_eq!(Asn1Tag::Counter64.to_u8(), 0x46);
    assert_eq!(Asn1Tag::Sequence.describe(), "Universal, Constructed, Tag 16 (SEQUENCE)");
    assert_eq!(Asn1Tag::Opaque.describe(), "Other");
    assert_eq!(ErrorStatus::try_from(5), Ok(ErrorStatus::GenErr));
    assert_eq!(ErrorStatus::try_from(6), Err(BerError::InvalidEnumValue(6)));
    assert_eq!(ErrorStatus::NoSuchName.code(), 2);
}

#[test]
fn message_round_trip() {
    let messages = vec![
        SnmpMessage {
            version: 1,
            community: b"public".to_vec(),
            pdu: Pdu {
                tag: Asn1Tag::GetResponse,
                request_id: -7,
                data: PduData::Basic {
                    error_status: ErrorStatus::NoSuchName,
                    error_index: 2,
                },
                varbinds: vec![
                    VarBind {
                        oid: vec![1, 3, 6, 1, 2, 1, 1, 3, 0],
                        value: ObjectSyntax::TimeTicks(4000000000),
                    },
                    VarBind {
                        oid: vec![2, 39, 1000000],
                        value: ObjectSyntax::ObjectIdentifier(vec![0, 0]),
                    },
                ],
            },
        },
        SnmpMessage {
            version: 0,
            community: vec![0u8; 200],
            pdu: Pdu {
                tag: Asn1Tag::GetBulkRequest,
                request_id: 1,
                data: PduData::Bulk {
                    non_repeaters: 0,
                    max_repititions: 20,
                },
                varbinds: vec![],
            },
        },
    ];
    for m in messages {
        let bytes = m.to_bytes();
        assert_eq!(parse_message(&bytes), Ok(m));
    }
}

#[test]
fn integer_encodings_are_shortest() {
    for v in [0, 1, -1, 127, 128, -128, -129, 255, 256, 32767, 32768, -32768, -32769, i32::MAX, i32::MIN] {
        let bytes = int_bytes(v);
        let content = &bytes[2..];
        assert_eq!(bytes[1] as usize, content.len());
        if content.len() > 1 {
            assert!(!(content[0] == 0x00 && content[1] < 0x80));
            assert!(!(content[0] == 0xFF && content[1] >= 0x80));
        }
        assert_eq!(decode_integer(content), Ok(v));
    }
}

#[test]
fn oid_round_trips_through_the_codec() {
    for o in [vec![0, 0], vec![1, 39, 0, 127, 128, 16383, 16384], vec![2, 5, 4294967295]] {
        let mut buf = Vec::new();
        encode_oid(&mut buf, &o);
        let (obj, _) = parse_ber_object(&buf).unwrap();
        assert_eq!(decode_oid(obj.value), Ok(o));
    }
}

#[test]
fn second_subidentifier_beyond_39_does_not_round_trip() {
    // 2 * 40 + 40 = 120, which splits back as 3 and 0
    let mut buf = Vec::new();
    encode_oid(&mut buf, &[2, 40]);
    assert_eq!(buf, vec![0x06, 0x01, 120]);
    assert_eq!(decode_oid(&buf[2..]), Ok(vec![3, 0]));
}
