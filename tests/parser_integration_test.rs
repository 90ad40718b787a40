use rusnmp::ber::Asn1Tag;
use rusnmp::ber::BerError;
use rusnmp::snmp::message::parse_message;
use rusnmp::snmp::pdu::ErrorStatus;
use rusnmp::snmp::pdu::ObjectSyntax;
use rusnmp::snmp::pdu::PduData;

const RAW_PACKET: &[u8] = &[
    0x30, 0x29, 0x02, 0x01, 0x01, 0x04, 0x06, 0x70, 0x75, 0x62, 0x6c, 0x69, 0x63, 0xa0, 0x1c, 0x02,
    0x04, 0x00, 0x00, 0x00, 0x01, 0x02, 0x01, 0x00, 0x02, 0x01, 0x00, 0x30, 0x0e, 0x30, 0x0c, 0x06,
    0x08, 0x2b, 0x06, 0x01, 0x02, 0x01, 0x01, 0x01, 0x00, 0x05, 0x00,
];

fn basic_fields(data: PduData) -> (ErrorStatus, i32) {
    match data {
        PduData::Basic {
            error_status,
            error_index,
        } => (error_status, error_index),
        PduData::Bulk { .. } => panic!("expected the basic shape"),
    }
}

#[test]
fn test_parse_v2c_get_request() {
    let message = parse_message(RAW_PACKET).unwrap();

    assert_eq!(message.version, 1);
    assert_eq!(message.community, b"public");

    let pdu = message.pdu;
    assert_eq!(pdu.tag, Asn1Tag::GetRequest);
    assert_eq!(pdu.request_id, 1);
    let (error_status, error_index) = basic_fields(pdu.data);
    assert_eq!(error_status, ErrorStatus::NoError);
    assert_eq!(error_index, 0);

    assert_eq!(pdu.varbinds.len(), 1);

    let varbind = &pdu.varbinds[0];
    let expected_oid: Vec<u32> = vec![1, 3, 6, 1, 2, 1, 1, 1, 0];
    assert_eq!(varbind.oid, expected_oid);

    assert_eq!(varbind.value, ObjectSyntax::Null);
}

const RAW_PACKET_RESPONSE: &[u8] = &[
    0x30, 0x42, 0x02, 0x01, 0x01, 0x04, 0x06, 0x70, 0x75, 0x62, 0x6c, 0x69, 0x63, 0xa2, 0x35, 0x02,
    0x04, 0x00, 0x00, 0x00, 0x01, 0x02, 0x01, 0x00, 0x02, 0x01, 0x00, 0x30, 0x27, 0x30, 0x25, 0x06,
    0x08, 0x2b, 0x06, 0x01, 0x02, 0x01, 0x01, 0x01, 0x00, 0x04, 0x19, 0x53, 0x61, 0x6d, 0x70, 0x6c,
    0x65, 0x20, 0x73, 0x79, 0x73, 0x74, 0x65, 0x6d, 0x20, 0x64, 0x65, 0x73, 0x63, 0x72, 0x69, 0x70,
    0x74, 0x69, 0x6f, 0x6e,
];

#[test]
fn test_parse_v2c_get_response() {
    let message = parse_message(RAW_PACKET_RESPONSE).unwrap();

    assert_eq!(message.version, 1);
    assert_eq!(message.community, b"public");

    let pdu = message.pdu;
    assert_eq!(pdu.tag, Asn1Tag::GetResponse);
    assert_eq!(pdu.request_id, 1);
    let (error_status, error_index) = basic_fields(pdu.data);
    assert_eq!(error_status, ErrorStatus::NoError);
    assert_eq!(error_index, 0);

    assert_eq!(pdu.varbinds.len(), 1);

    let varbind = &pdu.varbinds[0];
    let expected_oid: Vec<u32> = vec![1, 3, 6, 1, 2, 1, 1, 1, 0];
    assert_eq!(varbind.oid, expected_oid);

    let expected_value = b"Sample system description";
    match &varbind.value {
        ObjectSyntax::OctetString(val) => {
            assert_eq!(val, expected_value);
        }
        _ => panic!("Expected OctetString, got {:?}", varbind.value),
    }
}

#[test]
fn get_request_packet_is_43_bytes_and_get_response_68() {
    assert_eq!(RAW_PACKET.len(), 43);
    assert_eq!(RAW_PACKET_RESPONSE.len(), 68);
}

#[test]
fn trailing_byte_after_message_is_rejected() {
    let mut packet = RAW_PACKET.to_vec();
    packet.push(0x00);
    assert_eq!(parse_message(&packet), Err(BerError::TrailingData));
}

#[test]
fn trailing_byte_inside_pdu_is_rejected() {
    // one extra byte inside the PDU, with every enclosing length grown by one
    let mut packet = RAW_PACKET.to_vec();
    packet[1] += 1;
    packet[14] += 1;
    packet.push(0x00);
    assert_eq!(parse_message(&packet), Err(BerError::TrailingData));
}

#[test]
fn truncated_message_is_incomplete() {
    let packet = &RAW_PACKET[..RAW_PACKET.len() - 1];
    assert_eq!(parse_message(packet), Err(BerError::IncompleteData));
}

#[test]
fn message_that_is_not_a_sequence_is_rejected() {
    let packet = [0x02, 0x01, 0x01];
    assert_eq!(
        parse_message(&packet),
        Err(BerError::UnexpectedTag {
            expected: Asn1Tag::Sequence,
            got: Asn1Tag::Integer
        })
    );
}

#[test]
fn community_must_be_an_octet_string() {
    let mut packet = RAW_PACKET.to_vec();
    packet[5] = 0x05; // the community's tag becomes Null
    assert_eq!(
        parse_message(&packet),
        Err(BerError::UnexpectedTag {
            expected: Asn1Tag::OctetString,
            got: Asn1Tag::Null
        })
    );
}

#[test]
fn unknown_error_status_is_an_invalid_enum_value() {
    let mut packet = RAW_PACKET.to_vec();
    packet[23] = 0x07; // error-status 7
    assert_eq!(parse_message(&packet), Err(BerError::InvalidEnumValue(7)));
}

#[test]
fn unknown_tag_byte_is_unsupported() {
    let mut packet = RAW_PACKET.to_vec();
    packet[41] = 0x09; // the binding's value tag
    assert_eq!(parse_message(&packet), Err(BerError::UnsupportedType(0x09)));
}
