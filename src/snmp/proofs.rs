//! Parsing what the writers produce gives back what was written: values,
//! bindings, PDUs and whole messages.
use crate::ber::encoder::{int_content, integer_tlv, oid_content, tlv};
use crate::ber::proofs::{
    lemma_integer_round_trip, lemma_oid_round_trip, lemma_tlv_round_trip,
    lemma_unsigned64_round_trip, lemma_unsigned_round_trip, oid_round_trips,
};
use crate::ber::{spec_parse_ber_object, Asn1Tag, BerError};
use crate::snmp::message::{spec_parse_message, MessageView};
use crate::snmp::pdu::{
    spec_parse_integer_field, spec_parse_pdu, spec_parse_pdu_data, spec_parse_varbind,
    spec_parse_varbinds, spec_value_from_tlv, varbinds_encoding,
    ErrorStatus, PduData, PduView, SyntaxValue, VarBindView,
};
use vstd::prelude::*;

verus! {

/// A value whose object identifier, if it holds one, round-trips.
pub open spec fn value_round_trips(v: SyntaxValue) -> bool {
    v matches SyntaxValue::ObjectIdentifier(o) ==> oid_round_trips(o)
}

pub open spec fn varbind_round_trips(vb: VarBindView) -> bool {
    oid_round_trips(vb.oid) && value_round_trips(vb.value)
}

/// A PDU whose bindings round-trip and whose data has the shape its tag
/// selects.
pub open spec fn pdu_round_trips(p: PduView) -> bool {
    &&& p.shape_matches_tag()
    &&& forall|i: int| 0 <= i < p.varbinds.len() ==> varbind_round_trips(#[trigger] p.varbinds[i])
}

/// The largest length a length field can carry.
pub open spec fn fits_length(s: Seq<u8>) -> bool {
    s.len() < 0x1_0000_0000_0000_0000
}

/// The record a value is written as is read back as that value, and what
/// follows it is left over.
pub proof fn lemma_value_round_trip(v: SyntaxValue, rest: Seq<u8>)
    requires
        value_round_trips(v),
        fits_length(v.encoding()),
    ensures
        spec_parse_ber_object(v.encoding() + rest) matches Ok((o, r)) && r == rest
            && spec_value_from_tlv(o) == Ok::<SyntaxValue, BerError>(v),
{
    match v {
        SyntaxValue::Integer(i) => {
            lemma_tlv_round_trip(Asn1Tag::Integer, int_content(i as int), rest);
            lemma_integer_round_trip(i);
        },
        SyntaxValue::OctetString(b) => {
            lemma_tlv_round_trip(Asn1Tag::OctetString, b, rest);
        },
        SyntaxValue::Null => {
            lemma_tlv_round_trip(Asn1Tag::Null, seq![], rest);
        },
        SyntaxValue::ObjectIdentifier(o) => {
            lemma_tlv_round_trip(Asn1Tag::ObjectIdentifier, oid_content(o), rest);
            lemma_oid_round_trip(o);
        },
        SyntaxValue::IpAddress(b) => {
            lemma_tlv_round_trip(Asn1Tag::IpAddress, b, rest);
        },
        SyntaxValue::Counter32(n) => {
            lemma_tlv_round_trip(Asn1Tag::Counter32, int_content(n as int), rest);
            lemma_unsigned_round_trip(n);
        },
        SyntaxValue::Gauge32(n) => {
            lemma_tlv_round_trip(Asn1Tag::Gauge32, int_content(n as int), rest);
            lemma_unsigned_round_trip(n);
        },
        SyntaxValue::TimeTicks(n) => {
            lemma_tlv_round_trip(Asn1Tag::TimeTicks, int_content(n as int), rest);
            lemma_unsigned_round_trip(n);
        },
        SyntaxValue::Opaque(b) => {
            lemma_tlv_round_trip(Asn1Tag::Opaque, b, rest);
        },
        SyntaxValue::Counter64(n) => {
            lemma_tlv_round_trip(Asn1Tag::Counter64, int_content(n as int), rest);
            lemma_unsigned64_round_trip(n);
        },
        SyntaxValue::NoSuchObject => {
            lemma_tlv_round_trip(Asn1Tag::NoSuchObject, seq![], rest);
        },
        SyntaxValue::NoSuchInstance => {
            lemma_tlv_round_trip(Asn1Tag::NoSuchInstance, seq![], rest);
        },
        SyntaxValue::EndOfMib => {
            lemma_tlv_round_trip(Asn1Tag::EndOfMib, seq![], rest);
        },
    }
}

/// Decoding an encoded value gives it back, for every value whose object
/// identifier (if any) round-trips.
pub proof fn lemma_object_syntax_round_trip(v: SyntaxValue)
    requires
        value_round_trips(v),
        fits_length(v.encoding()),
    ensures
        spec_parse_ber_object(v.encoding()) matches Ok((o, r)) && r.len() == 0
            && spec_value_from_tlv(o) == Ok::<SyntaxValue, BerError>(v),
{
    lemma_value_round_trip(v, seq![]);
    assert(v.encoding() + Seq::<u8>::empty() == v.encoding());
}

/// A binding's record is read back as that binding.
pub proof fn lemma_varbind_round_trip(vb: VarBindView, rest: Seq<u8>)
    requires
        varbind_round_trips(vb),
        fits_length(vb.encoding()),
    ensures
        spec_parse_ber_object(vb.encoding() + rest) matches Ok((o, r)) && r == rest
            && spec_parse_varbind(o) == Ok::<VarBindView, BerError>(vb),
{
    let oid_tlv = tlv(0x06, oid_content(vb.oid));
    let inner = oid_tlv + vb.value.encoding();
    lemma_tlv_round_trip(Asn1Tag::Sequence, inner, rest);
    lemma_tlv_round_trip(Asn1Tag::ObjectIdentifier, oid_content(vb.oid), vb.value.encoding());
    lemma_oid_round_trip(vb.oid);
    lemma_value_round_trip(vb.value, seq![]);
    assert(vb.value.encoding() + Seq::<u8>::empty() == vb.value.encoding());
}

/// Bindings written one after the other are read back in order.
pub proof fn lemma_varbinds_round_trip(s: Seq<VarBindView>)
    requires
        forall|i: int| 0 <= i < s.len() ==> varbind_round_trips(#[trigger] s[i]),
        fits_length(varbinds_encoding(s)),
    ensures
        spec_parse_varbinds(varbinds_encoding(s)) == Ok::<Seq<VarBindView>, BerError>(s),
    decreases s.len(),
{
    if s.len() > 0 {
        let more = varbinds_encoding(s.drop_first());
        let all = varbinds_encoding(s);
        assert(all == s[0].encoding() + more);
        assert(s[0].encoding().len() > 0);
        assert(more.len() < all.len());
        assert(varbind_round_trips(s[0]));
        lemma_varbind_round_trip(s[0], more);
        assert forall|i: int| 0 <= i < s.drop_first().len() implies varbind_round_trips(
            #[trigger] s.drop_first()[i],
        ) by {
            assert(s.drop_first()[i] == s[i + 1]);
        }
        lemma_varbinds_round_trip(s.drop_first());
        assert(seq![s[0]] + s.drop_first() == s);
        assert(spec_parse_varbinds(more) == Ok::<Seq<VarBindView>, BerError>(s.drop_first()));
    } else {
        assert(s == Seq::<VarBindView>::empty());
    }
}

/// An INTEGER field is read back, and what follows it is left over.
pub proof fn lemma_integer_field_round_trip(v: i32, rest: Seq<u8>)
    ensures
        spec_parse_integer_field(integer_tlv(v as int) + rest) == Ok::<(i32, Seq<u8>), BerError>(
            (v, rest),
        ),
{
    lemma_integer_round_trip(v);
    lemma_tlv_round_trip(Asn1Tag::Integer, int_content(v as int), rest);
}

/// The data fields are read back with the shape the tag selects.
proof fn lemma_pdu_data_round_trip(tag: Asn1Tag, data: PduData, rest: Seq<u8>)
    requires
        (tag == Asn1Tag::GetBulkRequest) == (data is Bulk),
    ensures
        spec_parse_pdu_data(tag, data.encoding() + rest) == Ok::<(PduData, Seq<u8>), BerError>(
            (data, rest),
        ),
{
    match data {
        PduData::Basic { error_status, error_index } => {
            let a = integer_tlv(error_status.spec_code() as int);
            let b = integer_tlv(error_index as int);
            assert(data.encoding() + rest == a + (b + rest));
            lemma_integer_field_round_trip(error_status.spec_code(), b + rest);
            lemma_integer_field_round_trip(error_index, rest);
            assert(ErrorStatus::spec_from_code(error_status.spec_code()) == Ok::<
                ErrorStatus,
                BerError,
            >(error_status));
        },
        PduData::Bulk { non_repeaters, max_repititions } => {
            let a = integer_tlv(non_repeaters as int);
            let b = integer_tlv(max_repititions as int);
            assert(data.encoding() + rest == a + (b + rest));
            lemma_integer_field_round_trip(non_repeaters, b + rest);
            lemma_integer_field_round_trip(max_repititions, rest);
        },
    }
}

/// A PDU's record is read back as that PDU.
pub proof fn lemma_pdu_round_trip(p: PduView, rest: Seq<u8>)
    requires
        pdu_round_trips(p),
        fits_length(p.encoding()),
    ensures
        spec_parse_ber_object(p.encoding() + rest) matches Ok((o, r)) && r == rest
            && spec_parse_pdu(o) == Ok::<PduView, BerError>(p),
{
    let list = tlv(0x30, varbinds_encoding(p.varbinds));
    let head = integer_tlv(p.request_id as int);
    lemma_tlv_round_trip(p.tag, p.content_encoding(), rest);
    assert(p.content_encoding() == head + (p.data.encoding() + list));
    lemma_integer_field_round_trip(p.request_id, p.data.encoding() + list);
    lemma_pdu_data_round_trip(p.tag, p.data, list);
    assert(list == list + Seq::<u8>::empty());
    lemma_tlv_round_trip(Asn1Tag::Sequence, varbinds_encoding(p.varbinds), Seq::<u8>::empty());
    lemma_varbinds_round_trip(p.varbinds);
}

/// A message is read back from its encoding, for every message whose
/// object identifiers round-trip and whose PDU data has the shape its tag
/// selects.
pub proof fn lemma_message_round_trip(m: MessageView)
    requires
        pdu_round_trips(m.pdu),
        fits_length(m.encoding()),
    ensures
        spec_parse_message(m.encoding()) == Ok::<MessageView, BerError>(m),
{
    let version = integer_tlv(m.version as int);
    let community = tlv(0x04, m.community);
    let pdu = m.pdu.encoding();
    let inner = version + community + pdu;
    assert(m.encoding() == m.encoding() + Seq::<u8>::empty());
    lemma_tlv_round_trip(Asn1Tag::Sequence, inner, Seq::<u8>::empty());
    assert(inner == version + (community + pdu));
    lemma_integer_field_round_trip(m.version, community + pdu);
    lemma_tlv_round_trip(Asn1Tag::OctetString, m.community, pdu);
    assert(pdu == pdu + Seq::<u8>::empty());
    lemma_pdu_round_trip(m.pdu, Seq::<u8>::empty());
}

} // verus!
