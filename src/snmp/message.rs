//! The outer SNMP message: version, community and PDU.
use crate::ber::encoder::{self, integer_tlv, tlv};
use crate::ber::{parse_ber_object, result_view, spec_parse_ber_object, Asn1Tag, BerError, BerResult};
use crate::snmp::pdu::{parse_integer_field, parse_pdu, spec_parse_integer_field, spec_parse_pdu, Pdu, PduView};
use vstd::prelude::*;
use vstd::slice::slice_to_vec;

verus! {

#[derive(Debug, Clone, PartialEq, Eq)]
pub struct SnmpMessage {
    pub version: i32,
    pub community: Vec<u8>,
    pub pdu: Pdu,
}

pub struct MessageView {
    pub version: i32,
    pub community: Seq<u8>,
    pub pdu: PduView,
}

impl View for SnmpMessage {
    type V = MessageView;

    open spec fn view(&self) -> MessageView {
        MessageView { version: self.version, community: self.community@, pdu: self.pdu@ }
    }
}

impl MessageView {
    /// `SEQUENCE { INTEGER version, OCTET STRING community, PDU }`.
    pub open spec fn encoding(self) -> Seq<u8> {
        tlv(0x30, integer_tlv(self.version as int) + tlv(0x04, self.community) + self.pdu.encoding())
    }
}

/// The message that `input` holds, with nothing after it.
pub open spec fn spec_parse_message(input: Seq<u8>) -> BerResult<MessageView> {
    match spec_parse_ber_object(input) {
        Err(e) => Err(e),
        Ok((msg, rest)) => if msg.tag != Asn1Tag::Sequence {
            Err(BerError::UnexpectedTag { expected: Asn1Tag::Sequence, got: msg.tag })
        } else if rest.len() > 0 {
            Err(BerError::TrailingData)
        } else {
            match spec_parse_integer_field(msg.value) {
                Err(e) => Err(e),
                Ok((version, r1)) => match spec_parse_ber_object(r1) {
                    Err(e) => Err(e),
                    Ok((comm, r2)) => if comm.tag != Asn1Tag::OctetString {
                        Err(BerError::UnexpectedTag { expected: Asn1Tag::OctetString, got: comm.tag })
                    } else {
                        match spec_parse_ber_object(r2) {
                            Err(e) => Err(e),
                            Ok((pdu_obj, r3)) => match spec_parse_pdu(pdu_obj) {
                                Err(e) => Err(e),
                                Ok(pdu) => if r3.len() > 0 {
                                    Err(BerError::TrailingData)
                                } else {
                                    Ok(MessageView { version, community: comm.value, pdu })
                                },
                            },
                        }
                    },
                },
            }
        },
    }
}

pub fn parse_message(inpt: &[u8]) -> (r: BerResult<SnmpMessage>)
    ensures
        result_view(r) == spec_parse_message(inpt@),
{
    let (msgobj, rest) = parse_ber_object(inpt)?;
    if msgobj.tag != Asn1Tag::Sequence {
        return Err(BerError::UnexpectedTag { expected: Asn1Tag::Sequence, got: msgobj.tag });
    }
    if rest.len() != 0 {
        return Err(BerError::TrailingData);
    }
    let (version, rest) = parse_integer_field(msgobj.value)?;
    let (comm, rest) = parse_ber_object(rest)?;
    if comm.tag != Asn1Tag::OctetString {
        return Err(BerError::UnexpectedTag { expected: Asn1Tag::OctetString, got: comm.tag });
    }
    let community = slice_to_vec(comm.value);
    let (pdu_object, rest) = parse_ber_object(rest)?;
    let pdu = parse_pdu(pdu_object)?;
    if rest.len() != 0 {
        return Err(BerError::TrailingData);
    }
    Ok(SnmpMessage { version, community, pdu })
}

impl SnmpMessage {
    pub fn write_to_buf(&self, buf: &mut Vec<u8>)
        requires
            self@.pdu.writable(),
        ensures
            final(buf)@ == old(buf)@ + self@.encoding(),
    {
        let mut content_buf: Vec<u8> = Vec::new();
        encoder::encode_integer(&mut content_buf, self.version);
        encoder::encode_octet_string(&mut content_buf, self.community.as_slice());
        self.pdu.write_to_buf(&mut content_buf);
        assert(content_buf@ =~= integer_tlv(self.version as int) + tlv(0x04, self.community@)
            + self@.pdu.encoding());
        encoder::encode_sequence_with(buf, content_buf);
    }

    pub fn to_bytes(&self) -> (r: Vec<u8>)
        requires
            self@.pdu.writable(),
        ensures
            r@ == self@.encoding(),
    {
        let mut buf: Vec<u8> = Vec::new();
        self.write_to_buf(&mut buf);
        assert(buf@ =~= self@.encoding());
        buf
    }
}

} // verus!
