//! Values, variable bindings and PDUs.
use crate::ber::decoder::{
    decode_integer, decode_unsigned_integer, decode_unsigned_integer64, spec_decode_integer,
    spec_decode_unsigned, spec_decode_unsigned64,
};
use crate::ber::encoder::{self, int_content, integer_tlv, oid_content, oid_encodable, tlv};
use crate::ber::{
    decode_oid, parse_ber_object, result_view, spec_decode_oid, spec_parse_ber_object, Asn1Tag,
    BerError, BerObject, BerResult, TlvView,
};
use vstd::prelude::*;
use vstd::slice::slice_to_vec;

verus! {

/// The value of a variable binding.
#[derive(Debug, Clone, PartialEq, Eq)]
pub enum ObjectSyntax {
    Integer(i32),
    OctetString(Vec<u8>),
    Null,
    ObjectIdentifier(Vec<u32>),
    IpAddress(Vec<u8>),
    Counter32(u32),
    Gauge32(u32),
    TimeTicks(u32),
    Opaque(Vec<u8>),
    Counter64(u64),
    NoSuchObject,
    NoSuchInstance,
    EndOfMib,
}

/// What an `ObjectSyntax` holds, with its bytes and subidentifiers as
/// sequences.
pub enum SyntaxValue {
    Integer(i32),
    OctetString(Seq<u8>),
    Null,
    ObjectIdentifier(Seq<u32>),
    IpAddress(Seq<u8>),
    Counter32(u32),
    Gauge32(u32),
    TimeTicks(u32),
    Opaque(Seq<u8>),
    Counter64(u64),
    NoSuchObject,
    NoSuchInstance,
    EndOfMib,
}

impl View for ObjectSyntax {
    type V = SyntaxValue;

    open spec fn view(&self) -> SyntaxValue {
        match self {
            ObjectSyntax::Integer(v) => SyntaxValue::Integer(*v),
            ObjectSyntax::OctetString(b) => SyntaxValue::OctetString(b@),
            ObjectSyntax::Null => SyntaxValue::Null,
            ObjectSyntax::ObjectIdentifier(o) => SyntaxValue::ObjectIdentifier(o@),
            ObjectSyntax::IpAddress(b) => SyntaxValue::IpAddress(b@),
            ObjectSyntax::Counter32(v) => SyntaxValue::Counter32(*v),
            ObjectSyntax::Gauge32(v) => SyntaxValue::Gauge32(*v),
            ObjectSyntax::TimeTicks(v) => SyntaxValue::TimeTicks(*v),
            ObjectSyntax::Opaque(b) => SyntaxValue::Opaque(b@),
            ObjectSyntax::Counter64(v) => SyntaxValue::Counter64(*v),
            ObjectSyntax::NoSuchObject => SyntaxValue::NoSuchObject,
            ObjectSyntax::NoSuchInstance => SyntaxValue::NoSuchInstance,
            ObjectSyntax::EndOfMib => SyntaxValue::EndOfMib,
        }
    }
}

impl SyntaxValue {
    /// Whether the value can be written: an object identifier must be
    /// encodable.
    pub open spec fn writable(self) -> bool {
        self matches SyntaxValue::ObjectIdentifier(o) ==> oid_encodable(o)
    }

    /// One of the three exception markers.
    pub open spec fn is_exception(self) -> bool {
        ||| self is NoSuchObject
        ||| self is NoSuchInstance
        ||| self is EndOfMib
    }

    /// The record that encodes the value.
    pub open spec fn encoding(self) -> Seq<u8> {
        match self {
            SyntaxValue::Integer(v) => integer_tlv(v as int),
            SyntaxValue::OctetString(b) => tlv(0x04, b),
            SyntaxValue::Null => tlv(0x05, seq![]),
            SyntaxValue::ObjectIdentifier(o) => tlv(0x06, oid_content(o)),
            SyntaxValue::IpAddress(b) => tlv(0x40, b),
            SyntaxValue::Counter32(v) => tlv(0x41, int_content(v as int)),
            SyntaxValue::Gauge32(v) => tlv(0x42, int_content(v as int)),
            SyntaxValue::TimeTicks(v) => tlv(0x43, int_content(v as int)),
            SyntaxValue::Opaque(b) => tlv(0x44, b),
            SyntaxValue::Counter64(v) => tlv(0x46, int_content(v as int)),
            SyntaxValue::NoSuchObject => tlv(0x80, seq![]),
            SyntaxValue::NoSuchInstance => tlv(0x81, seq![]),
            SyntaxValue::EndOfMib => tlv(0x82, seq![]),
        }
    }
}

/// The value that a parsed object stands for.
pub open spec fn spec_value_from_tlv(o: TlvView) -> BerResult<SyntaxValue> {
    match o.tag {
        Asn1Tag::Integer => match spec_decode_integer(o.value) {
            Ok(v) => Ok(SyntaxValue::Integer(v)),
            Err(e) => Err(e),
        },
        Asn1Tag::OctetString => Ok(SyntaxValue::OctetString(o.value)),
        Asn1Tag::Null => Ok(SyntaxValue::Null),
        Asn1Tag::ObjectIdentifier => match spec_decode_oid(o.value) {
            Ok(oid) => Ok(SyntaxValue::ObjectIdentifier(oid)),
            Err(e) => Err(e),
        },
        Asn1Tag::IpAddress => Ok(SyntaxValue::IpAddress(o.value)),
        Asn1Tag::Counter32 => match spec_decode_unsigned(o.value) {
            Ok(v) => Ok(SyntaxValue::Counter32(v)),
            Err(e) => Err(e),
        },
        Asn1Tag::Gauge32 => match spec_decode_unsigned(o.value) {
            Ok(v) => Ok(SyntaxValue::Gauge32(v)),
            Err(e) => Err(e),
        },
        Asn1Tag::TimeTicks => match spec_decode_unsigned(o.value) {
            Ok(v) => Ok(SyntaxValue::TimeTicks(v)),
            Err(e) => Err(e),
        },
        Asn1Tag::Opaque => Ok(SyntaxValue::Opaque(o.value)),
        Asn1Tag::Counter64 => match spec_decode_unsigned64(o.value) {
            Ok(v) => Ok(SyntaxValue::Counter64(v)),
            Err(e) => Err(e),
        },
        Asn1Tag::NoSuchObject => Ok(SyntaxValue::NoSuchObject),
        Asn1Tag::NoSuchInstance => Ok(SyntaxValue::NoSuchInstance),
        Asn1Tag::EndOfMib => Ok(SyntaxValue::EndOfMib),
        _ => Err(BerError::UnsupportedType(o.tag.spec_byte())),
    }
}

impl ObjectSyntax {
    /// One of the three exception markers.
    pub fn is_exception(&self) -> (r: bool)
        ensures
            r == self@.is_exception(),
    {
        match self {
            ObjectSyntax::NoSuchObject | ObjectSyntax::NoSuchInstance | ObjectSyntax::EndOfMib => true,
            _ => false,
        }
    }

    pub fn from_ber(obj: BerObject) -> (r: BerResult<Self>)
        ensures
            result_view(r) == spec_value_from_tlv(obj@),
    {
        match obj.tag {
            Asn1Tag::Integer => {
                let val = decode_integer(obj.value)?;
                Ok(ObjectSyntax::Integer(val))
            },
            Asn1Tag::OctetString => Ok(ObjectSyntax::OctetString(slice_to_vec(obj.value))),
            Asn1Tag::Null => Ok(ObjectSyntax::Null),
            Asn1Tag::ObjectIdentifier => {
                let oid = decode_oid(obj.value)?;
                Ok(ObjectSyntax::ObjectIdentifier(oid))
            },
            Asn1Tag::IpAddress => Ok(ObjectSyntax::IpAddress(slice_to_vec(obj.value))),
            Asn1Tag::Counter32 => {
                let val = decode_unsigned_integer(obj.value)?;
                Ok(ObjectSyntax::Counter32(val))
            },
            Asn1Tag::Gauge32 => {
                let val = decode_unsigned_integer(obj.value)?;
                Ok(ObjectSyntax::Gauge32(val))
            },
            Asn1Tag::TimeTicks => {
                let val = decode_unsigned_integer(obj.value)?;
                Ok(ObjectSyntax::TimeTicks(val))
            },
            Asn1Tag::Opaque => Ok(ObjectSyntax::Opaque(slice_to_vec(obj.value))),
            Asn1Tag::Counter64 => {
                let val = decode_unsigned_integer64(obj.value)?;
                Ok(ObjectSyntax::Counter64(val))
            },
            Asn1Tag::NoSuchObject => Ok(ObjectSyntax::NoSuchObject),
            Asn1Tag::NoSuchInstance => Ok(ObjectSyntax::NoSuchInstance),
            Asn1Tag::EndOfMib => Ok(ObjectSyntax::EndOfMib),
            _ => Err(BerError::UnsupportedType(obj.tag.to_u8())),
        }
    }

    pub fn write_to_buf(&self, buf: &mut Vec<u8>)
        requires
            self@.writable(),
        ensures
            final(buf)@ == old(buf)@ + self@.encoding(),
    {
        match self {
            ObjectSyntax::Integer(val) => encoder::encode_integer(buf, *val),
            ObjectSyntax::OctetString(val) => encoder::encode_octet_string(buf, val.as_slice()),
            ObjectSyntax::Null => encoder::encode_null(buf),
            ObjectSyntax::ObjectIdentifier(val) => encoder::encode_oid(buf, val.as_slice()),
            ObjectSyntax::IpAddress(val) => encoder::encode_ip_address(buf, val.as_slice()),
            ObjectSyntax::Counter32(val) => encoder::encode_counter32(buf, *val),
            ObjectSyntax::Gauge32(val) => encoder::encode_gauge32(buf, *val),
            ObjectSyntax::TimeTicks(val) => encoder::encode_timeticks(buf, *val),
            ObjectSyntax::Opaque(val) => encoder::encode_opaque(buf, val.as_slice()),
            ObjectSyntax::Counter64(val) => encoder::encode_counter64(buf, *val),
            ObjectSyntax::NoSuchObject => {
                buf.push(Asn1Tag::NoSuchObject.to_u8());
                buf.push(0x00);
                assert(final(buf)@ =~= old(buf)@ + tlv(0x80, seq![]));
            },
            ObjectSyntax::NoSuchInstance => {
                buf.push(Asn1Tag::NoSuchInstance.to_u8());
                buf.push(0x00);
                assert(final(buf)@ =~= old(buf)@ + tlv(0x81, seq![]));
            },
            ObjectSyntax::EndOfMib => {
                buf.push(Asn1Tag::EndOfMib.to_u8());
                buf.push(0x00);
                assert(final(buf)@ =~= old(buf)@ + tlv(0x82, seq![]));
            },
        }
    }
}

/// A pairing of an object identifier with a value.
#[derive(Debug, Clone, PartialEq, Eq)]
pub struct VarBind {
    pub oid: Vec<u32>,
    pub value: ObjectSyntax,
}

pub struct VarBindView {
    pub oid: Seq<u32>,
    pub value: SyntaxValue,
}

impl View for VarBind {
    type V = VarBindView;

    open spec fn view(&self) -> VarBindView {
        VarBindView { oid: self.oid@, value: self.value@ }
    }
}

impl VarBindView {
    pub open spec fn writable(self) -> bool {
        oid_encodable(self.oid) && self.value.writable()
    }

    /// `SEQUENCE { OBJECT IDENTIFIER, value }`.
    pub open spec fn encoding(self) -> Seq<u8> {
        tlv(0x30, tlv(0x06, oid_content(self.oid)) + self.value.encoding())
    }
}

/// The views of a list of bindings.
pub open spec fn varbinds_view(v: Seq<VarBind>) -> Seq<VarBindView> {
    v.map_values(|b: VarBind| b@)
}

/// Bindings written one after the other.
pub open spec fn varbinds_encoding(s: Seq<VarBindView>) -> Seq<u8>
    decreases s.len(),
{
    if s.len() == 0 {
        seq![]
    } else {
        s[0].encoding() + varbinds_encoding(s.drop_first())
    }
}

pub proof fn lemma_varbinds_encoding_push(s: Seq<VarBindView>, v: VarBindView)
    ensures
        varbinds_encoding(s.push(v)) == varbinds_encoding(s) + v.encoding(),
    decreases s.len(),
{
    if s.len() == 0 {
        assert(s.push(v).drop_first() == s);
        assert(varbinds_encoding(s.push(v)) == v.encoding() + varbinds_encoding(s));
    } else {
        lemma_varbinds_encoding_push(s.drop_first(), v);
        assert(s.push(v).drop_first() == s.drop_first().push(v));
        assert(varbinds_encoding(s.push(v)) == s[0].encoding() + varbinds_encoding(
            s.drop_first().push(v),
        ));
    }
}

impl VarBind {
    pub fn write_to_buf(&self, buf: &mut Vec<u8>)
        requires
            self@.writable(),
        ensures
            final(buf)@ == old(buf)@ + self@.encoding(),
    {
        let mut content_buf: Vec<u8> = Vec::new();
        encoder::encode_oid(&mut content_buf, self.oid.as_slice());
        self.value.write_to_buf(&mut content_buf);
        encoder::encode_sequence_with(buf, content_buf);
    }
}

/// The binding that a parsed object stands for.
pub open spec fn spec_parse_varbind(o: TlvView) -> BerResult<VarBindView> {
    if o.tag != Asn1Tag::Sequence {
        Err(BerError::UnexpectedTag { expected: Asn1Tag::Sequence, got: o.tag })
    } else {
        match spec_parse_ber_object(o.value) {
            Err(e) => Err(e),
            Ok((oid_obj, rest)) => if oid_obj.tag != Asn1Tag::ObjectIdentifier {
                Err(BerError::UnexpectedTag { expected: Asn1Tag::ObjectIdentifier, got: oid_obj.tag })
            } else {
                match spec_decode_oid(oid_obj.value) {
                    Err(e) => Err(e),
                    Ok(oid) => match spec_parse_ber_object(rest) {
                        Err(e) => Err(e),
                        Ok((value_obj, tail)) => if tail.len() > 0 {
                            Err(BerError::TrailingData)
                        } else {
                            match spec_value_from_tlv(value_obj) {
                                Err(e) => Err(e),
                                Ok(value) => Ok(VarBindView { oid, value }),
                            }
                        },
                    },
                }
            },
        }
    }
}

pub fn parse_varbind(obj: BerObject) -> (r: BerResult<VarBind>)
    ensures
        result_view(r) == spec_parse_varbind(obj@),
{
    if obj.tag != Asn1Tag::Sequence {
        return Err(BerError::UnexpectedTag { expected: Asn1Tag::Sequence, got: obj.tag });
    }
    let (oid_obj, rest_after_oid) = parse_ber_object(obj.value)?;
    if oid_obj.tag != Asn1Tag::ObjectIdentifier {
        return Err(BerError::UnexpectedTag { expected: Asn1Tag::ObjectIdentifier, got: oid_obj.tag });
    }
    let oid = decode_oid(oid_obj.value)?;
    let (value_obj, rest) = parse_ber_object(rest_after_oid)?;
    if rest.len() != 0 {
        return Err(BerError::TrailingData);
    }
    let value = ObjectSyntax::from_ber(value_obj)?;
    Ok(VarBind { oid, value })
}

/// Every object is at least two bytes long: what follows it is shorter than
/// the input.
pub proof fn lemma_parse_consumes(input: Seq<u8>)
    ensures
        spec_parse_ber_object(input) matches Ok((o, rest)) ==> rest.len() + 2 <= input.len(),
{
    reveal(spec_parse_ber_object);
}

/// The bindings that make up the content of a binding list.
pub open spec fn spec_parse_varbinds(s: Seq<u8>) -> BerResult<Seq<VarBindView>>
    decreases s.len(),
{
    if s.len() == 0 {
        Ok(seq![])
    } else {
        match spec_parse_ber_object(s) {
            Err(e) => Err(e),
            Ok((o, rest)) => match spec_parse_varbind(o) {
                Err(e) => Err(e),
                Ok(vb) => if rest.len() < s.len() {
                    match spec_parse_varbinds(rest) {
                        Err(e) => Err(e),
                        Ok(more) => Ok(seq![vb] + more),
                    }
                } else {
                    Err(BerError::IncompleteData)
                },
            },
        }
    }
}

/// The bindings of a parsed binding list.
pub open spec fn spec_parse_varbind_list(o: TlvView) -> BerResult<Seq<VarBindView>> {
    if o.tag != Asn1Tag::Sequence {
        Err(BerError::UnexpectedTag { expected: Asn1Tag::Sequence, got: o.tag })
    } else {
        spec_parse_varbinds(o.value)
    }
}

pub open spec fn prepend_varbinds(prefix: Seq<VarBindView>, r: BerResult<Seq<VarBindView>>) -> BerResult<
    Seq<VarBindView>,
> {
    match r {
        Ok(rest) => Ok(prefix + rest),
        Err(e) => Err(e),
    }
}

/// `r` holds bindings whose views are what `s` gives, or the error `s` gives.
pub open spec fn varbinds_result_matches(r: BerResult<Vec<VarBind>>, s: BerResult<Seq<VarBindView>>) -> bool {
    match s {
        Ok(vbs) => r matches Ok(v) && varbinds_view(v@) == vbs,
        Err(e) => r == Err::<Vec<VarBind>, BerError>(e),
    }
}

pub fn parse_varbind_list(obj: BerObject) -> (r: BerResult<Vec<VarBind>>)
    ensures
        varbinds_result_matches(r, spec_parse_varbind_list(obj@)),
{
    if obj.tag != Asn1Tag::Sequence {
        return Err(BerError::UnexpectedTag { expected: Asn1Tag::Sequence, got: obj.tag });
    }
    let mut varbinds: Vec<VarBind> = Vec::new();
    let mut current_slice = obj.value;
    assert(varbinds_view(varbinds@) == Seq::<VarBindView>::empty());
    assert(Seq::<VarBindView>::empty() + spec_parse_varbinds(current_slice@)->Ok_0 =~= spec_parse_varbinds(
        current_slice@,
    )->Ok_0);
    while current_slice.len() != 0
        invariant
            spec_parse_varbind_list(obj@) == prepend_varbinds(
                varbinds_view(varbinds@),
                spec_parse_varbinds(current_slice@),
            ),
        decreases current_slice@.len(),
    {
        let ghost before = current_slice@;
        proof {
            lemma_parse_consumes(before);
        }
        let (varbind_object, rest) = parse_ber_object(current_slice)?;
        let varbind = parse_varbind(varbind_object)?;
        proof {
            let vb = varbind@;
            assert(varbinds_view(varbinds@.push(varbind)) == varbinds_view(varbinds@).push(vb));
            match spec_parse_varbinds(rest@) {
                Ok(more) => {
                    assert(varbinds_view(varbinds@).push(vb) + more == varbinds_view(varbinds@) + (
                    seq![vb] + more));
                },
                Err(_) => {},
            }
        }
        varbinds.push(varbind);
        current_slice = rest;
    }
    assert(varbinds_view(varbinds@) + Seq::<VarBindView>::empty() == varbinds_view(varbinds@));
    Ok(varbinds)
}

/// The error-status field of a basic PDU.
#[derive(Debug, Clone, Copy, PartialEq, Eq, Structural)]
pub enum ErrorStatus {
    NoError,
    TooBig,
    NoSuchName,
    BadValue,
    ReadOnly,
    GenErr,
}

impl ErrorStatus {
    /// The integer that stands for the status on the wire.
    pub open spec fn spec_code(self) -> i32 {
        match self {
            ErrorStatus::NoError => 0,
            ErrorStatus::TooBig => 1,
            ErrorStatus::NoSuchName => 2,
            ErrorStatus::BadValue => 3,
            ErrorStatus::ReadOnly => 4,
            ErrorStatus::GenErr => 5,
        }
    }

    /// The status an integer stands for; any other integer is an invalid
    /// enum value.
    pub open spec fn spec_from_code(value: i32) -> BerResult<ErrorStatus> {
        if value == 0 {
            Ok(ErrorStatus::NoError)
        } else if value == 1 {
            Ok(ErrorStatus::TooBig)
        } else if value == 2 {
            Ok(ErrorStatus::NoSuchName)
        } else if value == 3 {
            Ok(ErrorStatus::BadValue)
        } else if value == 4 {
            Ok(ErrorStatus::ReadOnly)
        } else if value == 5 {
            Ok(ErrorStatus::GenErr)
        } else {
            Err(BerError::InvalidEnumValue(value))
        }
    }

    pub fn code(self) -> (r: i32)
        ensures
            r == self.spec_code(),
    {
        match self {
            ErrorStatus::NoError => 0,
            ErrorStatus::TooBig => 1,
            ErrorStatus::NoSuchName => 2,
            ErrorStatus::BadValue => 3,
            ErrorStatus::ReadOnly => 4,
            ErrorStatus::GenErr => 5,
        }
    }

    pub fn try_from(value: i32) -> (r: BerResult<ErrorStatus>)
        ensures
            r == Self::spec_from_code(value),
    {
        match value {
            0 => Ok(ErrorStatus::NoError),
            1 => Ok(ErrorStatus::TooBig),
            2 => Ok(ErrorStatus::NoSuchName),
            3 => Ok(ErrorStatus::BadValue),
            4 => Ok(ErrorStatus::ReadOnly),
            5 => Ok(ErrorStatus::GenErr),
            _ => Err(BerError::InvalidEnumValue(value)),
        }
    }
}

/// The second and third fields of a PDU: basic for every PDU type but
/// `GetBulkRequest`, bulk for that one.
#[derive(Debug, Clone, Copy, PartialEq, Eq, Structural)]
pub enum PduData {
    Basic { error_status: ErrorStatus, error_index: i32 },
    Bulk { non_repeaters: i32, max_repititions: i32 },
}

impl View for PduData {
    type V = PduData;

    open spec fn view(&self) -> PduData {
        *self
    }
}

impl PduData {
    pub open spec fn encoding(self) -> Seq<u8> {
        match self {
            PduData::Basic { error_status, error_index } => integer_tlv(
                error_status.spec_code() as int,
            ) + integer_tlv(error_index as int),
            PduData::Bulk { non_repeaters, max_repititions } => integer_tlv(non_repeaters as int)
                + integer_tlv(max_repititions as int),
        }
    }
}

#[derive(Debug, Clone, PartialEq, Eq)]
pub struct Pdu {
    pub tag: Asn1Tag,
    pub request_id: i32,
    pub data: PduData,
    pub varbinds: Vec<VarBind>,
}

pub struct PduView {
    pub tag: Asn1Tag,
    pub request_id: i32,
    pub data: PduData,
    pub varbinds: Seq<VarBindView>,
}

impl View for Pdu {
    type V = PduView;

    open spec fn view(&self) -> PduView {
        PduView {
            tag: self.tag,
            request_id: self.request_id,
            data: self.data,
            varbinds: varbinds_view(self.varbinds@),
        }
    }
}

impl PduView {
    pub open spec fn writable(self) -> bool {
        forall|i: int| 0 <= i < self.varbinds.len() ==> (#[trigger] self.varbinds[i]).writable()
    }

    /// The shape of the data agrees with the tag: bulk exactly for
    /// `GetBulkRequest`.
    pub open spec fn shape_matches_tag(self) -> bool {
        (self.tag == Asn1Tag::GetBulkRequest) == (self.data is Bulk)
    }

    pub open spec fn content_encoding(self) -> Seq<u8> {
        integer_tlv(self.request_id as int) + self.data.encoding() + tlv(
            0x30,
            varbinds_encoding(self.varbinds),
        )
    }

    pub open spec fn encoding(self) -> Seq<u8> {
        tlv(self.tag.spec_byte(), self.content_encoding())
    }
}

/// Writes the bindings one after the other into a fresh buffer.
fn write_varbinds(varbinds: &Vec<VarBind>) -> (r: Vec<u8>)
    requires
        forall|i: int| 0 <= i < varbinds@.len() ==> (#[trigger] varbinds@[i])@.writable(),
    ensures
        r@ == varbinds_encoding(varbinds_view(varbinds@)),
{
    let mut list_buf: Vec<u8> = Vec::new();
    let mut i: usize = 0;
    while i < varbinds.len()
        invariant
            i <= varbinds@.len(),
            forall|j: int| 0 <= j < varbinds@.len() ==> (#[trigger] varbinds@[j])@.writable(),
            list_buf@ == varbinds_encoding(varbinds_view(varbinds@.subrange(0, i as int))),
        decreases varbinds@.len() - i,
    {
        proof {
            let prefix = varbinds@.subrange(0, i as int);
            assert(varbinds@.subrange(0, i + 1) == prefix.push(varbinds@[i as int]));
            assert(varbinds_view(prefix.push(varbinds@[i as int])) == varbinds_view(prefix).push(
                varbinds@[i as int]@,
            ));
            lemma_varbinds_encoding_push(varbinds_view(prefix), varbinds@[i as int]@);
        }
        varbinds[i].write_to_buf(&mut list_buf);
        i += 1;
    }
    assert(varbinds@.subrange(0, i as int) == varbinds@);
    list_buf
}

/// The PDU content up to the binding list: request id and the two data
/// fields.
fn write_pdu_header(request_id: i32, data: PduData) -> (r: Vec<u8>)
    ensures
        r@ == integer_tlv(request_id as int) + data.encoding(),
{
    let mut content_buf: Vec<u8> = Vec::new();
    encoder::encode_integer(&mut content_buf, request_id);
    match data {
        PduData::Basic { error_status, error_index } => {
            encoder::encode_integer(&mut content_buf, error_status.code());
            encoder::encode_integer(&mut content_buf, error_index);
        },
        PduData::Bulk { non_repeaters, max_repititions } => {
            encoder::encode_integer(&mut content_buf, non_repeaters);
            encoder::encode_integer(&mut content_buf, max_repititions);
        },
    }
    assert(content_buf@ =~= integer_tlv(request_id as int) + data.encoding());
    content_buf
}

impl Pdu {
    pub fn write_to_buf(&self, buf: &mut Vec<u8>)
        requires
            self@.writable(),
        ensures
            final(buf)@ == old(buf)@ + self@.encoding(),
    {
        let mut content_buf = write_pdu_header(self.request_id, self.data);
        proof {
            assert forall|i: int| 0 <= i < self.varbinds@.len() implies (
            #[trigger] self.varbinds@[i])@.writable() by {
                assert(self@.varbinds[i] == self.varbinds@[i]@);
            }
        }
        let list = write_varbinds(&self.varbinds);
        encoder::encode_sequence_with(&mut content_buf, list);
        assert(content_buf@ =~= self@.content_encoding());
        encoder::encode_container_with(buf, self.tag, content_buf);
    }
}

/// An INTEGER field at the start of `input`, and the bytes after it.
pub open spec fn spec_parse_integer_field(input: Seq<u8>) -> BerResult<(i32, Seq<u8>)> {
    match spec_parse_ber_object(input) {
        Err(e) => Err(e),
        Ok((o, rest)) => if o.tag != Asn1Tag::Integer {
            Err(BerError::UnexpectedTag { expected: Asn1Tag::Integer, got: o.tag })
        } else {
            match spec_decode_integer(o.value) {
                Err(e) => Err(e),
                Ok(v) => Ok((v, rest)),
            }
        },
    }
}

pub(crate) fn parse_integer_field(input: &[u8]) -> (r: BerResult<(i32, &[u8])>)
    ensures
        result_view(r) == spec_parse_integer_field(input@),
{
    let (obj, rest) = parse_ber_object(input)?;
    if obj.tag != Asn1Tag::Integer {
        return Err(BerError::UnexpectedTag { expected: Asn1Tag::Integer, got: obj.tag });
    }
    let value = decode_integer(obj.value)?;
    Ok((value, rest))
}

/// The two data fields of a PDU with tag `tag`, and the bytes after them.
pub open spec fn spec_parse_pdu_data(tag: Asn1Tag, input: Seq<u8>) -> BerResult<(PduData, Seq<u8>)> {
    if tag == Asn1Tag::GetBulkRequest {
        match spec_parse_integer_field(input) {
            Err(e) => Err(e),
            Ok((non_repeaters, r1)) => match spec_parse_integer_field(r1) {
                Err(e) => Err(e),
                Ok((max_repititions, r2)) => Ok((PduData::Bulk { non_repeaters, max_repititions }, r2)),
            },
        }
    } else {
        match spec_parse_integer_field(input) {
            Err(e) => Err(e),
            Ok((raw_status, r1)) => match ErrorStatus::spec_from_code(raw_status) {
                Err(e) => Err(e),
                Ok(error_status) => match spec_parse_integer_field(r1) {
                    Err(e) => Err(e),
                    Ok((error_index, r2)) => Ok((PduData::Basic { error_status, error_index }, r2)),
                },
            },
        }
    }
}

fn parse_pdu_data(tag: Asn1Tag, input: &[u8]) -> (r: BerResult<(PduData, &[u8])>)
    ensures
        result_view(r) == spec_parse_pdu_data(tag, input@),
{
    if tag == Asn1Tag::GetBulkRequest {
        let (non_repeaters, r1) = parse_integer_field(input)?;
        let (max_repititions, r2) = parse_integer_field(r1)?;
        Ok((PduData::Bulk { non_repeaters, max_repititions }, r2))
    } else {
        let (raw_status, r1) = parse_integer_field(input)?;
        let error_status = ErrorStatus::try_from(raw_status)?;
        let (error_index, r2) = parse_integer_field(r1)?;
        Ok((PduData::Basic { error_status, error_index }, r2))
    }
}

/// The PDU that a parsed object stands for. The shape of its data follows
/// the object's tag.
pub open spec fn spec_parse_pdu(o: TlvView) -> BerResult<PduView> {
    match spec_parse_integer_field(o.value) {
        Err(e) => Err(e),
        Ok((request_id, r1)) => match spec_parse_pdu_data(o.tag, r1) {
            Err(e) => Err(e),
            Ok((data, r2)) => match spec_parse_ber_object(r2) {
                Err(e) => Err(e),
                Ok((list_obj, r3)) => match spec_parse_varbind_list(list_obj) {
                    Err(e) => Err(e),
                    Ok(varbinds) => if r3.len() > 0 {
                        Err(BerError::TrailingData)
                    } else {
                        Ok(PduView { tag: o.tag, request_id, data, varbinds })
                    },
                },
            },
        },
    }
}

pub fn parse_pdu(obj: BerObject) -> (r: BerResult<Pdu>)
    ensures
        result_view(r) == spec_parse_pdu(obj@),
{
    let pdu_tag = obj.tag;
    let (request_id, rest) = parse_integer_field(obj.value)?;
    let (pdu_data, rest) = parse_pdu_data(pdu_tag, rest)?;
    let (varbind_list_obj, rest) = parse_ber_object(rest)?;
    let varbinds = parse_varbind_list(varbind_list_obj)?;
    if rest.len() != 0 {
        return Err(BerError::TrailingData);
    }
    Ok(Pdu { tag: pdu_tag, request_id, data: pdu_data, varbinds })
}

} // verus!
