//! BER tags, the TLV reader and the object identifier decoder.
use vstd::prelude::*;
use vstd::slice::slice_subrange;

pub mod decoder;
pub mod encoder;
pub mod proofs;

verus! {

pub type BerResult<T> = Result<T, BerError>;

/// Errors of the BER codec. None of them can be retried.
#[derive(Debug, Clone, Copy, PartialEq, Eq, Structural)]
pub enum BerError {
    IncompleteData,
    MalformedLength,
    MalformedTag,
    UnexpectedEof,
    UnsupportedType(u8),
    IntegerOverflow,
    UnexpectedTag { expected: Asn1Tag, got: Asn1Tag },
    TrailingData,
    InvalidEnumValue(i32),
}

/// The BER tag bytes this manager recognises: the universal tags, the SNMP
/// application tags, the PDU wrappers and the three exception markers.
#[derive(Debug, Clone, Copy, PartialEq, Eq, Structural)]
pub enum Asn1Tag {
    Integer,
    OctetString,
    Null,
    ObjectIdentifier,
    Sequence,
    IpAddress,
    Counter32,
    Gauge32,
    TimeTicks,
    Opaque,
    Counter64,
    GetRequest,
    GetNextRequest,
    GetResponse,
    SetRequest,
    Trap,
    GetBulkRequest,
    InformRequest,
    SnmpV2Trap,
    NoSuchObject,
    NoSuchInstance,
    EndOfMib,
}

impl Asn1Tag {
    /// The byte that stands for this tag on the wire.
    pub open spec fn spec_byte(self) -> u8 {
        match self {
            Asn1Tag::Integer => 0x02,
            Asn1Tag::OctetString => 0x04,
            Asn1Tag::Null => 0x05,
            Asn1Tag::ObjectIdentifier => 0x06,
            Asn1Tag::Sequence => 0x30,
            Asn1Tag::IpAddress => 0x40,
            Asn1Tag::Counter32 => 0x41,
            Asn1Tag::Gauge32 => 0x42,
            Asn1Tag::TimeTicks => 0x43,
            Asn1Tag::Opaque => 0x44,
            Asn1Tag::Counter64 => 0x46,
            Asn1Tag::GetRequest => 0xA0,
            Asn1Tag::GetNextRequest => 0xA1,
            Asn1Tag::GetResponse => 0xA2,
            Asn1Tag::SetRequest => 0xA3,
            Asn1Tag::Trap => 0xA4,
            Asn1Tag::GetBulkRequest => 0xA5,
            Asn1Tag::InformRequest => 0xA6,
            Asn1Tag::SnmpV2Trap => 0xA7,
            Asn1Tag::NoSuchObject => 0x80,
            Asn1Tag::NoSuchInstance => 0x81,
            Asn1Tag::EndOfMib => 0x82,
        }
    }

    /// The tag a byte stands for, if it is one of the recognised ones.
    pub open spec fn spec_from_u8(b: u8) -> Option<Asn1Tag> {
        if b == 0x02 {
            Some(Asn1Tag::Integer)
        } else if b == 0x04 {
            Some(Asn1Tag::OctetString)
        } else if b == 0x05 {
            Some(Asn1Tag::Null)
        } else if b == 0x06 {
            Some(Asn1Tag::ObjectIdentifier)
        } else if b == 0x30 {
            Some(Asn1Tag::Sequence)
        } else if b == 0x40 {
            Some(Asn1Tag::IpAddress)
        } else if b == 0x41 {
            Some(Asn1Tag::Counter32)
        } else if b == 0x42 {
            Some(Asn1Tag::Gauge32)
        } else if b == 0x43 {
            Some(Asn1Tag::TimeTicks)
        } else if b == 0x44 {
            Some(Asn1Tag::Opaque)
        } else if b == 0x46 {
            Some(Asn1Tag::Counter64)
        } else if b == 0xA0 {
            Some(Asn1Tag::GetRequest)
        } else if b == 0xA1 {
            Some(Asn1Tag::GetNextRequest)
        } else if b == 0xA2 {
            Some(Asn1Tag::GetResponse)
        } else if b == 0xA3 {
            Some(Asn1Tag::SetRequest)
        } else if b == 0xA4 {
            Some(Asn1Tag::Trap)
        } else if b == 0xA5 {
            Some(Asn1Tag::GetBulkRequest)
        } else if b == 0xA6 {
            Some(Asn1Tag::InformRequest)
        } else if b == 0xA7 {
            Some(Asn1Tag::SnmpV2Trap)
        } else if b == 0x80 {
            Some(Asn1Tag::NoSuchObject)
        } else if b == 0x81 {
            Some(Asn1Tag::NoSuchInstance)
        } else if b == 0x82 {
            Some(Asn1Tag::EndOfMib)
        } else {
            None
        }
    }

    /// A short human-readable description of the tag's class and number.
    pub open spec fn spec_describe(self) -> Seq<char> {
        match self {
            Asn1Tag::Integer => "Universal, Primitive, Tag 2 (INTEGER)"@,
            Asn1Tag::OctetString => "Universal, Primitive, Tag 4 (OCTET STRING)"@,
            Asn1Tag::Null => "Universal, Primitive, Tag 5 (NULL)"@,
            Asn1Tag::ObjectIdentifier => "Universal, Primitive, Tag 6 (OID)"@,
            Asn1Tag::Sequence => "Universal, Constructed, Tag 16 (SEQUENCE)"@,
            Asn1Tag::IpAddress => "Application, Primitive, Tag 0 (IpAddress)"@,
            Asn1Tag::Counter32 => "Application, Primitive, Tag 1 (Counter32)"@,
            Asn1Tag::Gauge32 => "Application, Primitive, Tag 2 (Gauge32)"@,
            Asn1Tag::TimeTicks => "Application, Primitive, Tag 3 (TimeTicks)"@,
            Asn1Tag::GetRequest => "Context, Constructed, Tag 0 (GetRequest)"@,
            Asn1Tag::GetNextRequest => "Context, Constructed, Tag 1 (GetNext)"@,
            Asn1Tag::GetResponse => "Context, Constructed, Tag 2 (Response)"@,
            Asn1Tag::GetBulkRequest => "Context, Constructed, Tag 5 (GetBulk)"@,
            _ => "Other"@,
        }
    }

    pub fn to_u8(self) -> (r: u8)
        ensures
            r == self.spec_byte(),
    {
        match self {
            Asn1Tag::Integer => 0x02,
            Asn1Tag::OctetString => 0x04,
            Asn1Tag::Null => 0x05,
            Asn1Tag::ObjectIdentifier => 0x06,
            Asn1Tag::Sequence => 0x30,
            Asn1Tag::IpAddress => 0x40,
            Asn1Tag::Counter32 => 0x41,
            Asn1Tag::Gauge32 => 0x42,
            Asn1Tag::TimeTicks => 0x43,
            Asn1Tag::Opaque => 0x44,
            Asn1Tag::Counter64 => 0x46,
            Asn1Tag::GetRequest => 0xA0,
            Asn1Tag::GetNextRequest => 0xA1,
            Asn1Tag::GetResponse => 0xA2,
            Asn1Tag::SetRequest => 0xA3,
            Asn1Tag::Trap => 0xA4,
            Asn1Tag::GetBulkRequest => 0xA5,
            Asn1Tag::InformRequest => 0xA6,
            Asn1Tag::SnmpV2Trap => 0xA7,
            Asn1Tag::NoSuchObject => 0x80,
            Asn1Tag::NoSuchInstance => 0x81,
            Asn1Tag::EndOfMib => 0x82,
        }
    }

    pub fn describe(&self) -> (r: &'static str)
        ensures
            r@ == self.spec_describe(),
    {
        match self {
            Asn1Tag::Integer => "Universal, Primitive, Tag 2 (INTEGER)",
            Asn1Tag::OctetString => "Universal, Primitive, Tag 4 (OCTET STRING)",
            Asn1Tag::Null => "Universal, Primitive, Tag 5 (NULL)",
            Asn1Tag::ObjectIdentifier => "Universal, Primitive, Tag 6 (OID)",
            Asn1Tag::Sequence => "Universal, Constructed, Tag 16 (SEQUENCE)",
            Asn1Tag::IpAddress => "Application, Primitive, Tag 0 (IpAddress)",
            Asn1Tag::Counter32 => "Application, Primitive, Tag 1 (Counter32)",
            Asn1Tag::Gauge32 => "Application, Primitive, Tag 2 (Gauge32)",
            Asn1Tag::TimeTicks => "Application, Primitive, Tag 3 (TimeTicks)",
            Asn1Tag::GetRequest => "Context, Constructed, Tag 0 (GetRequest)",
            Asn1Tag::GetNextRequest => "Context, Constructed, Tag 1 (GetNext)",
            Asn1Tag::GetResponse => "Context, Constructed, Tag 2 (Response)",
            Asn1Tag::GetBulkRequest => "Context, Constructed, Tag 5 (GetBulk)",
            _ => "Other",
        }
    }

    pub fn from_u8(tag_byte: u8) -> (r: BerResult<Asn1Tag>)
        ensures
            r == match Self::spec_from_u8(tag_byte) {
                Some(t) => Ok(t),
                None => Err(BerError::UnsupportedType(tag_byte)),
            },
    {
        match tag_byte {
            0x02 => Ok(Asn1Tag::Integer),
            0x04 => Ok(Asn1Tag::OctetString),
            0x05 => Ok(Asn1Tag::Null),
            0x06 => Ok(Asn1Tag::ObjectIdentifier),
            0x30 => Ok(Asn1Tag::Sequence),
            0x40 => Ok(Asn1Tag::IpAddress),
            0x41 => Ok(Asn1Tag::Counter32),
            0x42 => Ok(Asn1Tag::Gauge32),
            0x43 => Ok(Asn1Tag::TimeTicks),
            0x44 => Ok(Asn1Tag::Opaque),
            0x46 => Ok(Asn1Tag::Counter64),
            0xA0 => Ok(Asn1Tag::GetRequest),
            0xA1 => Ok(Asn1Tag::GetNextRequest),
            0xA2 => Ok(Asn1Tag::GetResponse),
            0xA3 => Ok(Asn1Tag::SetRequest),
            0xA4 => Ok(Asn1Tag::Trap),
            0xA5 => Ok(Asn1Tag::GetBulkRequest),
            0xA6 => Ok(Asn1Tag::InformRequest),
            0xA7 => Ok(Asn1Tag::SnmpV2Trap),
            0x80 => Ok(Asn1Tag::NoSuchObject),
            0x81 => Ok(Asn1Tag::NoSuchInstance),
            0x82 => Ok(Asn1Tag::EndOfMib),
            other => Err(BerError::UnsupportedType(other)),
        }
    }
}

/// Reading a tag's byte back gives the tag.
pub proof fn lemma_tag_byte_round_trip(t: Asn1Tag)
    ensures
        Asn1Tag::spec_from_u8(t.spec_byte()) == Some(t),
{
}

/// The value of a result with its payload seen through its view.
pub open spec fn result_view<T: View>(r: BerResult<T>) -> BerResult<T::V> {
    match r {
        Ok(v) => Ok(v@),
        Err(e) => Err(e),
    }
}

/// `256` to the power `k`.
pub open spec fn pow256(k: nat) -> nat
    decreases k,
{
    if k == 0 {
        1
    } else {
        256 * pow256((k - 1) as nat)
    }
}

/// The unsigned big-endian value of a byte sequence.
pub open spec fn be_value(s: Seq<u8>) -> nat
    decreases s.len(),
{
    if s.len() == 0 {
        0
    } else {
        be_value(s.drop_last()) * 256 + s.last() as nat
    }
}

pub proof fn lemma_be_value_bound(s: Seq<u8>)
    ensures
        be_value(s) < pow256(s.len()),
    decreases s.len(),
{
    if s.len() > 0 {
        lemma_be_value_bound(s.drop_last());
    }
}

pub proof fn lemma_pow256_values()
    ensures
        pow256(1) == 0x100,
        pow256(2) == 0x1_0000,
        pow256(3) == 0x100_0000,
        pow256(4) == 0x1_0000_0000,
        pow256(5) == 0x100_0000_0000,
        pow256(7) == 0x100_0000_0000_0000,
        pow256(8) == 0x1_0000_0000_0000_0000,
        pow256(9) == 0x100_0000_0000_0000_0000,
{
    reveal_with_fuel(pow256, 10);
}

/// The length field at the start of `input`: the length it gives and the
/// number of bytes it takes.
pub open spec fn spec_parse_length(input: Seq<u8>) -> BerResult<(nat, nat)> {
    if input.len() == 0 {
        Err(BerError::IncompleteData)
    } else if input[0] < 0x80 {
        Ok((input[0] as nat, 1))
    } else if input[0] == 0x80 || input[0] == 0xFF {
        Err(BerError::MalformedLength)
    } else {
        let n = (input[0] - 0x80) as nat;
        if n > 8 || input.len() < 1 + n {
            Err(BerError::MalformedLength)
        } else {
            Ok((be_value(input.subrange(1, 1 + n as int)), 1 + n))
        }
    }
}

/// The tag at the start of `input`.
pub open spec fn spec_parse_tag(input: Seq<u8>) -> BerResult<Asn1Tag> {
    if input.len() == 0 {
        Err(BerError::IncompleteData)
    } else {
        match Asn1Tag::spec_from_u8(input[0]) {
            Some(t) => Ok(t),
            None => Err(BerError::UnsupportedType(input[0])),
        }
    }
}

/// What a parsed BER object stands for: its tag, the number of header bytes
/// (tag and length) and the value bytes.
pub struct TlvView {
    pub tag: Asn1Tag,
    pub header_len: nat,
    pub value: Seq<u8>,
}

/// The TLV object at the start of `input`, and the bytes after it.
#[verifier::opaque]
pub open spec fn spec_parse_ber_object(input: Seq<u8>) -> BerResult<(TlvView, Seq<u8>)> {
    match spec_parse_tag(input) {
        Err(e) => Err(e),
        Ok(tag) => match spec_parse_length(input.drop_first()) {
            Err(e) => Err(e),
            Ok((len, used)) => {
                let start = 1 + used;
                if input.len() < start + len {
                    Err(BerError::IncompleteData)
                } else {
                    Ok(
                        (
                            TlvView {
                                tag,
                                header_len: start,
                                value: input.subrange(start as int, (start + len) as int),
                            },
                            input.subrange((start + len) as int, input.len() as int),
                        ),
                    )
                }
            },
        },
    }
}

/// A TLV object read from a buffer; `value` borrows the value bytes.
#[derive(Debug, PartialEq, Eq)]
pub struct BerObject<'a> {
    pub tag: Asn1Tag,
    pub header_len: usize,
    pub value_len: usize,
    pub value: &'a [u8],
}

impl<'a> BerObject<'a> {
    pub open spec fn wf(&self) -> bool {
        self.value_len == self.value@.len()
    }
}

impl<'a> View for BerObject<'a> {
    type V = TlvView;

    open spec fn view(&self) -> TlvView {
        TlvView { tag: self.tag, header_len: self.header_len as nat, value: self.value@ }
    }
}

pub fn parse_ber_object(input: &[u8]) -> (r: BerResult<(BerObject<'_>, &[u8])>)
    ensures
        result_view(r) == spec_parse_ber_object(input@),
        r matches Ok((o, _)) ==> o.wf(),
{
    proof {
        reveal(spec_parse_ber_object);
    }
    let (tag, after_tag) = parse_tag(input)?;
    let (value_len, after_length) = parse_length(after_tag)?;
    let total_header_len = input.len() - after_length.len();
    if (after_length.len() as u64) < value_len {
        return Err(BerError::IncompleteData);
    }
    let value_len = value_len as usize;
    let value = slice_subrange(after_length, 0, value_len);
    let rest = slice_subrange(after_length, value_len, after_length.len());
    let object = BerObject { tag, header_len: total_header_len, value_len, value };
    proof {
        reveal(spec_parse_ber_object);
        assert(input@.drop_first() == input@.subrange(1, input@.len() as int));
        assert(value@ == input@.subrange(
            total_header_len as int,
            total_header_len + value_len,
        ));
        assert(rest@ == input@.subrange(total_header_len + value_len, input@.len() as int));
    }
    Ok((object, rest))
}

fn parse_tag(input: &[u8]) -> (r: BerResult<(Asn1Tag, &[u8])>)
    ensures
        match spec_parse_tag(input@) {
            Ok(t) => r matches Ok((t2, rest)) && t2 == t && rest@ == input@.drop_first(),
            Err(e) => r == Err::<(Asn1Tag, &[u8]), BerError>(e),
        },
{
    if input.len() == 0 {
        return Err(BerError::IncompleteData);
    }
    let tag = Asn1Tag::from_u8(input[0])?;
    Ok((tag, slice_subrange(input, 1, input.len())))
}

fn parse_length(input: &[u8]) -> (r: BerResult<(u64, &[u8])>)
    ensures
        match spec_parse_length(input@) {
            Ok((len, used)) => r matches Ok((v, rest)) && v == len && rest@ == input@.subrange(
                used as int,
                input@.len() as int,
            ),
            Err(e) => r == Err::<(u64, &[u8]), BerError>(e),
        },
{
    if input.len() == 0 {
        return Err(BerError::IncompleteData);
    }
    let len_byte = input[0];
    if len_byte < 0x80 {
        return Ok((len_byte as u64, slice_subrange(input, 1, input.len())));
    }
    if len_byte == 0x80 || len_byte == 0xFF {
        return Err(BerError::MalformedLength);
    }
    let num_len_bytes = (len_byte - 0x80) as usize;
    if num_len_bytes > 8 || input.len() < 1 + num_len_bytes {
        return Err(BerError::MalformedLength);
    }
    let mut value_len: u64 = 0;
    let mut i: usize = 0;
    while i < num_len_bytes
        invariant
            i <= num_len_bytes <= 8,
            1 + num_len_bytes <= input@.len(),
            value_len == be_value(input@.subrange(1, 1 + i)),
        decreases num_len_bytes - i,
    {
        proof {
            let prefix = input@.subrange(1, 1 + i);
            let next = input@.subrange(1, 1 + i + 1);
            assert(next.drop_last() == prefix);
            lemma_be_value_bound(prefix);
            lemma_pow256_values();
            lemma_pow256_monotonic(i as nat, 7);
        }
        value_len = value_len * 256 + input[1 + i] as u64;
        i += 1;
    }
    Ok((value_len, slice_subrange(input, 1 + num_len_bytes, input.len())))
}

pub proof fn lemma_pow256_monotonic(a: nat, b: nat)
    requires
        a <= b,
    ensures
        pow256(a) <= pow256(b),
    decreases b,
{
    if a < b {
        lemma_pow256_monotonic(a, (b - 1) as nat);
    }
}

/// The number of leading bytes of `s` that have the continuation bit set.
pub open spec fn continuation_run(s: Seq<u8>) -> nat
    decreases s.len(),
{
    if s.len() > 0 && s[0] >= 0x80 {
        1 + continuation_run(s.drop_first())
    } else {
        0
    }
}

/// The value of base-128 groups, most significant first, continuation bits
/// ignored.
pub open spec fn base128_value(s: Seq<u8>) -> nat
    decreases s.len(),
{
    if s.len() == 0 {
        0
    } else {
        base128_value(s.drop_last()) * 128 + (s.last() % 128) as nat
    }
}

/// The subidentifier at the start of `s`: the value of its groups, kept to
/// its low 32 bits.
pub open spec fn spec_decode_sub_id(s: Seq<u8>) -> BerResult<u32> {
    let k = continuation_run(s);
    if k >= 5 && s.len() > 5 {
        Err(BerError::IntegerOverflow)
    } else if k >= s.len() {
        Err(BerError::IncompleteData)
    } else {
        Ok((base128_value(s.subrange(0, (k + 1) as int)) % 0x1_0000_0000) as u32)
    }
}

/// The subidentifiers that make up `s`, in order.
pub open spec fn spec_decode_sub_ids(s: Seq<u8>) -> BerResult<Seq<u32>>
    decreases s.len(),
{
    if s.len() == 0 {
        Ok(seq![])
    } else {
        match spec_decode_sub_id(s) {
            Err(e) => Err(e),
            Ok(v) => match spec_decode_sub_ids(s.subrange(continuation_run(s) + 1int, s.len() as int)) {
                Err(e) => Err(e),
                Ok(rest) => Ok(seq![v] + rest),
            },
        }
    }
}

/// The object identifier whose BER content is `s`. The first byte gives the
/// first two subidentifiers as its quotient and remainder by 40.
pub open spec fn spec_decode_oid(s: Seq<u8>) -> BerResult<Seq<u32>> {
    if s.len() == 0 {
        Err(BerError::IncompleteData)
    } else {
        match spec_decode_sub_ids(s.drop_first()) {
            Err(e) => Err(e),
            Ok(rest) => Ok(seq![(s[0] / 40) as u32, (s[0] % 40) as u32] + rest),
        }
    }
}

pub open spec fn prepend_ids(prefix: Seq<u32>, r: BerResult<Seq<u32>>) -> BerResult<Seq<u32>> {
    match r {
        Ok(rest) => Ok(prefix + rest),
        Err(e) => Err(e),
    }
}

pub fn decode_oid(input: &[u8]) -> (r: BerResult<Vec<u32>>)
    ensures
        result_view(r) == spec_decode_oid(input@),
{
    if input.len() == 0 {
        return Err(BerError::IncompleteData);
    }
    let mut oid: Vec<u32> = Vec::with_capacity(10);
    let b1 = input[0];
    oid.push((b1 / 40) as u32);
    oid.push((b1 % 40) as u32);
    let mut current = slice_subrange(input, 1, input.len());
    assert(current@ == input@.drop_first());
    assert(oid@ == seq![(input@[0] / 40) as u32, (input@[0] % 40) as u32]);
    while current.len() > 0
        invariant
            spec_decode_oid(input@) == prepend_ids(oid@, spec_decode_sub_ids(current@)),
        decreases current@.len(),
    {
        let ghost before = current@;
        let (sub_id, rest) = decode_oid_sub_id(current)?;
        proof {
            assert(oid@.push(sub_id) + spec_decode_sub_ids(rest@)->Ok_0 == oid@ + (seq![sub_id]
                + spec_decode_sub_ids(rest@)->Ok_0));
        }
        oid.push(sub_id);
        current = rest;
        assert(current@.len() < before.len());
    }
    assert(oid@ + seq![] == oid@);
    Ok(oid)
}

fn decode_oid_sub_id(input: &[u8]) -> (r: BerResult<(u32, &[u8])>)
    requires
        input@.len() > 0,
    ensures
        match spec_decode_sub_id(input@) {
            Ok(v) => r matches Ok((v2, rest)) && v2 == v && rest@ == input@.subrange(
                continuation_run(input@) + 1int,
                input@.len() as int,
            ),
            Err(e) => r == Err::<(u32, &[u8]), BerError>(e),
        },
{
    let mut sub_id: u64 = 0;
    let mut i: usize = 0;
    while i < input.len()
        invariant
            i <= input@.len(),
            i <= 5,
            i <= continuation_run(input@),
            sub_id == base128_value(input@.subrange(0, i as int)),
            sub_id < pow128(i as nat),
        decreases input@.len() - i,
    {
        if i >= 5 {
            proof {
                lemma_continuation_run_bound(input@);
            }
            return Err(BerError::IntegerOverflow);
        }
        let b = input[i];
        proof {
            assert(input@.subrange(0, i + 1).drop_last() == input@.subrange(0, i as int));
            lemma_pow128_small(i as nat);
            lemma_continuation_run_at(input@, i as nat);
        }
        sub_id = sub_id * 128 + (b % 128) as u64;
        i += 1;
        if b < 0x80 {
            proof {
                lemma_pow128_small(i as nat);
            }
            return Ok(((sub_id % 0x1_0000_0000) as u32, slice_subrange(input, i, input.len())));
        }
    }
    proof {
        lemma_continuation_run_bound(input@);
    }
    Err(BerError::IncompleteData)
}

/// `128` to the power `k`.
pub open spec fn pow128(k: nat) -> nat
    decreases k,
{
    if k == 0 {
        1
    } else {
        128 * pow128((k - 1) as nat)
    }
}

proof fn lemma_pow128_small(k: nat)
    requires
        k <= 5,
    ensures
        pow128(k) <= 0x8_0000_0000,
{
    reveal_with_fuel(pow128, 6);
}

proof fn lemma_continuation_run_bound(s: Seq<u8>)
    ensures
        continuation_run(s) <= s.len(),
    decreases s.len(),
{
    if s.len() > 0 && s[0] >= 0x80 {
        lemma_continuation_run_bound(s.drop_first());
    }
}

/// Where byte `i` is within the leading run, the run goes on past `i` exactly
/// when that byte has its continuation bit set.
proof fn lemma_continuation_run_at(s: Seq<u8>, i: nat)
    requires
        i <= continuation_run(s),
        i < s.len(),
    ensures
        s[i as int] >= 0x80 <==> continuation_run(s) > i,
    decreases i,
{
    if i > 0 {
        lemma_continuation_run_at(s.drop_first(), (i - 1) as nat);
    }
}

} // verus!
