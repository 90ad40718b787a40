//! BER writers: each appends one TLV record to a growing byte buffer.
use crate::ber::{pow256, Asn1Tag};
use vstd::prelude::*;
use vstd::slice::slice_to_vec;

verus! {

/// The shortest two's complement big-endian bytes of `v`.
pub open spec fn int_content(v: int) -> Seq<u8>
    decreases (if v < 0 {
        -v
    } else {
        v
    }),
{
    if -128 <= v < 128 {
        seq![(v % 256) as u8]
    } else {
        int_content(v / 256).push((v % 256) as u8)
    }
}

/// The shortest big-endian bytes of `n`.
pub open spec fn be_min(n: nat) -> Seq<u8>
    decreases n,
{
    if n < 256 {
        seq![n as u8]
    } else {
        be_min(n / 256).push((n % 256) as u8)
    }
}

/// The length field for `n` value bytes: short form below 128, long form
/// with the shortest big-endian bytes otherwise.
pub open spec fn length_octets(n: nat) -> Seq<u8> {
    if n < 128 {
        seq![n as u8]
    } else {
        seq![(0x80 + be_min(n).len()) as u8] + be_min(n)
    }
}

/// A TLV record: tag byte, length field, content.
pub open spec fn tlv(tag: u8, content: Seq<u8>) -> Seq<u8> {
    seq![tag] + length_octets(content.len()) + content
}

/// The INTEGER record for `v`.
pub open spec fn integer_tlv(v: int) -> Seq<u8> {
    tlv(0x02, int_content(v))
}

/// The continuation-marked groups of a subidentifier above its last seven
/// bits, most significant first.
pub open spec fn sub_id_high_groups(v: nat) -> Seq<u8>
    decreases v,
{
    if v == 0 {
        seq![]
    } else {
        sub_id_high_groups(v / 128).push((v % 128 + 128) as u8)
    }
}

/// A subidentifier in base 128, most significant group first, every group
/// but the last with its continuation bit set.
pub open spec fn sub_id_bytes(v: nat) -> Seq<u8> {
    sub_id_high_groups(v / 128).push((v % 128) as u8)
}

/// The subidentifiers of `s`, one after the other.
pub open spec fn sub_ids_bytes(s: Seq<u32>) -> Seq<u8>
    decreases s.len(),
{
    if s.len() == 0 {
        seq![]
    } else {
        sub_id_bytes(s[0] as nat) + sub_ids_bytes(s.drop_first())
    }
}

/// Whether `oid` can be written: at least two subidentifiers, the first two
/// of which fit in one byte as `first * 40 + second`.
pub open spec fn oid_encodable(oid: Seq<u32>) -> bool {
    oid.len() >= 2 && oid[0] * 40 + oid[1] <= 255
}

/// The content of the OBJECT IDENTIFIER record for `oid`.
pub open spec fn oid_content(oid: Seq<u32>) -> Seq<u8> {
    seq![(oid[0] * 40 + oid[1]) as u8] + sub_ids_bytes(oid.subrange(2, oid.len() as int))
}

pub proof fn lemma_sub_ids_bytes_push(s: Seq<u32>, v: u32)
    ensures
        sub_ids_bytes(s.push(v)) == sub_ids_bytes(s) + sub_id_bytes(v as nat),
    decreases s.len(),
{
    if s.len() == 0 {
        assert(s.push(v).drop_first() == s);
        assert(sub_ids_bytes(s.push(v)) == sub_id_bytes(v as nat) + sub_ids_bytes(s));
    } else {
        lemma_sub_ids_bytes_push(s.drop_first(), v);
        assert(s.push(v).drop_first() == s.drop_first().push(v));
        assert(sub_ids_bytes(s.push(v)) == sub_id_bytes(s[0] as nat) + sub_ids_bytes(
            s.drop_first().push(v),
        ));
    }
}

pub proof fn lemma_be_min_len(n: nat, k: nat)
    requires
        k >= 1,
        n < pow256(k),
    ensures
        1 <= be_min(n).len() <= k,
    decreases n,
{
    if n >= 256 {
        assert(k >= 2) by {
            if k == 1 {
                assert(pow256(1) == 256) by {
                    reveal_with_fuel(pow256, 2);
                }
            }
        }
        assert(n / 256 < pow256((k - 1) as nat));
        lemma_be_min_len(n / 256, (k - 1) as nat);
    }
}

fn push_be_min(buf: &mut Vec<u8>, n: u64)
    ensures
        final(buf)@ == old(buf)@ + be_min(n as nat),
    decreases n,
{
    if n < 256 {
        buf.push(n as u8);
    } else {
        push_be_min(buf, n / 256);
        buf.push((n % 256) as u8);
    }
}

fn encode_length(buf: &mut Vec<u8>, len: usize)
    ensures
        final(buf)@ == old(buf)@ + length_octets(len as nat),
{
    if len < 128 {
        buf.push(len as u8);
    } else {
        let mut len_bytes: Vec<u8> = Vec::new();
        push_be_min(&mut len_bytes, len as u64);
        proof {
            assert(len_bytes@ == be_min(len as nat));
            crate::ber::lemma_pow256_values();
            lemma_be_min_len(len as nat, 8);
        }
        buf.push(0x80 | (len_bytes.len() as u8));
        proof {
            let k = len_bytes.len() as u8;
            assert(0x80 | k == 0x80 + k) by (bit_vector)
                requires
                    k <= 8,
            ;
        }
        buf.append(&mut len_bytes);
    }
}

/// Appends `tag`, the length of `content` and `content`.
fn append_tlv(buf: &mut Vec<u8>, tag: u8, content: Vec<u8>)
    ensures
        final(buf)@ == old(buf)@ + tlv(tag, content@),
{
    let mut content = content;
    let ghost c = content@;
    buf.push(tag);
    encode_length(buf, content.len());
    buf.append(&mut content);
    assert(final(buf)@ =~= old(buf)@ + tlv(tag, c));
}

/// Appends the shortest two's complement bytes of `n` (or, where `negative`,
/// of `-n - 1`).
fn push_int_content(buf: &mut Vec<u8>, n: u64, negative: bool)
    ensures
        final(buf)@ == old(buf)@ + int_content(
            if negative {
                -(n as int) - 1
            } else {
                n as int
            },
        ),
    decreases n,
{
    let ghost v: int = if negative {
        -(n as int) - 1
    } else {
        n as int
    };
    proof {
        lemma_complement_div_mod(n as int);
    }
    if n < 128 {
        if negative {
            buf.push(255 - n as u8);
        } else {
            buf.push(n as u8);
        }
    } else {
        push_int_content(buf, n / 256, negative);
        let low = (n % 256) as u8;
        if negative {
            buf.push(255 - low);
        } else {
            buf.push(low);
        }
    }
}

proof fn lemma_complement_div_mod(n: int)
    requires
        n >= 0,
    ensures
        (-n - 1) / 256 == -(n / 256) - 1,
        (-n - 1) % 256 == 255 - n % 256,
{
    vstd::arithmetic::div_mod::lemma_fundamental_div_mod_converse(
        -n - 1,
        256,
        -(n / 256) - 1,
        255 - n % 256,
    );
}

pub fn encode_integer(buf: &mut Vec<u8>, value: i32)
    ensures
        final(buf)@ == old(buf)@ + integer_tlv(value as int),
{
    let mut content: Vec<u8> = Vec::new();
    if value >= 0 {
        push_int_content(&mut content, value as u64, false);
    } else {
        push_int_content(&mut content, (-(value as i64) - 1) as u64, true);
    }
    append_tlv(buf, Asn1Tag::Integer.to_u8(), content);
}

pub fn encode_octet_string(buf: &mut Vec<u8>, value: &[u8])
    ensures
        final(buf)@ == old(buf)@ + tlv(0x04, value@),
{
    append_tlv(buf, Asn1Tag::OctetString.to_u8(), slice_to_vec(value));
}

pub fn encode_null(buf: &mut Vec<u8>)
    ensures
        final(buf)@ == old(buf)@ + tlv(0x05, seq![]),
{
    buf.push(Asn1Tag::Null.to_u8());
    buf.push(0x00);
    assert(final(buf)@ =~= old(buf)@ + tlv(0x05, seq![]));
}

fn push_sub_id_high_groups(buf: &mut Vec<u8>, v: u32)
    ensures
        final(buf)@ == old(buf)@ + sub_id_high_groups(v as nat),
    decreases v,
{
    if v > 0 {
        push_sub_id_high_groups(buf, v / 128);
        buf.push((v % 128) as u8 | 0x80);
        proof {
            let g = (v % 128) as u8;
            assert(g | 0x80 == g + 128) by (bit_vector)
                requires
                    g < 128,
            ;
        }
    } else {
        assert(old(buf)@ + sub_id_high_groups(0) =~= old(buf)@);
    }
}

fn encode_oid_sub_id(buf: &mut Vec<u8>, sub_id: u32)
    ensures
        final(buf)@ == old(buf)@ + sub_id_bytes(sub_id as nat),
{
    push_sub_id_high_groups(buf, sub_id / 128);
    buf.push((sub_id % 128) as u8);
}

pub fn encode_oid(buf: &mut Vec<u8>, oid: &[u32])
    requires
        oid_encodable(oid@),
    ensures
        final(buf)@ == old(buf)@ + tlv(0x06, oid_content(oid@)),
{
    let mut oid_value_buf: Vec<u8> = Vec::new();
    oid_value_buf.push((oid[0] * 40 + oid[1]) as u8);
    let mut i: usize = 2;
    assert(oid@.subrange(2, 2) == Seq::<u32>::empty());
    while i < oid.len()
        invariant
            2 <= i <= oid@.len(),
            oid_encodable(oid@),
            oid_value_buf@ == seq![(oid@[0] * 40 + oid@[1]) as u8] + sub_ids_bytes(
                oid@.subrange(2, i as int),
            ),
        decreases oid@.len() - i,
    {
        proof {
            assert(oid@.subrange(2, i + 1) == oid@.subrange(2, i as int).push(oid@[i as int]));
            lemma_sub_ids_bytes_push(oid@.subrange(2, i as int), oid@[i as int]);
        }
        encode_oid_sub_id(&mut oid_value_buf, oid[i]);
        i += 1;
    }
    append_tlv(buf, Asn1Tag::ObjectIdentifier.to_u8(), oid_value_buf);
}

pub fn encode_unsigned_integer_helper(buf: &mut Vec<u8>, tag: Asn1Tag, value: u32)
    ensures
        final(buf)@ == old(buf)@ + tlv(tag.spec_byte(), int_content(value as int)),
{
    let mut content: Vec<u8> = Vec::new();
    push_int_content(&mut content, value as u64, false);
    append_tlv(buf, tag.to_u8(), content);
}

pub fn encode_counter32(buf: &mut Vec<u8>, value: u32)
    ensures
        final(buf)@ == old(buf)@ + tlv(0x41, int_content(value as int)),
{
    encode_unsigned_integer_helper(buf, Asn1Tag::Counter32, value);
}

pub fn encode_gauge32(buf: &mut Vec<u8>, value: u32)
    ensures
        final(buf)@ == old(buf)@ + tlv(0x42, int_content(value as int)),
{
    encode_unsigned_integer_helper(buf, Asn1Tag::Gauge32, value);
}

pub fn encode_timeticks(buf: &mut Vec<u8>, value: u32)
    ensures
        final(buf)@ == old(buf)@ + tlv(0x43, int_content(value as int)),
{
    encode_unsigned_integer_helper(buf, Asn1Tag::TimeTicks, value);
}

fn encode_unsigned_integer64_helper(buf: &mut Vec<u8>, tag: Asn1Tag, value: u64)
    ensures
        final(buf)@ == old(buf)@ + tlv(tag.spec_byte(), int_content(value as int)),
{
    let mut content: Vec<u8> = Vec::new();
    push_int_content(&mut content, value, false);
    append_tlv(buf, tag.to_u8(), content);
}

pub fn encode_counter64(buf: &mut Vec<u8>, value: u64)
    ensures
        final(buf)@ == old(buf)@ + tlv(0x46, int_content(value as int)),
{
    encode_unsigned_integer64_helper(buf, Asn1Tag::Counter64, value);
}

fn encode_bytes_with_tag(buf: &mut Vec<u8>, tag: Asn1Tag, value: &[u8])
    ensures
        final(buf)@ == old(buf)@ + tlv(tag.spec_byte(), value@),
{
    append_tlv(buf, tag.to_u8(), slice_to_vec(value));
}

pub fn encode_ip_address(buf: &mut Vec<u8>, value: &[u8])
    ensures
        final(buf)@ == old(buf)@ + tlv(0x40, value@),
{
    encode_bytes_with_tag(buf, Asn1Tag::IpAddress, value);
}

pub fn encode_opaque(buf: &mut Vec<u8>, value: &[u8])
    ensures
        final(buf)@ == old(buf)@ + tlv(0x44, value@),
{
    encode_bytes_with_tag(buf, Asn1Tag::Opaque, value);
}

/// Appends a constructed record: `content`, built beforehand in a buffer of
/// its own, is written after `tag` and its length.
pub fn encode_container_with(buf: &mut Vec<u8>, tag: Asn1Tag, content: Vec<u8>)
    ensures
        final(buf)@ == old(buf)@ + tlv(tag.spec_byte(), content@),
{
    append_tlv(buf, tag.to_u8(), content);
}

/// Appends a SEQUENCE with the given content.
pub fn encode_sequence_with(buf: &mut Vec<u8>, content: Vec<u8>)
    ensures
        final(buf)@ == old(buf)@ + tlv(0x30, content@),
{
    encode_container_with(buf, Asn1Tag::Sequence, content);
}

} // verus!
