//! What the BER readers give back on what the writers produce.
use crate::ber::decoder::{
    lemma_signed_value_bound, signed_value, spec_decode_integer, spec_decode_unsigned,
    spec_decode_unsigned64,
};
use crate::ber::encoder::{
    be_min, int_content, length_octets, oid_content, sub_id_bytes, sub_id_high_groups,
    sub_ids_bytes, tlv,
};
use crate::ber::{
    base128_value, be_value, continuation_run, lemma_pow256_values, lemma_tag_byte_round_trip,
    pow128, pow256, spec_decode_oid, spec_decode_sub_id, spec_decode_sub_ids, spec_parse_ber_object,
    spec_parse_length, Asn1Tag, TlvView,
};
use vstd::prelude::*;

verus! {

/// The shortest two's complement bytes of `v` read back as `v`.
pub proof fn lemma_int_content_value(v: int)
    ensures
        int_content(v).len() >= 1,
        signed_value(int_content(v)) == v,
    decreases (if v < 0 {
        -v
    } else {
        v
    }),
{
    if !(-128 <= v < 128) {
        lemma_int_content_value(v / 256);
        let c = int_content(v);
        assert(c.drop_last() == int_content(v / 256));
    }
}

/// A value of the signed `8k`-bit range takes at most `k` bytes.
pub proof fn lemma_int_content_len(v: int, k: nat)
    requires
        k >= 1,
        -128 * pow256((k - 1) as nat) <= v < 128 * pow256((k - 1) as nat),
    ensures
        int_content(v).len() <= k,
    decreases k,
{
    if !(-128 <= v < 128) {
        if k == 1 {
            assert(pow256(0) == 1);
        } else {
            let p = pow256((k - 2) as nat);
            assert(pow256((k - 1) as nat) == 256 * p);
            assert(-128 * p <= v / 256 < 128 * p) by (nonlinear_arith)
                requires
                    -128 * (256 * p) <= v < 128 * (256 * p),
                    p >= 1,
            ;
            lemma_int_content_len(v / 256, (k - 1) as nat);
        }
    }
}

/// The first byte carries the sign.
pub proof fn lemma_int_content_first(v: int)
    ensures
        v >= 0 ==> int_content(v)[0] < 0x80,
        v < 0 ==> int_content(v)[0] >= 0x80,
    decreases (if v < 0 {
        -v
    } else {
        v
    }),
{
    lemma_int_content_value(v);
    if !(-128 <= v < 128) {
        lemma_int_content_first(v / 256);
        lemma_int_content_value(v / 256);
        assert(int_content(v)[0] == int_content(v / 256)[0]);
    }
}

/// No leading byte of the shortest encoding is redundant: a leading `0x00`
/// stands only before a byte with its high bit set, a leading `0xFF` only
/// before one with it clear.
pub proof fn lemma_int_content_canonical(v: int)
    ensures
        int_content(v).len() > 1 ==> !(int_content(v)[0] == 0x00 && int_content(v)[1] < 0x80),
        int_content(v).len() > 1 ==> !(int_content(v)[0] == 0xFF && int_content(v)[1] >= 0x80),
    decreases (if v < 0 {
        -v
    } else {
        v
    }),
{
    if !(-128 <= v < 128) {
        let q = v / 256;
        lemma_int_content_value(q);
        if !(-128 <= q < 128) {
            lemma_int_content_canonical(q);
            assert(int_content(v)[0] == int_content(q)[0]);
            assert(int_content(v)[1] == int_content(q)[1]);
        }
    }
}

/// The shortest encoding of `v` is no longer than any byte string whose two's
/// complement value is `v`.
pub proof fn lemma_int_content_minimal(v: int, s: Seq<u8>)
    requires
        s.len() >= 1,
        signed_value(s) == v,
    ensures
        int_content(v).len() <= s.len(),
{
    lemma_signed_value_bound(s);
    lemma_int_content_len(v, s.len());
}

/// The integer writers produce the shortest two's complement encoding: it
/// reads back as the value; its first byte carries the sign, so a
/// non-negative value (an unsigned quantity too) starts with a clear high bit
/// and takes one leading `0x00` exactly when its top byte has the high bit
/// set; no leading byte is redundant; and no byte string with the same value
/// is shorter.
pub proof fn lemma_integer_encoding_canonical(v: int)
    ensures
        int_content(v).len() >= 1,
        signed_value(int_content(v)) == v,
        v >= 0 ==> int_content(v)[0] < 0x80,
        v < 0 ==> int_content(v)[0] >= 0x80,
        int_content(v).len() > 1 ==> !(int_content(v)[0] == 0x00 && int_content(v)[1] < 0x80),
        int_content(v).len() > 1 ==> !(int_content(v)[0] == 0xFF && int_content(v)[1] >= 0x80),
        forall|s: Seq<u8>|
            s.len() >= 1 && #[trigger] signed_value(s) == v ==> int_content(v).len() <= s.len(),
{
    lemma_int_content_value(v);
    lemma_int_content_first(v);
    lemma_int_content_canonical(v);
    assert forall|s: Seq<u8>| s.len() >= 1 && #[trigger] signed_value(s) == v implies int_content(
        v,
    ).len() <= s.len() by {
        lemma_int_content_minimal(v, s);
    }
}

/// A non-negative value's shortest encoding read as unsigned gives it back.
pub proof fn lemma_int_content_unsigned(n: int)
    requires
        n >= 0,
    ensures
        be_value(int_content(n)) == n,
    decreases n,
{
    let c = int_content(n);
    if n >= 128 {
        lemma_int_content_unsigned(n / 256);
        assert(c.drop_last() == int_content(n / 256));
        assert(c.last() == (n % 256) as u8);
    } else {
        assert(c.drop_last().len() == 0);
        assert(be_value(c.drop_last()) == 0);
        assert(c.last() == n as u8);
    }
}

/// The first byte weighs its place.
pub proof fn lemma_be_value_first(s: Seq<u8>)
    requires
        s.len() >= 1,
    ensures
        be_value(s) >= s[0] * pow256((s.len() - 1) as nat),
    decreases s.len(),
{
    if s.len() > 1 {
        lemma_be_value_first(s.drop_last());
        assert(s.drop_last()[0] == s[0]);
        let p = pow256((s.len() - 2) as nat);
        assert(pow256((s.len() - 1) as nat) == 256 * p);
        let a = be_value(s.drop_last());
        let b = s[0] as int;
        assert(a * 256 >= b * (256 * p)) by (nonlinear_arith)
            requires
                a >= b * p,
        ;
        assert(be_value(s) == a * 256 + s.last() as nat);
        assert(s[0] * pow256((s.len() - 1) as nat) == b * (256 * p));
    } else {
        assert(s.drop_last().len() == 0);
        assert(be_value(s.drop_last()) == 0);
        assert(pow256(0) == 1);
        assert(s.last() == s[0]);
        assert(be_value(s) == s[0] as nat);
        assert(s[0] * pow256(0) == s[0] as int);
    }
}

/// Encoding an `i32` and decoding the content gives it back.
pub proof fn lemma_integer_round_trip(v: i32)
    ensures
        spec_decode_integer(int_content(v as int)) == Ok::<i32, crate::ber::BerError>(v),
        int_content(v as int).len() <= 4,
{
    lemma_pow256_values();
    assert(pow256(3) == 0x100_0000) by {
        reveal_with_fuel(pow256, 4);
    }
    lemma_int_content_len(v as int, 4);
    lemma_int_content_value(v as int);
}

/// Encoding a `u32` and decoding the content as unsigned gives it back.
pub proof fn lemma_unsigned_round_trip(n: u32)
    ensures
        spec_decode_unsigned(int_content(n as int)) == Ok::<u32, crate::ber::BerError>(n),
{
    lemma_pow256_values();
    lemma_int_content_len(n as int, 5);
    lemma_int_content_value(n as int);
    lemma_int_content_unsigned(n as int);
    let c = int_content(n as int);
    if c.len() == 5 {
        lemma_be_value_first(c);
        assert(c[0] * pow256(4) < 0x1_0000_0000);
        assert(c[0] == 0);
    }
    assert(be_value(c) as u32 == n);
}

/// Encoding a `u64` and decoding the content as unsigned gives it back.
pub proof fn lemma_unsigned64_round_trip(n: u64)
    ensures
        spec_decode_unsigned64(int_content(n as int)) == Ok::<u64, crate::ber::BerError>(n),
{
    lemma_pow256_values();
    lemma_int_content_len(n as int, 9);
    lemma_int_content_value(n as int);
    lemma_int_content_unsigned(n as int);
    let c = int_content(n as int);
    if c.len() == 9 {
        lemma_be_value_first(c);
        assert(c[0] * pow256(8) < 0x1_0000_0000_0000_0000);
        assert(c[0] == 0);
    }
    assert(be_value(c) as u64 == n);
}

/// The shortest big-endian bytes of `n` read back as `n`.
pub proof fn lemma_be_min_value(n: nat)
    ensures
        be_value(be_min(n)) == n,
    decreases n,
{
    let c = be_min(n);
    if n >= 256 {
        lemma_be_min_value(n / 256);
        assert(c.drop_last() == be_min(n / 256));
    } else {
        assert(c.drop_last().len() == 0);
        assert(be_value(c.drop_last()) == 0);
    }
}

/// The length field written for `n` is read back as `n`, taking exactly its
/// own bytes.
pub proof fn lemma_length_round_trip(n: nat, rest: Seq<u8>)
    requires
        n < 0x1_0000_0000_0000_0000,
    ensures
        spec_parse_length(length_octets(n) + rest) == Ok::<(nat, nat), crate::ber::BerError>(
            (n, length_octets(n).len()),
        ),
{
    let s = length_octets(n) + rest;
    if n < 128 {
        assert(s[0] == n as u8);
    } else {
        lemma_pow256_values();
        crate::ber::encoder::lemma_be_min_len(n, 8);
        lemma_be_min_value(n);
        let k = be_min(n).len();
        assert(s[0] == (0x80 + k) as u8);
        assert(s.subrange(1, 1 + k as int) == be_min(n));
    }
}

/// A record written with `tag` and `content` is read back as that tag and
/// content, and what follows it is left over.
pub proof fn lemma_tlv_round_trip(tag: Asn1Tag, content: Seq<u8>, rest: Seq<u8>)
    requires
        content.len() < 0x1_0000_0000_0000_0000,
    ensures
        spec_parse_ber_object(tlv(tag.spec_byte(), content) + rest) == Ok::<
            (TlvView, Seq<u8>),
            crate::ber::BerError,
        >(
            (
                TlvView {
                    tag,
                    header_len: 1 + length_octets(content.len()).len(),
                    value: content,
                },
                rest,
            ),
        ),
{
    reveal(spec_parse_ber_object);
    let input = tlv(tag.spec_byte(), content) + rest;
    lemma_tag_byte_round_trip(tag);
    let lo = length_octets(content.len());
    assert(input[0] == tag.spec_byte());
    assert(input.drop_first() == lo + (content + rest));
    lemma_length_round_trip(content.len(), content + rest);
    let start = 1 + lo.len();
    assert(input.subrange(start as int, (start + content.len()) as int) == content);
    assert(input.subrange((start + content.len()) as int, input.len() as int) == rest);
}

/// The groups above a subidentifier's last seven bits all carry the
/// continuation bit and hold its value divided by 128.
proof fn lemma_high_groups(v: nat, k: nat)
    requires
        v < pow128(k),
    ensures
        forall|i: int|
            0 <= i < sub_id_high_groups(v).len() ==> #[trigger] sub_id_high_groups(v)[i] >= 0x80,
        base128_value(sub_id_high_groups(v)) == v,
        sub_id_high_groups(v).len() <= k,
    decreases v,
{
    let h = sub_id_high_groups(v);
    if v > 0 {
        if k == 0 {
            assert(pow128(0) == 1);
        } else {
            assert(v / 128 < pow128((k - 1) as nat));
            lemma_high_groups(v / 128, (k - 1) as nat);
            assert(h.drop_last() == sub_id_high_groups(v / 128));
            assert forall|i: int| 0 <= i < h.len() implies #[trigger] h[i] >= 0x80 by {
                if i < h.len() - 1 {
                    assert(h[i] == sub_id_high_groups(v / 128)[i]);
                }
            }
        }
    }
}

/// Where a run of continuation bytes ends with a byte without the bit, the
/// run is exactly that long.
proof fn lemma_continuation_run_of(pre: Seq<u8>, b: u8, rest: Seq<u8>)
    requires
        forall|i: int| 0 <= i < pre.len() ==> #[trigger] pre[i] >= 0x80,
        b < 0x80,
    ensures
        continuation_run(pre.push(b) + rest) == pre.len(),
    decreases pre.len(),
{
    let s = pre.push(b) + rest;
    if pre.len() > 0 {
        assert(s.drop_first() == pre.drop_first().push(b) + rest);
        assert forall|i: int| 0 <= i < pre.drop_first().len() implies #[trigger] pre.drop_first()[i]
            >= 0x80 by {
            assert(pre.drop_first()[i] == pre[i + 1]);
        }
        lemma_continuation_run_of(pre.drop_first(), b, rest);
        assert(s[0] == pre[0]);
    } else {
        assert(s[0] == b);
    }
}

/// A subidentifier written in base 128 is read back, and what follows it is
/// left over.
proof fn lemma_sub_id_round_trip(v: u32, rest: Seq<u8>)
    ensures
        spec_decode_sub_id(sub_id_bytes(v as nat) + rest) == Ok::<u32, crate::ber::BerError>(v),
        continuation_run(sub_id_bytes(v as nat) + rest) + 1 == sub_id_bytes(v as nat).len(),
{
    let high = sub_id_high_groups(v as nat / 128);
    assert(pow128(4) == 0x1000_0000) by {
        reveal_with_fuel(pow128, 5);
    }
    lemma_high_groups(v as nat / 128, 4);
    lemma_continuation_run_of(high, (v % 128) as u8, rest);
    let s = sub_id_bytes(v as nat) + rest;
    let k = high.len();
    assert(s.subrange(0, (k + 1) as int) == high.push((v % 128) as u8));
    assert(high.push((v % 128) as u8).drop_last() == high);
}

/// Subidentifiers written one after the other are read back in order,
/// followed by whatever the bytes after them give.
pub proof fn lemma_sub_ids_round_trip(s: Seq<u32>, t: Seq<u8>)
    ensures
        spec_decode_sub_ids(sub_ids_bytes(s) + t) == crate::ber::prepend_ids(s, spec_decode_sub_ids(t)),
    decreases s.len(),
{
    if s.len() == 0 {
        assert(sub_ids_bytes(s) + t == t);
        match spec_decode_sub_ids(t) {
            Ok(r) => {
                assert(s + r == r);
            },
            Err(_) => {},
        }
    } else {
        let first = sub_id_bytes(s[0] as nat);
        let more = sub_ids_bytes(s.drop_first()) + t;
        let all = sub_ids_bytes(s) + t;
        assert(all == first + more);
        lemma_sub_id_round_trip(s[0], more);
        assert(all.subrange(first.len() as int, all.len() as int) == more);
        lemma_sub_ids_round_trip(s.drop_first(), t);
        match spec_decode_sub_ids(t) {
            Ok(r) => {
                assert(seq![s[0]] + (s.drop_first() + r) == s + r);
            },
            Err(_) => {},
        }
    }
}

/// An object identifier whose first subidentifier is at most 2 and whose
/// second is at most 39: the first content byte then splits back into the
/// two.
pub open spec fn oid_round_trips(o: Seq<u32>) -> bool {
    o.len() >= 2 && o[0] <= 2 && o[1] <= 39
}

/// Encoding such an object identifier and decoding the content gives it back.
pub proof fn lemma_oid_round_trip(o: Seq<u32>)
    requires
        oid_round_trips(o),
    ensures
        spec_decode_oid(oid_content(o)) == Ok::<Seq<u32>, crate::ber::BerError>(o),
{
    let c = oid_content(o);
    let tail = o.subrange(2, o.len() as int);
    assert(c.drop_first() == sub_ids_bytes(tail) + Seq::<u8>::empty());
    lemma_sub_ids_round_trip(tail, Seq::<u8>::empty());
    assert(seq![(c[0] / 40) as u32, (c[0] % 40) as u32] + (tail + Seq::<u32>::empty()) == o);
}

/// Content that stops inside a subidentifier (up to five continuation bytes
/// at its end) is incomplete.
pub proof fn lemma_oid_truncated(o: Seq<u32>, partial: Seq<u8>)
    requires
        oid_round_trips(o),
        0 < partial.len() <= 5,
        forall|i: int| 0 <= i < partial.len() ==> #[trigger] partial[i] >= 0x80,
    ensures
        spec_decode_oid(oid_content(o) + partial) == Err::<Seq<u32>, crate::ber::BerError>(
            crate::ber::BerError::IncompleteData,
        ),
{
    let c = oid_content(o) + partial;
    let tail = o.subrange(2, o.len() as int);
    assert(c.drop_first() == sub_ids_bytes(tail) + partial);
    lemma_sub_ids_round_trip(tail, partial);
    lemma_run_of_continuations(partial);
}

proof fn lemma_run_of_continuations(s: Seq<u8>)
    requires
        forall|i: int| 0 <= i < s.len() ==> #[trigger] s[i] >= 0x80,
    ensures
        continuation_run(s) == s.len(),
    decreases s.len(),
{
    if s.len() > 0 {
        assert forall|i: int| 0 <= i < s.drop_first().len() implies #[trigger] s.drop_first()[i]
            >= 0x80 by {
            assert(s.drop_first()[i] == s[i + 1]);
        }
        lemma_run_of_continuations(s.drop_first());
    }
}

} // verus!
