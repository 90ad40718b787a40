//! The manager operations. Each exchange with an agent is split in two: the
//! library builds the request bytes and judges the reply bytes, and the
//! caller moves the bytes over the network. `Walk` and `BulkWalk` hold the
//! state of a traversal between two exchanges.
use crate::ber::encoder::oid_encodable;
use crate::ber::{Asn1Tag, BerError};
use crate::snmp::message::{parse_message, spec_parse_message, MessageView, SnmpMessage};
use crate::snmp::pdu::{
    varbinds_view, ErrorStatus, ObjectSyntax, Pdu, PduData, PduView, SyntaxValue, VarBind,
    VarBindView,
};
use vstd::prelude::*;
use vstd::string::StrSliceExecFns;

verus! {

/// Errors of the manager operations.
#[derive(Debug, Clone, PartialEq, Eq)]
pub enum ManagerError {
    /// The reply could not be parsed.
    Codec(BerError),
    /// The reply carried an error status other than `NoError`.
    Snmp { status: ErrorStatus, index: i32 },
    /// The reply's PDU is not the response expected for the request.
    UnexpectedPduTag(Asn1Tag),
    /// The reply carried no binding where one was expected.
    NoVarBinds,
    /// A bulk request was asked for with no object identifier.
    EmptyOidList,
    /// A segment of a dotted object identifier is not a number.
    InvalidOidString { component: String },
    /// A dotted object identifier has fewer than two subidentifiers, or its
    /// first two do not fit in one byte.
    InvalidOid,
}

pub open spec fn is_digit(c: char) -> bool {
    '0' <= c <= '9'
}

/// The decimal value of a sequence of digits.
pub open spec fn decimal_value(d: Seq<char>) -> nat
    decreases d.len(),
{
    if d.len() == 0 {
        0
    } else {
        decimal_value(d.drop_last()) * 10 + (d.last() as nat - '0' as nat) as nat
    }
}

pub open spec fn all_digits(d: Seq<char>) -> bool {
    forall|i: int| 0 <= i < d.len() ==> is_digit(#[trigger] d[i])
}

/// The characters of a segment after an optional leading `+`.
pub open spec fn unsigned_digits(seg: Seq<char>) -> Seq<char> {
    if seg.len() > 0 && seg[0] == '+' {
        seg.drop_first()
    } else {
        seg
    }
}

/// A decimal `u32` as the standard library reads one: an optional `+`, then
/// one or more digits, with a value that fits.
pub open spec fn spec_parse_u32(seg: Seq<char>) -> Option<u32> {
    let digits = unsigned_digits(seg);
    if digits.len() > 0 && all_digits(digits) && decimal_value(digits) <= u32::MAX {
        Some(decimal_value(digits) as u32)
    } else {
        None
    }
}

/// The number of characters before the first `.`.
pub open spec fn segment_len(s: Seq<char>) -> nat
    decreases s.len(),
{
    if s.len() == 0 || s[0] == '.' {
        0
    } else {
        1 + segment_len(s.drop_first())
    }
}

/// The subidentifiers of a dotted object identifier, empty segments
/// skipped; or the first segment that is not a number.
pub open spec fn spec_parse_oid_string(s: Seq<char>) -> Result<Seq<u32>, Seq<char>>
    decreases s.len(),
{
    if s.len() == 0 {
        Ok(seq![])
    } else {
        let n = segment_len(s);
        if n >= s.len() {
            match spec_parse_u32(s) {
                None => Err(s),
                Some(v) => Ok(seq![v]),
            }
        } else {
            let rest = s.subrange(n + 1int, s.len() as int);
            if n == 0 {
                spec_parse_oid_string(rest)
            } else {
                match spec_parse_u32(s.subrange(0, n as int)) {
                    None => Err(s.subrange(0, n as int)),
                    Some(v) => match spec_parse_oid_string(rest) {
                        Ok(more) => Ok(seq![v] + more),
                        Err(e) => Err(e),
                    },
                }
            }
        }
    }
}

pub open spec fn prepend_oid(prefix: Seq<u32>, r: Result<Seq<u32>, Seq<char>>) -> Result<
    Seq<u32>,
    Seq<char>,
> {
    match r {
        Ok(rest) => Ok(prefix + rest),
        Err(e) => Err(e),
    }
}

proof fn lemma_decimal_value_prefix(d: Seq<char>, j: int)
    requires
        0 <= j <= d.len(),
    ensures
        decimal_value(d.subrange(0, j)) <= decimal_value(d),
    decreases d.len(),
{
    if j < d.len() {
        lemma_decimal_value_prefix(d.drop_last(), j);
        assert(d.drop_last().subrange(0, j) == d.subrange(0, j));
    } else {
        assert(d.subrange(0, j) == d);
    }
}

/// Reads the characters `start..end` of `s` as a decimal `u32`.
fn parse_u32_segment(s: &str, start: usize, end: usize) -> (r: Option<u32>)
    requires
        start < end <= s@.len(),
    ensures
        r == spec_parse_u32(s@.subrange(start as int, end as int)),
{
    let ghost seg = s@.subrange(start as int, end as int);
    let mut i = start;
    if s.get_char(i) == '+' {
        i += 1;
    }
    let ghost digits = s@.subrange(i as int, end as int);
    assert(digits == unsigned_digits(seg));
    if i == end {
        return None;
    }
    let mut value: u64 = 0;
    let first = i;
    while i < end
        invariant
            first <= i <= end <= s@.len(),
            start < end,
            seg == s@.subrange(start as int, end as int),
            unsigned_digits(seg) == digits,
            digits == s@.subrange(first as int, end as int),
            forall|j: int| first <= j < i ==> is_digit(#[trigger] s@[j]),
            value == decimal_value(s@.subrange(first as int, i as int)),
            value <= u32::MAX,
        decreases end - i,
    {
        let c = s.get_char(i);
        if !('0' <= c && c <= '9') {
            assert(!is_digit(digits[i - first]));
            return None;
        }
        proof {
            assert(s@.subrange(first as int, i + 1).drop_last() == s@.subrange(first as int, i as int));
        }
        value = value * 10 + (c as u64 - '0' as u64);
        i += 1;
        if value > 0xFFFF_FFFF {
            proof {
                if all_digits(digits) {
                    lemma_decimal_value_prefix(digits, i - first);
                    assert(digits.subrange(0, i - first) == s@.subrange(first as int, i as int));
                }
            }
            return None;
        }
    }
    proof {
        assert(s@.subrange(first as int, i as int) == digits);
        assert forall|j: int| 0 <= j < digits.len() implies is_digit(#[trigger] digits[j]) by {
            assert(digits[j] == s@[first + j]);
        }
    }
    Some(value as u32)
}

/// The characters up to `end` are not dots, and the one at `end` is, or `end`
/// is the end.
proof fn lemma_segment_len(s: Seq<char>, end: int)
    requires
        0 <= end <= s.len(),
        forall|j: int| 0 <= j < end ==> s[j] != '.',
        end == s.len() || s[end] == '.',
    ensures
        segment_len(s) == end,
    decreases end,
{
    if end > 0 {
        lemma_segment_len(s.drop_first(), end - 1);
    }
}

/// Reads a dotted object identifier such as `1.3.6.1.2.1`; empty segments
/// are skipped, so a leading dot is accepted.
pub fn parse_oid_string(oid_str: &str) -> (r: Result<Vec<u32>, ManagerError>)
    ensures
        match spec_parse_oid_string(oid_str@) {
            Ok(oid) => r matches Ok(v) && v@ == oid,
            Err(seg) => r matches Err(ManagerError::InvalidOidString { component }) && component@
                == seg,
        },
{
    let n = oid_str.unicode_len();
    let mut oid: Vec<u32> = Vec::new();
    let mut pos: usize = 0;
    assert(oid_str@.subrange(0, n as int) == oid_str@);
    while pos < n
        invariant
            pos <= n == oid_str@.len(),
            spec_parse_oid_string(oid_str@) == prepend_oid(
                oid@,
                spec_parse_oid_string(oid_str@.subrange(pos as int, n as int)),
            ),
        decreases n - pos,
    {
        let ghost s = oid_str@.subrange(pos as int, n as int);
        let start = pos;
        let mut end = pos;
        while end < n && oid_str.get_char(end) != '.'
            invariant
                start <= end <= n == oid_str@.len(),
                forall|j: int| start <= j < end ==> oid_str@[j] != '.',
            decreases n - end,
        {
            end += 1;
        }
        proof {
            lemma_segment_len(s, end - start);
        }
        if end > start {
            assert(s.subrange(0, end - start) == oid_str@.subrange(start as int, end as int));
            match parse_u32_segment(oid_str, start, end) {
                None => {
                    let component = oid_str.substring_char(start, end).to_owned();
                    return Err(ManagerError::InvalidOidString { component });
                },
                Some(v) => {
                    proof {
                        if end < n {
                            assert(s.subrange(end - start + 1, s.len() as int) == oid_str@.subrange(
                                end + 1,
                                n as int,
                            ));
                        } else {
                            assert(oid_str@.subrange(end as int, n as int) == Seq::<char>::empty());
                            assert(s == s.subrange(0, end - start));
                        }
                        match spec_parse_oid_string(
                            oid_str@.subrange(if end < n { end + 1 } else { end as int }, n as int),
                        ) {
                            Ok(more) => {
                                assert(oid@.push(v) + more == oid@ + (seq![v] + more));
                            },
                            Err(_) => {},
                        }
                        if end == n {
                            assert(oid@.push(v) + Seq::<u32>::empty() == oid@ + seq![v]);
                        }
                    }
                    oid.push(v);
                },
            }
        } else {
            proof {
                if end < n {
                    assert(s.subrange(1, s.len() as int) == oid_str@.subrange(end + 1, n as int));
                }
            }
        }
        pos = if end < n {
            end + 1
        } else {
            end
        };
    }
    assert(oid@ + Seq::<u32>::empty() == oid@);
    Ok(oid)
}

/// `child` lies in the subtree rooted at `root`: `root` is a prefix of it.
pub open spec fn spec_in_subtree(root: Seq<u32>, child: Seq<u32>) -> bool {
    child.len() >= root.len() && child.subrange(0, root.len() as int) == root
}

pub fn is_in_subtree(root: &[u32], child: &[u32]) -> (r: bool)
    ensures
        r == spec_in_subtree(root@, child@),
{
    if child.len() < root.len() {
        return false;
    }
    let mut i: usize = 0;
    while i < root.len()
        invariant
            i <= root@.len() <= child@.len(),
            forall|j: int| 0 <= j < i ==> root@[j] == child@[j],
        decreases root@.len() - i,
    {
        if root[i] != child[i] {
            assert(child@.subrange(0, root@.len() as int)[i as int] != root@[i as int]);
            return false;
        }
        i += 1;
    }
    assert(child@.subrange(0, root@.len() as int) =~= root@);
    true
}

/// An object identifier lies in its own subtree, and so does each of its
/// one-longer extensions; one that is longer than another is not in that
/// other's subtree.
pub proof fn lemma_subtree_laws(r: Seq<u32>, x: u32)
    ensures
        spec_in_subtree(r, r),
        spec_in_subtree(r, r.push(x)),
        !spec_in_subtree(r.push(x), r),
{
    assert(r.subrange(0, r.len() as int) == r);
    assert(r.push(x).subrange(0, r.len() as int) == r);
}


/// The binding a request carries for an object: the identifier with `Null`.
pub open spec fn null_binding(oid: Seq<u32>) -> VarBindView {
    VarBindView { oid, value: SyntaxValue::Null }
}

/// Basic data with no error, as requests carry it.
pub open spec fn no_error() -> PduData {
    PduData::Basic { error_status: ErrorStatus::NoError, error_index: 0 }
}

/// The request message: version 1 (SNMPv2c), request id 1, one `Null`
/// binding per object identifier.
pub open spec fn request_view(
    community: Seq<u8>,
    tag: Asn1Tag,
    data: PduData,
    oids: Seq<Seq<u32>>,
) -> MessageView {
    MessageView {
        version: 1,
        community,
        pdu: PduView { tag, request_id: 1, data, varbinds: oids.map_values(|o: Seq<u32>| null_binding(o)) },
    }
}

/// Why a dotted object identifier cannot be used in a request.
pub enum OidFault {
    Component(Seq<char>),
    Unencodable,
}

/// The object identifier a dotted string names, where it can be written.
pub open spec fn spec_oid_from_str(s: Seq<char>) -> Result<Seq<u32>, OidFault> {
    match spec_parse_oid_string(s) {
        Err(seg) => Err(OidFault::Component(seg)),
        Ok(oid) => if oid_encodable(oid) {
            Ok(oid)
        } else {
            Err(OidFault::Unencodable)
        },
    }
}

/// The subidentifiers of each dotted string, in order; or the first segment,
/// in the first string that has one, that is not a number.
pub open spec fn spec_parse_oid_strings(strs: Seq<Seq<char>>) -> Result<Seq<Seq<u32>>, Seq<char>>
    decreases strs.len(),
{
    if strs.len() == 0 {
        Ok(seq![])
    } else {
        match spec_parse_oid_string(strs[0]) {
            Err(seg) => Err(seg),
            Ok(oid) => match spec_parse_oid_strings(strs.drop_first()) {
                Err(seg) => Err(seg),
                Ok(more) => Ok(seq![oid] + more),
            },
        }
    }
}

/// The object identifiers that dotted strings name. Every string is read
/// first: a segment that is not a number, in any of them, comes before an
/// identifier that cannot be written.
pub open spec fn spec_oids_from_strs(strs: Seq<Seq<char>>) -> Result<Seq<Seq<u32>>, OidFault> {
    match spec_parse_oid_strings(strs) {
        Err(seg) => Err(OidFault::Component(seg)),
        Ok(oids) => if forall|i: int| 0 <= i < oids.len() ==> oid_encodable(#[trigger] oids[i]) {
            Ok(oids)
        } else {
            Err(OidFault::Unencodable)
        },
    }
}

/// `e` is the error that stands for fault `f`.
pub open spec fn fault_matches(e: ManagerError, f: OidFault) -> bool {
    match f {
        OidFault::Component(c) => e matches ManagerError::InvalidOidString { component }
            && component@ == c,
        OidFault::Unencodable => e is InvalidOid,
    }
}

/// What a reply to a `GetRequest` yields: its first binding.
pub open spec fn spec_get_outcome(response: Seq<u8>) -> Result<VarBindView, ManagerError> {
    match spec_parse_message(response) {
        Err(e) => Err(ManagerError::Codec(e)),
        Ok(m) => match m.pdu.data {
            PduData::Basic { error_status, error_index } if error_status
                != ErrorStatus::NoError => Err(
                ManagerError::Snmp { status: error_status, index: error_index },
            ),
            _ => if m.pdu.varbinds.len() == 0 {
                Err(ManagerError::NoVarBinds)
            } else {
                Ok(m.pdu.varbinds[0])
            },
        },
    }
}

/// What a reply to a `GetBulkRequest` yields: all of its bindings.
pub open spec fn spec_bulk_outcome(response: Seq<u8>) -> Result<Seq<VarBindView>, ManagerError> {
    match spec_parse_message(response) {
        Err(e) => Err(ManagerError::Codec(e)),
        Ok(m) => if m.pdu.tag != Asn1Tag::GetResponse {
            Err(ManagerError::UnexpectedPduTag(m.pdu.tag))
        } else {
            match m.pdu.data {
                PduData::Bulk { .. } => Err(ManagerError::UnexpectedPduTag(m.pdu.tag)),
                PduData::Basic { error_status, error_index } => if error_status
                    != ErrorStatus::NoError {
                    Err(ManagerError::Snmp { status: error_status, index: error_index })
                } else {
                    Ok(m.pdu.varbinds)
                },
            }
        },
    }
}

/// What one reply does to a walk.
pub enum WalkEvent {
    /// The binding is kept and the walk goes on from its identifier.
    Next(VarBindView),
    /// The walk is over.
    Stop,
    /// The walk fails.
    Fail(ManagerError),
}

/// The effect of a reply to a `GetNextRequest` on a walk of the subtree at
/// `root`: `NoSuchName`, an exception value, or an identifier outside the
/// subtree ends the walk.
pub open spec fn walk_event(root: Seq<u32>, response: Seq<u8>) -> WalkEvent {
    match spec_parse_message(response) {
        Err(e) => WalkEvent::Fail(ManagerError::Codec(e)),
        Ok(m) => match m.pdu.data {
            PduData::Basic { error_status, error_index } if error_status
                != ErrorStatus::NoError => if error_status == ErrorStatus::NoSuchName {
                WalkEvent::Stop
            } else {
                WalkEvent::Fail(ManagerError::Snmp { status: error_status, index: error_index })
            },
            _ => if m.pdu.varbinds.len() == 0 {
                WalkEvent::Fail(ManagerError::NoVarBinds)
            } else if m.pdu.varbinds[0].value.is_exception() {
                WalkEvent::Stop
            } else if !spec_in_subtree(root, m.pdu.varbinds[0].oid) {
                WalkEvent::Stop
            } else {
                WalkEvent::Next(m.pdu.varbinds[0])
            },
        },
    }
}

/// The number of leading bindings of a bulk batch that a walk of the subtree
/// at `root` keeps: up to the first exception value or identifier outside the
/// subtree.
pub open spec fn bulk_accepted(root: Seq<u32>, batch: Seq<VarBindView>) -> nat
    decreases batch.len(),
{
    if batch.len() == 0 {
        0
    } else if batch[0].value.is_exception() || !spec_in_subtree(root, batch[0].oid) {
        0
    } else {
        1 + bulk_accepted(root, batch.drop_first())
    }
}

/// `r` holds a value whose view is what `s` gives, or the error `s` gives.
pub open spec fn outcome_matches<T: View>(r: Result<T, ManagerError>, s: Result<T::V, ManagerError>) -> bool {
    match s {
        Ok(v) => r matches Ok(x) && x@ == v,
        Err(e) => r matches Err(e2) && e2 == e,
    }
}


/// Reads a dotted object identifier and checks that it can be written.
fn oid_from_str(s: &str) -> (r: Result<Vec<u32>, ManagerError>)
    ensures
        match spec_oid_from_str(s@) {
            Ok(oid) => r matches Ok(v) && v@ == oid,
            Err(f) => r matches Err(e) && fault_matches(e, f),
        },
{
    let oid = parse_oid_string(s)?;
    if oid.len() < 2 || oid[0] as u64 * 40 + oid[1] as u64 > 255 {
        return Err(ManagerError::InvalidOid);
    }
    Ok(oid)
}

/// Encodes a version-1 request with request id 1.
fn build_request(community: &[u8], tag: Asn1Tag, data: PduData, varbinds: Vec<VarBind>) -> (r: Vec<
    u8,
>)
    requires
        forall|i: int|
            0 <= i < varbinds@.len() ==> oid_encodable(#[trigger] varbinds@[i].oid@)
                && varbinds@[i]@ == null_binding(varbinds@[i].oid@),
    ensures
        r@ == (MessageView {
            version: 1,
            community: community@,
            pdu: PduView { tag, request_id: 1, data, varbinds: varbinds_view(varbinds@) },
        }).encoding(),
{
    let message = SnmpMessage {
        version: 1,
        community: vstd::slice::slice_to_vec(community),
        pdu: Pdu { tag, request_id: 1, data, varbinds },
    };
    proof {
        assert forall|i: int| 0 <= i < message@.pdu.varbinds.len() implies (
        #[trigger] message@.pdu.varbinds[i]).writable() by {
            assert(message@.pdu.varbinds[i] == varbinds@[i]@);
            assert(oid_encodable(varbinds@[i].oid@));
        }
    }
    message.to_bytes()
}

/// A request binding for `oid`.
fn null_varbind(oid: Vec<u32>) -> (r: VarBind)
    ensures
        r.oid@ == oid@,
        r@ == null_binding(oid@),
{
    VarBind { oid, value: ObjectSyntax::Null }
}

/// Copies an object identifier.
fn copy_oid(oid: &Vec<u32>) -> (r: Vec<u32>)
    ensures
        r@ == oid@,
{
    vstd::slice::slice_to_vec(oid.as_slice())
}

/// The manager. It holds no state: every exchange is built and judged from
/// its arguments alone.
pub struct Manager {}

impl Default for Manager {
    fn default() -> (r: Self)
        ensures
            r == (Manager {}),
    {
        Manager::new()
    }
}

impl Manager {
    pub fn new() -> (r: Self)
        ensures
            r == (Manager {}),
    {
        Manager {}
    }

    /// The bytes of a `GetRequest` for the object `oid_str` names.
    pub fn get_request(&self, community: &[u8], oid_str: &str) -> (r: Result<Vec<u8>, ManagerError>)
        ensures
            match spec_oid_from_str(oid_str@) {
                Ok(oid) => r matches Ok(b) && b@ == request_view(
                    community@,
                    Asn1Tag::GetRequest,
                    no_error(),
                    seq![oid],
                ).encoding(),
                Err(f) => r matches Err(e) && fault_matches(e, f),
            },
    {
        let oid = oid_from_str(oid_str)?;
        let ghost o = oid@;
        let varbinds = vec![null_varbind(oid)];
        assert(varbinds_view(varbinds@) =~= seq![o].map_values(|o: Seq<u32>| null_binding(o)));
        Ok(
            build_request(
                community,
                Asn1Tag::GetRequest,
                PduData::Basic { error_status: ErrorStatus::NoError, error_index: 0 },
                varbinds,
            ),
        )
    }

    /// Judges the reply to a `GetRequest`: its first binding, unless the
    /// reply carries an error status or no binding.
    pub fn get_response(&self, response: &[u8]) -> (r: Result<VarBind, ManagerError>)
        ensures
            outcome_matches(r, spec_get_outcome(response@)),
    {
        let response_message = match parse_message(response) {
            Ok(m) => m,
            Err(e) => {
                return Err(ManagerError::Codec(e));
            },
        };
        if let PduData::Basic { error_status, error_index } = response_message.pdu.data {
            if error_status != ErrorStatus::NoError {
                return Err(ManagerError::Snmp { status: error_status, index: error_index });
            }
        }
        let mut varbinds = response_message.pdu.varbinds;
        if varbinds.len() == 0 {
            return Err(ManagerError::NoVarBinds);
        }
        Ok(varbinds.remove(0))
    }

    /// The bytes of a `GetBulkRequest` for the objects `oid_strs` name.
    pub fn get_bulk_request(
        &self,
        community: &[u8],
        non_repeaters: i32,
        max_repititions: i32,
        oid_strs: &[&str],
    ) -> (r: Result<Vec<u8>, ManagerError>)
        ensures
            match spec_oids_from_strs(oid_strs@.map_values(|s: &str| s@)) {
                Ok(oids) => if oids.len() == 0 {
                    r matches Err(e) && e is EmptyOidList
                } else {
                    r matches Ok(b) && b@ == request_view(
                        community@,
                        Asn1Tag::GetBulkRequest,
                        PduData::Bulk { non_repeaters, max_repititions },
                        oids,
                    ).encoding()
                },
                Err(f) => r matches Err(e) && fault_matches(e, f),
            },
    {
        let ghost strs = oid_strs@.map_values(|s: &str| s@);
        let mut request_varbinds: Vec<VarBind> = Vec::new();
        let mut all_encodable = true;
        let mut i: usize = 0;
        assert(strs.subrange(0, strs.len() as int) == strs);
        while i < oid_strs.len()
            invariant
                i <= oid_strs@.len() == strs.len(),
                strs == oid_strs@.map_values(|s: &str| s@),
                forall|j: int|
                    0 <= j < request_varbinds@.len() ==> #[trigger] request_varbinds@[j]@
                        == null_binding(request_varbinds@[j].oid@),
                all_encodable == (forall|j: int|
                    0 <= j < request_varbinds@.len() ==> oid_encodable(
                        #[trigger] request_varbinds@[j].oid@,
                    )),
                spec_parse_oid_strings(strs) == match spec_parse_oid_strings(
                    strs.subrange(i as int, strs.len() as int),
                ) {
                    Ok(more) => Ok(
                        varbinds_view(request_varbinds@).map_values(|b: VarBindView| b.oid) + more,
                    ),
                    Err(seg) => Err(seg),
                },
                varbinds_view(request_varbinds@) == varbinds_view(request_varbinds@).map_values(
                    |b: VarBindView| b.oid,
                ).map_values(|o: Seq<u32>| null_binding(o)),
            decreases oid_strs@.len() - i,
        {
            let ghost rest = strs.subrange(i as int, strs.len() as int);
            assert(rest.drop_first() == strs.subrange(i + 1, strs.len() as int));
            assert(rest[0] == oid_strs@[i as int]@);
            let oid = match parse_oid_string(oid_strs[i]) {
                Ok(o) => o,
                Err(e) => {
                    return Err(e);
                },
            };
            let encodable = oid.len() >= 2 && oid[0] as u64 * 40 + oid[1] as u64 <= 255;
            let ghost before = varbinds_view(request_varbinds@);
            let ghost before_vbs = request_varbinds@;
            let vb = null_varbind(oid);
            request_varbinds.push(vb);
            all_encodable = all_encodable && encodable;
            proof {
                let after = varbinds_view(request_varbinds@);
                assert(after == before.push(vb@));
                assert(after.map_values(|b: VarBindView| b.oid) == before.map_values(
                    |b: VarBindView| b.oid,
                ).push(vb.oid@));
                match spec_parse_oid_strings(strs.subrange(i + 1, strs.len() as int)) {
                    Ok(more) => {
                        assert(before.map_values(|b: VarBindView| b.oid).push(vb.oid@) + more
                            == before.map_values(|b: VarBindView| b.oid) + (seq![vb.oid@] + more));
                    },
                    Err(_) => {},
                }
                assert(after.map_values(|b: VarBindView| b.oid).map_values(
                    |o: Seq<u32>| null_binding(o),
                ) =~= after);
                assert forall|j: int| 0 <= j < request_varbinds@.len() implies #[trigger] request_varbinds@[j]@
                    == null_binding(request_varbinds@[j].oid@) by {
                    if j < before_vbs.len() {
                        assert(request_varbinds@[j] == before_vbs[j]);
                    }
                }
                if all_encodable {
                    assert forall|j: int| 0 <= j < request_varbinds@.len() implies oid_encodable(
                        #[trigger] request_varbinds@[j].oid@,
                    ) by {
                        if j < before_vbs.len() {
                            assert(request_varbinds@[j] == before_vbs[j]);
                        }
                    }
                } else {
                    if !encodable {
                        assert(!oid_encodable(request_varbinds@[before_vbs.len() as int].oid@));
                    } else {
                        let k = choose|k: int| 0 <= k < before_vbs.len() && !oid_encodable(
                            #[trigger] before_vbs[k].oid@,
                        );
                        assert(request_varbinds@[k] == before_vbs[k]);
                    }
                }
            }
            i += 1;
        }
        let ghost oids = varbinds_view(request_varbinds@).map_values(|b: VarBindView| b.oid);
        proof {
            assert(strs.subrange(i as int, strs.len() as int) == Seq::<Seq<char>>::empty());
            assert(oids + Seq::<Seq<u32>>::empty() == oids);
            assert forall|j: int| 0 <= j < oids.len() implies #[trigger] oids[j]
                == request_varbinds@[j].oid@ by {}
        }
        if !all_encodable {
            proof {
                let k = choose|k: int| 0 <= k < request_varbinds@.len() && !oid_encodable(
                    #[trigger] request_varbinds@[k].oid@,
                );
                assert(!oid_encodable(oids[k]));
            }
            return Err(ManagerError::InvalidOid);
        }
        if request_varbinds.len() == 0 {
            return Err(ManagerError::EmptyOidList);
        }
        Ok(
            build_request(
                community,
                Asn1Tag::GetBulkRequest,
                PduData::Bulk { non_repeaters, max_repititions },
                request_varbinds,
            ),
        )
    }

    /// Judges the reply to a `GetBulkRequest`: all its bindings, unless it is
    /// not a basic `GetResponse` or carries an error status.
    pub fn get_bulk_response(&self, response: &[u8]) -> (r: Result<Vec<VarBind>, ManagerError>)
        ensures
            match spec_bulk_outcome(response@) {
                Ok(vbs) => r matches Ok(v) && varbinds_view(v@) == vbs,
                Err(e) => r matches Err(e2) && e2 == e,
            },
    {
        let response_message = match parse_message(response) {
            Ok(m) => m,
            Err(e) => {
                return Err(ManagerError::Codec(e));
            },
        };
        if response_message.pdu.tag != Asn1Tag::GetResponse {
            return Err(ManagerError::UnexpectedPduTag(response_message.pdu.tag));
        }
        match response_message.pdu.data {
            PduData::Basic { error_status, error_index } => {
                if error_status != ErrorStatus::NoError {
                    return Err(ManagerError::Snmp { status: error_status, index: error_index });
                }
            },
            PduData::Bulk { .. } => {
                return Err(ManagerError::UnexpectedPduTag(response_message.pdu.tag));
            },
        }
        Ok(response_message.pdu.varbinds)
    }
}


/// A `walk` in progress: repeated `GetNextRequest`s from `root`, each from
/// the identifier the previous reply gave, for as long as the replies stay
/// in the subtree.
pub struct Walk {
    community: Vec<u8>,
    root: Vec<u32>,
    current: Vec<u32>,
    results: Vec<VarBind>,
}

pub struct WalkView {
    pub community: Seq<u8>,
    pub root: Seq<u32>,
    pub current: Seq<u32>,
    pub results: Seq<VarBindView>,
}

impl View for Walk {
    type V = WalkView;

    closed spec fn view(&self) -> WalkView {
        WalkView {
            community: self.community@,
            root: self.root@,
            current: self.current@,
            results: varbinds_view(self.results@),
        }
    }
}

impl WalkView {
    /// The root can be written, and the current identifier and every result
    /// lie in its subtree.
    pub open spec fn wf(self) -> bool {
        &&& oid_encodable(self.root)
        &&& spec_in_subtree(self.root, self.current)
        &&& forall|i: int|
            0 <= i < self.results.len() ==> spec_in_subtree(self.root, #[trigger] self.results[i].oid)
    }

    /// The request to send next.
    pub open spec fn request(self) -> MessageView {
        request_view(self.community, Asn1Tag::GetNextRequest, no_error(), seq![self.current])
    }
}

/// An identifier in the subtree of a writable root can be written.
pub proof fn lemma_subtree_encodable(root: Seq<u32>, child: Seq<u32>)
    requires
        oid_encodable(root),
        spec_in_subtree(root, child),
    ensures
        oid_encodable(child),
{
    assert(child[0] == child.subrange(0, root.len() as int)[0]);
    assert(child[1] == child.subrange(0, root.len() as int)[1]);
}

impl Walk {
    /// The bindings kept so far, in reply order.
    pub fn into_results(self) -> (r: Vec<VarBind>)
        ensures
            varbinds_view(r@) == self@.results,
    {
        self.results
    }

    /// The bytes of the `GetNextRequest` to send next.
    pub fn request(&self) -> (r: Vec<u8>)
        requires
            self@.wf(),
        ensures
            r@ == self@.request().encoding(),
    {
        proof {
            lemma_subtree_encodable(self@.root, self@.current);
        }
        let varbinds = vec![null_varbind(copy_oid(&self.current))];
        assert(varbinds_view(varbinds@) =~= seq![self@.current].map_values(
            |o: Seq<u32>| null_binding(o),
        ));
        build_request(
            self.community.as_slice(),
            Asn1Tag::GetNextRequest,
            PduData::Basic { error_status: ErrorStatus::NoError, error_index: 0 },
            varbinds,
        )
    }

    /// Takes in the reply to the last request: `Ok(true)` when the walk goes
    /// on, `Ok(false)` when it is over.
    pub fn on_response(&mut self, response: &[u8]) -> (r: Result<bool, ManagerError>)
        requires
            old(self)@.wf(),
        ensures
            final(self)@.wf(),
            match walk_event(old(self)@.root, response@) {
                WalkEvent::Next(vb) => r == Ok::<bool, ManagerError>(true) && final(self)@ == (
                WalkView {
                    community: old(self)@.community,
                    root: old(self)@.root,
                    current: vb.oid,
                    results: old(self)@.results.push(vb),
                }),
                WalkEvent::Stop => r == Ok::<bool, ManagerError>(false) && final(self)@ == old(
                    self,
                )@,
                WalkEvent::Fail(e) => r matches Err(e2) && e2 == e && final(self)@ == old(self)@,
            },
    {
        let response_message = match parse_message(response) {
            Ok(m) => m,
            Err(e) => {
                return Err(ManagerError::Codec(e));
            },
        };
        if let PduData::Basic { error_status, error_index } = response_message.pdu.data {
            if error_status != ErrorStatus::NoError {
                if error_status == ErrorStatus::NoSuchName {
                    return Ok(false);
                }
                return Err(ManagerError::Snmp { status: error_status, index: error_index });
            }
        }
        let mut varbinds = response_message.pdu.varbinds;
        if varbinds.len() == 0 {
            return Err(ManagerError::NoVarBinds);
        }
        let response_varbind = varbinds.remove(0);
        if response_varbind.value.is_exception() {
            return Ok(false);
        }
        if !is_in_subtree(self.root.as_slice(), response_varbind.oid.as_slice()) {
            return Ok(false);
        }
        self.current = copy_oid(&response_varbind.oid);
        let ghost before = self.results@;
        self.results.push(response_varbind);
        assert(varbinds_view(self.results@) == varbinds_view(before).push(response_varbind@));
        Ok(true)
    }
}

/// A `bulk_walk` in progress: repeated `GetBulkRequest`s from `root`, each
/// from the last identifier the previous batch gave.
pub struct BulkWalk {
    community: Vec<u8>,
    root: Vec<u32>,
    current: Vec<u32>,
    max_repititions: i32,
    results: Vec<VarBind>,
}

pub struct BulkWalkView {
    pub community: Seq<u8>,
    pub root: Seq<u32>,
    pub current: Seq<u32>,
    pub max_repititions: i32,
    pub results: Seq<VarBindView>,
}

impl View for BulkWalk {
    type V = BulkWalkView;

    closed spec fn view(&self) -> BulkWalkView {
        BulkWalkView {
            community: self.community@,
            root: self.root@,
            current: self.current@,
            max_repititions: self.max_repititions,
            results: varbinds_view(self.results@),
        }
    }
}

impl BulkWalkView {
    /// The root can be written, and the current identifier and every result
    /// lie in its subtree.
    pub open spec fn wf(self) -> bool {
        &&& oid_encodable(self.root)
        &&& spec_in_subtree(self.root, self.current)
        &&& forall|i: int|
            0 <= i < self.results.len() ==> spec_in_subtree(self.root, #[trigger] self.results[i].oid)
    }

    /// The request to send next: no non-repeaters, the walk's repetitions.
    pub open spec fn request(self) -> MessageView {
        request_view(
            self.community,
            Asn1Tag::GetBulkRequest,
            PduData::Bulk { non_repeaters: 0, max_repititions: self.max_repititions },
            seq![self.current],
        )
    }

    /// The walk after a batch: its accepted prefix is kept; the walk goes on
    /// from the batch's last identifier only if the whole batch, not empty,
    /// was accepted.
    pub open spec fn after_batch(self, batch: Seq<VarBindView>) -> (BulkWalkView, bool) {
        let k = bulk_accepted(self.root, batch);
        let results = self.results + batch.subrange(0, k as int);
        if batch.len() > 0 && k == batch.len() {
            (
                BulkWalkView {
                    community: self.community,
                    root: self.root,
                    current: batch.last().oid,
                    max_repititions: self.max_repititions,
                    results,
                },
                true,
            )
        } else {
            (
                BulkWalkView {
                    community: self.community,
                    root: self.root,
                    current: self.current,
                    max_repititions: self.max_repititions,
                    results,
                },
                false,
            )
        }
    }
}

impl BulkWalk {
    /// The bindings kept so far, in reply order.
    pub fn into_results(self) -> (r: Vec<VarBind>)
        ensures
            varbinds_view(r@) == self@.results,
    {
        self.results
    }

    /// The bytes of the `GetBulkRequest` to send next.
    pub fn request(&self) -> (r: Vec<u8>)
        requires
            self@.wf(),
        ensures
            r@ == self@.request().encoding(),
    {
        proof {
            lemma_subtree_encodable(self@.root, self@.current);
        }
        let varbinds = vec![null_varbind(copy_oid(&self.current))];
        assert(varbinds_view(varbinds@) =~= seq![self@.current].map_values(
            |o: Seq<u32>| null_binding(o),
        ));
        build_request(
            self.community.as_slice(),
            Asn1Tag::GetBulkRequest,
            PduData::Bulk { non_repeaters: 0, max_repititions: self.max_repititions },
            varbinds,
        )
    }

    /// Takes in the reply to the last request: `Ok(true)` when the walk goes
    /// on, `Ok(false)` when it is over.
    pub fn on_response(&mut self, response: &[u8]) -> (r: Result<bool, ManagerError>)
        requires
            old(self)@.wf(),
        ensures
            final(self)@.wf(),
            match spec_bulk_outcome(response@) {
                Ok(batch) => r == Ok::<bool, ManagerError>(old(self)@.after_batch(batch).1)
                    && final(self)@ == old(self)@.after_batch(batch).0,
                Err(e) => r matches Err(e2) && e2 == e && final(self)@ == old(self)@,
            },
    {
        let manager = Manager::new();
        let varbind_batch = manager.get_bulk_response(response)?;
        Ok(self.take_batch(varbind_batch))
    }

    /// Keeps the accepted prefix of a batch; says whether the walk goes on.
    fn take_batch(&mut self, varbind_batch: Vec<VarBind>) -> (r: bool)
        requires
            old(self)@.wf(),
        ensures
            final(self)@.wf(),
            r == old(self)@.after_batch(varbinds_view(varbind_batch@)).1,
            final(self)@ == old(self)@.after_batch(varbinds_view(varbind_batch@)).0,
    {
        if varbind_batch.len() == 0 {
            proof {
                assert(old(self)@.results + Seq::<VarBindView>::empty() == old(self)@.results);
            }
            return false;
        }
        let ghost batch = varbinds_view(varbind_batch@);
        let n = varbind_batch.len();
        let mut k: usize = 0;
        while k < n && !varbind_batch[k].value.is_exception() && is_in_subtree(
            self.root.as_slice(),
            varbind_batch[k].oid.as_slice(),
        )
            invariant
                k <= n == varbind_batch@.len() == batch.len(),
                batch == varbinds_view(varbind_batch@),
                forall|i: int|
                    0 <= i < k ==> spec_in_subtree(self@.root, #[trigger] batch[i].oid)
                        && !batch[i].value.is_exception(),
            decreases n - k,
        {
            assert(batch[k as int] == varbind_batch@[k as int]@);
            assert(!batch[k as int].value.is_exception());
            assert(spec_in_subtree(self@.root, batch[k as int].oid));
            let ghost k0 = k;
            k += 1;
            assert forall|i: int| 0 <= i < k implies spec_in_subtree(
                self@.root,
                #[trigger] batch[i].oid,
            ) && !batch[i].value.is_exception() by {
                if i < k0 {
                    assert(spec_in_subtree(self@.root, batch[i].oid));
                    assert(!batch[i].value.is_exception());
                } else {
                    assert(i == k0);
                    assert(spec_in_subtree(self@.root, batch[i].oid));
                    assert(!batch[i].value.is_exception());
                }
            }
        }
        proof {
            lemma_bulk_accepted_exact(self@.root, batch, k as nat);
        }
        let continue_walk = k == n;
        let last = copy_oid(&varbind_batch[n - 1].oid);
        let ghost old_results = self.results@;
        let mut kept = varbind_batch;
        kept.truncate(k);
        proof {
            assert(varbinds_view(kept@) =~= batch.subrange(0, k as int));
            assert(batch.last() == varbind_batch@[n - 1]@);
        }
        self.results.append(&mut kept);
        proof {
            assert(varbinds_view(self.results@) =~= varbinds_view(old_results) + batch.subrange(
                0,
                k as int,
            ));
            assert forall|i: int| 0 <= i < self@.results.len() implies spec_in_subtree(
                self@.root,
                #[trigger] self@.results[i].oid,
            ) by {
                if i >= old_results.len() {
                    assert(self@.results[i] == batch[i - old_results.len()]);
                } else {
                    assert(self@.results[i] == old(self)@.results[i]);
                }
            }
        }
        if continue_walk {
            proof {
                assert(spec_in_subtree(self@.root, batch[n - 1].oid));
            }
            self.current = last;
        }
        continue_walk
    }
}

/// `k` bindings are accepted when each of the first `k` is, and the one after
/// them, if any, is not.
proof fn lemma_bulk_accepted_exact(root: Seq<u32>, batch: Seq<VarBindView>, k: nat)
    requires
        k <= batch.len(),
        forall|i: int|
            0 <= i < k ==> spec_in_subtree(root, #[trigger] batch[i].oid)
                && !batch[i].value.is_exception(),
        k < batch.len() ==> (batch[k as int].value.is_exception() || !spec_in_subtree(
            root,
            batch[k as int].oid,
        )),
    ensures
        bulk_accepted(root, batch) == k,
    decreases k,
{
    if k > 0 {
        assert(spec_in_subtree(root, batch[0].oid) && !batch[0].value.is_exception());
        assert forall|i: int| 0 <= i < k - 1 implies spec_in_subtree(
            root,
            #[trigger] batch.drop_first()[i].oid,
        ) && !batch.drop_first()[i].value.is_exception() by {
            assert(batch.drop_first()[i] == batch[i + 1]);
            assert(spec_in_subtree(root, batch[i + 1].oid) && !batch[i + 1].value.is_exception());
        }
        lemma_bulk_accepted_exact(root, batch.drop_first(), (k - 1) as nat);
    }
}

impl Manager {
    /// Starts a walk of the subtree that `root_id_str` names.
    pub fn walk_start(&self, community: &[u8], root_id_str: &str) -> (r: Result<Walk, ManagerError>)
        ensures
            match spec_oid_from_str(root_id_str@) {
                Ok(root) => r matches Ok(w) && w@ == (WalkView {
                    community: community@,
                    root,
                    current: root,
                    results: seq![],
                }) && w@.wf(),
                Err(f) => r matches Err(e) && fault_matches(e, f),
            },
    {
        let root = oid_from_str(root_id_str)?;
        let current = copy_oid(&root);
        let w = Walk {
            community: vstd::slice::slice_to_vec(community),
            root,
            current,
            results: Vec::new(),
        };
        proof {
            lemma_subtree_laws(w@.root, 0);
            assert(w@.results =~= Seq::<VarBindView>::empty());
        }
        Ok(w)
    }

    /// Starts a bulk walk of the subtree that `root_oid_str` names.
    pub fn bulk_walk_start(
        &self,
        community: &[u8],
        root_oid_str: &str,
        max_repititions: i32,
    ) -> (r: Result<BulkWalk, ManagerError>)
        ensures
            match spec_oid_from_str(root_oid_str@) {
                Ok(root) => r matches Ok(w) && w@ == (BulkWalkView {
                    community: community@,
                    root,
                    current: root,
                    max_repititions,
                    results: seq![],
                }) && w@.wf(),
                Err(f) => r matches Err(e) && fault_matches(e, f),
            },
    {
        let root = oid_from_str(root_oid_str)?;
        let current = copy_oid(&root);
        let w = BulkWalk {
            community: vstd::slice::slice_to_vec(community),
            root,
            current,
            max_repititions,
            results: Vec::new(),
        };
        proof {
            lemma_subtree_laws(w@.root, 0);
            assert(w@.results =~= Seq::<VarBindView>::empty());
        }
        Ok(w)
    }
}


/// A walk ends, keeping nothing from the reply, on each of its terminators: a
/// `NoSuchName` status, an exception value (`endOfMibView`, `noSuchObject`,
/// `noSuchInstance`), or an identifier outside the subtree. Only a binding
/// inside the subtree is ever kept.
pub proof fn lemma_walk_terminators(root: Seq<u32>, response: Seq<u8>)
    requires
        spec_parse_message(response) is Ok,
    ensures
        ({
            let m = spec_parse_message(response)->Ok_0;
            let status_ok = !(m.pdu.data matches PduData::Basic { error_status, .. }
                && error_status != ErrorStatus::NoError);
            &&& (m.pdu.data matches PduData::Basic { error_status, .. } && error_status
                == ErrorStatus::NoSuchName) ==> walk_event(root, response) is Stop
            &&& (status_ok && m.pdu.varbinds.len() > 0 && m.pdu.varbinds[0].value.is_exception())
                ==> walk_event(root, response) is Stop
            &&& (status_ok && m.pdu.varbinds.len() > 0 && !spec_in_subtree(
                root,
                m.pdu.varbinds[0].oid,
            )) ==> walk_event(root, response) is Stop
            &&& walk_event(root, response) matches WalkEvent::Next(vb) ==> spec_in_subtree(
                root,
                vb.oid,
            )
        }),
{
}

} // verus!
