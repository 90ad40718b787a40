use rusnmp::ber::{Asn1Tag, BerError};
use rusnmp::manager::{is_in_subtree, parse_oid_string, Manager, ManagerError};
use rusnmp::snmp::message::{parse_message, SnmpMessage};
use rusnmp::snmp::pdu::{ErrorStatus, ObjectSyntax, Pdu, PduData, VarBind};

fn oid(s: &[u32]) -> Vec<u32> {
    s.to_vec()
}

fn response(status: ErrorStatus, varbinds: Vec<VarBind>) -> Vec<u8> {
    let message = SnmpMessage {
        version: 1,
        community: b"public".to_vec(),
        pdu: Pdu {
            tag: Asn1Tag::GetResponse,
            request_id: 1,
            data: PduData::Basic {
                error_status: status,
                error_index: 0,
            },
            varbinds,
        },
    };
    message.to_bytes()
}

fn reply_with(o: &[u32], value: ObjectSyntax) -> Vec<u8> {
    response(
        ErrorStatus::NoError,
        vec![VarBind {
            oid: oid(o),
            value,
        }],
    )
}

fn text(s: &str) -> ObjectSyntax {
    ObjectSyntax::OctetString(s.as_bytes().to_vec())
}

/// Runs a walk against scripted replies; returns the results, or the error,
/// and the number of requests sent.
fn run_walk(root: &str, script: &[Vec<u8>]) -> (Result<Vec<VarBind>, ManagerError>, usize) {
    let manager = Manager::new();
    let mut walk = manager.walk_start(b"public", root).unwrap();
    let mut sent = 0;
    loop {
        let request = walk.request();
        let parsed = parse_message(&request).unwrap();
        assert_eq!(parsed.pdu.tag, Asn1Tag::GetNextRequest);
        sent += 1;
        match walk.on_response(&script[sent - 1]) {
            Ok(true) => continue,
            Ok(false) => return (Ok(walk.into_results()), sent),
            Err(e) => return (Err(e), sent),
        }
    }
}

#[test]
fn walk_stops_outside_the_subtree() {
    let script = vec![
        reply_with(&[1, 3, 6, 1, 2, 1, 1, 1, 0], text("a")),
        reply_with(&[1, 3, 6, 1, 2, 1, 1, 2, 0], text("b")),
        reply_with(&[1, 3, 6, 1, 2, 1, 2, 1, 0], text("c")),
    ];
    let (results, sent) = run_walk("1.3.6.1.2.1.1", &script);
    let results = results.unwrap();
    assert_eq!(sent, 3);
    assert_eq!(results.len(), 2);
    assert_eq!(results[0].oid, vec![1, 3, 6, 1, 2, 1, 1, 1, 0]);
    assert_eq!(results[1].oid, vec![1, 3, 6, 1, 2, 1, 1, 2, 0]);
}

#[test]
fn walk_stops_on_no_such_name() {
    let script = vec![
        reply_with(&[1, 3, 6, 1, 2, 1, 1, 1, 0], text("a")),
        response(ErrorStatus::NoSuchName, vec![]),
    ];
    let (results, sent) = run_walk("1.3.6.1.2.1.1", &script);
    assert_eq!(sent, 2);
    assert_eq!(results.unwrap().len(), 1);
}

#[test]
fn walk_stops_on_end_of_mib_view() {
    let script = vec![
        reply_with(&[1, 3, 6, 1, 2, 1, 1, 1, 0], text("a")),
        reply_with(&[1, 3, 6, 1, 2, 1, 1, 2, 0], ObjectSyntax::EndOfMib),
    ];
    let (results, sent) = run_walk("1.3.6.1.2.1.1", &script);
    assert_eq!(sent, 2);
    assert_eq!(results.unwrap().len(), 1);
}

#[test]
fn walk_stops_on_no_such_object() {
    let script = vec![reply_with(&[1, 3, 6, 1, 2, 1, 1, 1, 0], ObjectSyntax::NoSuchObject)];
    let (results, sent) = run_walk("1.3.6.1.2.1.1", &script);
    assert_eq!(sent, 1);
    assert!(results.unwrap().is_empty());
}

#[test]
fn walk_fails_on_other_error_status() {
    let script = vec![response(ErrorStatus::GenErr, vec![])];
    let (results, _) = run_walk("1.3.6.1.2.1.1", &script);
    assert_eq!(
        results,
        Err(ManagerError::Snmp {
            status: ErrorStatus::GenErr,
            index: 0
        })
    );
}

#[test]
fn walk_fails_on_empty_reply_and_garbage() {
    let (results, _) = run_walk("1.3.6.1.2.1.1", &[response(ErrorStatus::NoError, vec![])]);
    assert_eq!(results, Err(ManagerError::NoVarBinds));
    let (results, _) = run_walk("1.3.6.1.2.1.1", &[vec![0x30, 0x05]]);
    assert_eq!(results, Err(ManagerError::Codec(BerError::IncompleteData)));
}

#[test]
fn walk_requests_follow_the_last_identifier() {
    let manager = Manager::new();
    let mut walk = manager.walk_start(b"public", ".1.3.6.1.2.1.1").unwrap();
    let first = parse_message(&walk.request()).unwrap();
    assert_eq!(first.pdu.varbinds[0].oid, vec![1, 3, 6, 1, 2, 1, 1]);
    assert_eq!(first.pdu.varbinds[0].value, ObjectSyntax::Null);
    assert_eq!(first.community, b"public".to_vec());
    let reply = reply_with(&[1, 3, 6, 1, 2, 1, 1, 3, 0], ObjectSyntax::TimeTicks(42));
    assert_eq!(walk.on_response(&reply), Ok(true));
    let second = parse_message(&walk.request()).unwrap();
    assert_eq!(second.pdu.varbinds[0].oid, vec![1, 3, 6, 1, 2, 1, 1, 3, 0]);
}

#[test]
fn get_request_bytes() {
    let manager = Manager::new();
    let bytes = manager.get_request(b"public", "1.3.6.1.2.1.1.1.0").unwrap();
    assert_eq!(
        bytes,
        vec![
            0x30, 0x26, 0x02, 0x01, 0x01, 0x04, 0x06, 0x70, 0x75, 0x62, 0x6c, 0x69, 0x63, 0xa0,
            0x19, 0x02, 0x01, 0x01, 0x02, 0x01, 0x00, 0x02, 0x01, 0x00, 0x30, 0x0e, 0x30, 0x0c,
            0x06, 0x08, 0x2b, 0x06, 0x01, 0x02, 0x01, 0x01, 0x01, 0x00, 0x05, 0x00
        ]
    );
}

#[test]
fn get_request_rejects_bad_identifiers() {
    let manager = Manager::new();
    assert_eq!(
        manager.get_request(b"public", "1.3.x.1"),
        Err(ManagerError::InvalidOidString {
            component: "x".to_string()
        })
    );
    assert_eq!(manager.get_request(b"public", "1"), Err(ManagerError::InvalidOid));
    assert_eq!(manager.get_request(b"public", "7.0"), Err(ManagerError::InvalidOid));
}

#[test]
fn get_response_outcomes() {
    let manager = Manager::new();
    let ok = reply_with(&[1, 3, 6, 1, 2, 1, 1, 5, 0], text("router"));
    let vb = manager.get_response(&ok).unwrap();
    assert_eq!(vb.oid, vec![1, 3, 6, 1, 2, 1, 1, 5, 0]);
    assert_eq!(vb.value, text("router"));
    assert_eq!(
        manager.get_response(&response(ErrorStatus::TooBig, vec![])),
        Err(ManagerError::Snmp {
            status: ErrorStatus::TooBig,
            index: 0
        })
    );
    assert_eq!(
        manager.get_response(&response(ErrorStatus::NoError, vec![])),
        Err(ManagerError::NoVarBinds)
    );
    let mut trailing = ok.clone();
    trailing.push(0);
    assert_eq!(
        manager.get_response(&trailing),
        Err(ManagerError::Codec(BerError::TrailingData))
    );
}

#[test]
fn get_bulk_request_and_response() {
    let manager = Manager::new();
    assert_eq!(
        manager.get_bulk_request(b"public", 0, 10, &[]),
        Err(ManagerError::EmptyOidList)
    );
    let bytes = manager
        .get_bulk_request(b"private", 1, 10, &["1.3.6.1.2.1.1", "1.3.6.1.2.1.2"])
        .unwrap();
    let parsed = parse_message(&bytes).unwrap();
    assert_eq!(parsed.pdu.tag, Asn1Tag::GetBulkRequest);
    assert_eq!(
        parsed.pdu.data,
        PduData::Bulk {
            non_repeaters: 1,
            max_repititions: 10
        }
    );
    assert_eq!(parsed.pdu.varbinds.len(), 2);
    assert_eq!(parsed.pdu.varbinds[1].oid, vec![1, 3, 6, 1, 2, 1, 2]);
    assert_eq!(parsed.community, b"private".to_vec());

    let reply = response(
        ErrorStatus::NoError,
        vec![
            VarBind {
                oid: oid(&[1, 3, 6, 1, 2, 1, 1, 1, 0]),
                value: text("a"),
            },
            VarBind {
                oid: oid(&[1, 3, 6, 1, 2, 1, 1, 2, 0]),
                value: ObjectSyntax::Integer(5),
            },
        ],
    );
    let vbs = manager.get_bulk_response(&reply).unwrap();
    assert_eq!(vbs.len(), 2);
    assert_eq!(vbs[1].value, ObjectSyntax::Integer(5));
    // a reply that is itself a request is refused
    assert_eq!(
        manager.get_bulk_response(&bytes),
        Err(ManagerError::UnexpectedPduTag(Asn1Tag::GetBulkRequest))
    );
}

#[test]
fn bulk_walk_keeps_the_subtree() {
    let manager = Manager::new();
    let mut walk = manager.bulk_walk_start(b"public", "1.3.6.1.2.1.1", 20).unwrap();
    let request = parse_message(&walk.request()).unwrap();
    assert_eq!(
        request.pdu.data,
        PduData::Bulk {
            non_repeaters: 0,
            max_repititions: 20
        }
    );
    let batch = response(
        ErrorStatus::NoError,
        vec![
            VarBind {
                oid: oid(&[1, 3, 6, 1, 2, 1, 1, 1, 0]),
                value: text("a"),
            },
            VarBind {
                oid: oid(&[1, 3, 6, 1, 2, 1, 1, 2, 0]),
                value: text("b"),
            },
        ],
    );
    assert_eq!(walk.on_response(&batch), Ok(true));
    let request = parse_message(&walk.request()).unwrap();
    assert_eq!(request.pdu.varbinds[0].oid, vec![1, 3, 6, 1, 2, 1, 1, 2, 0]);
    let batch = response(
        ErrorStatus::NoError,
        vec![
            VarBind {
                oid: oid(&[1, 3, 6, 1, 2, 1, 1, 3, 0]),
                value: text("c"),
            },
            VarBind {
                oid: oid(&[1, 3, 6, 1, 2, 1, 2, 1, 0]),
                value: text("d"),
            },
        ],
    );
    assert_eq!(walk.on_response(&batch), Ok(false));
    let results = walk.into_results();
    assert_eq!(results.len(), 3);
    assert_eq!(results[2].oid, vec![1, 3, 6, 1, 2, 1, 1, 3, 0]);
}

#[test]
fn bulk_walk_stops_on_empty_batch_and_end_of_mib() {
    let manager = Manager::new();
    let mut walk = manager.bulk_walk_start(b"public", "1.3.6.1.2.1.1", 5).unwrap();
    assert_eq!(walk.on_response(&response(ErrorStatus::NoError, vec![])), Ok(false));
    let batch = response(
        ErrorStatus::NoError,
        vec![
            VarBind {
                oid: oid(&[1, 3, 6, 1, 2, 1, 1, 1, 0]),
                value: text("a"),
            },
            VarBind {
                oid: oid(&[1, 3, 6, 1, 2, 1, 1, 2, 0]),
                value: ObjectSyntax::EndOfMib,
            },
        ],
    );
    assert_eq!(walk.on_response(&batch), Ok(false));
    assert_eq!(walk.into_results().len(), 1);
}

#[test]
fn oid_strings() {
    assert_eq!(parse_oid_string(".1.3.6.1"), Ok(vec![1, 3, 6, 1]));
    assert_eq!(parse_oid_string("1..3."), Ok(vec![1, 3]));
    assert_eq!(parse_oid_string(""), Ok(vec![]));
    assert_eq!(parse_oid_string("+7.4294967295"), Ok(vec![7, 4294967295]));
    assert_eq!(
        parse_oid_string("1.4294967296"),
        Err(ManagerError::InvalidOidString {
            component: "4294967296".to_string()
        })
    );
    assert_eq!(
        parse_oid_string("1.-2"),
        Err(ManagerError::InvalidOidString {
            component: "-2".to_string()
        })
    );
    assert_eq!(
        parse_oid_string("1.+"),
        Err(ManagerError::InvalidOidString {
            component: "+".to_string()
        })
    );
}

#[test]
fn subtree_predicate() {
    let r = [1, 3, 6, 1, 2, 1, 1];
    assert!(is_in_subtree(&r, &r));
    assert!(is_in_subtree(&r, &[1, 3, 6, 1, 2, 1, 1, 9]));
    assert!(!is_in_subtree(&[1, 3, 6, 1, 2, 1, 1, 1], &r));
    assert!(!is_in_subtree(&[1, 3, 6, 1, 2, 1, 1], &[1, 3, 6, 1, 2, 1, 2, 1]));
}

#[test]
fn get_bulk_request_reads_every_identifier_before_checking_them() {
    let manager = Manager::new();
    assert_eq!(
        manager.get_bulk_request(b"public", 0, 10, &["1", "x"]),
        Err(ManagerError::InvalidOidString {
            component: "x".to_string()
        })
    );
    assert_eq!(
        manager.get_bulk_request(b"public", 0, 10, &["1", "1.3"]),
        Err(ManagerError::InvalidOid)
    );
    assert_eq!(
        manager.get_bulk_request(b"public", 0, 10, &["1.3", "9.9"]),
        Err(ManagerError::InvalidOid)
    );
}
