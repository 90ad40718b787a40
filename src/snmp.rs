//! The SNMP message model: values, variable bindings, PDUs and messages,
//! each with its encoder and parser.
pub mod message;
pub mod pdu;
pub mod proofs;
