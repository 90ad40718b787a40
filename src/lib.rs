//! An SNMPv2c manager: a BER codec, the SNMP message model built on it, and
//! the request/response logic of the manager operations.
pub mod ber;
pub mod snmp;
pub mod manager;
