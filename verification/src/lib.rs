//! A DNS forwarder and DHCP server: packet encoding and decoding, the
//! cache of answers, the lease database and the rules that decide every
//! reply.

pub mod answer;
pub mod arpa;
pub mod cache;
pub mod config;
pub mod confargs;
pub mod dhcp;
pub mod dnsmasq;
pub mod extract;
pub mod forward;
pub mod inet;
pub mod lease;
pub mod leasefile;
pub mod log;
pub mod logtext;
pub mod network;
pub mod option;
pub mod opts;
pub mod rfc1035;
pub mod rfc2131;
pub mod util;

use vstd::prelude::*;

verus! {

/// The library's error type.
#[derive(Debug)]
pub enum DnsmasqError {
    ConfigError(String),
    NetworkError(String),
    IoError(std::io::Error),
    ParseError(String),
}

/// `std::io::Error`, carried through without being looked into.
#[verifier::external_type_specification]
#[verifier::external_body]
pub struct ExIoError(std::io::Error);

} // verus!
