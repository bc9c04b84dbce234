//! DOCSIS configuration file encoding and decoding.
//!
//! The library reads a human-readable configuration file and produces the
//! binary form a cable modem or PacketCable MTA is provisioned with, and
//! reverses it.
//!
//! DOCSIS is a registered trademark of CableLabs, http://www.cablelabs.com
use vstd::prelude::*;

pub mod asn1;
pub mod decode;
pub mod encode;
pub mod assemble;
pub mod ethermac;
pub mod inet;
pub mod lexer;
pub mod mib;
pub mod parser;
pub mod snmp;
pub mod symbol;
pub mod text;
pub mod value;

verus! {

/// The name this program is installed and invoked as.
///
/// It prefixes every diagnostic and appears in the usage text.
pub const PROG: &'static str = "gen_docsis";

} // verus!
