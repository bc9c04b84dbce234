//! The DOCSIS configuration-setting symbol table.
//!
//! Each `Symbol` ties a human-readable configuration keyword (as written in a
//! text config file) to the TLV code it encodes to, the encoder/decoder pair
//! used for its value, and the legal range of that value.  `parent_id` chains
//! entries into a tree: a sub-TLV names the `id` of the aggregate it lives in,
//! and top-level settings use 0.
//!
//! DOCSIS is a registered trademark of CableLabs, http://www.cablelabs.com
use vstd::prelude::*;
use vstd::string::StringSliceAdditionalSpecFns;
use crate::text::bytes_eq;

verus! {

/// How the value of a configuration setting is turned into TLV value bytes.
#[derive(Clone, Copy, PartialEq, Eq, Debug, Structural)]
pub enum Enc {
    CharIpIp6,
    CharList,
    DualQtag,
    Ether,
    Ethermask,
    Hexstr,
    Ip,
    Ip6,
    Ip6List,
    Ip6PrefixList,
    IpIp6,
    IpIp6Port,
    IpList,
    Lenzero,
    Nothing,
    Oid,
    String,
    Strzero,
    Uchar,
    Uint,
    Uint24,
    Ushort,
    UshortList,
}

/// How TLV value bytes are rendered back into config-file text.
#[derive(Clone, Copy, PartialEq, Eq, Debug, Structural)]
pub enum Dec {
    Aggregate,
    CharIpIp6,
    CharList,
    DualQtag,
    Ether,
    Ethermask,
    Hexstr,
    Ip,
    Ip6,
    Ip6List,
    Ip6PrefixList,
    IpIp6,
    IpIp6Port,
    IpList,
    Lenzero,
    Md5,
    Oid,
    SnmpObject,
    SnmpWd,
    Special,
    String,
    Strzero,
    Uchar,
    Uint,
    Uint24,
    Ushort,
    UshortList,
}

#[derive(Clone, Copy, Debug)]
pub struct Symbol {
    pub id: u32,
    pub ident: &'static str,
    pub code: u8,
    pub parent_id: u32,
    pub enc: Enc,
    pub dec: Dec,
    pub low: u32,
    pub high: u32,
}

/// Whether the row at `i` is the first one whose keyword is `name`.
pub open spec fn first_named(table: Seq<Symbol>, name: Seq<u8>, i: int) -> bool {
    &&& 0 <= i < table.len()
    &&& table[i].ident.spec_bytes() == name
    &&& forall|j: int| 0 <= j < i ==> (#[trigger] table[j]).ident.spec_bytes() != name
}

/// The first row of the table named `name`.
pub open spec fn named_row(table: Seq<Symbol>, name: Seq<u8>) -> Option<int> {
    if exists|i: int| first_named(table, name, i) {
        Some(choose|i: int| first_named(table, name, i))
    } else {
        None
    }
}

/// A named row is the first row named so.
pub proof fn lemma_named_row(table: Seq<Symbol>, name: Seq<u8>, i: int)
    requires
        first_named(table, name, i),
    ensures
        named_row(table, name) == Some(i),
{
    let j = choose|j: int| first_named(table, name, j);
    if j < i {
        assert(table[j].ident.spec_bytes() == name);
    } else if i < j {
        assert(table[i].ident.spec_bytes() == name);
    }
}

/// Whether the row at `i` is the first one with TLV code `code` under `pid`.
pub open spec fn first_coded(table: Seq<Symbol>, code: u8, pid: u32, i: int) -> bool {
    &&& 0 <= i < table.len()
    &&& table[i].code == code && table[i].parent_id == pid
    &&& forall|j: int|
        0 <= j < i ==> !((#[trigger] table[j]).code == code && table[j].parent_id == pid)
}

/// The first row with TLV code `code` under parent `pid`.
pub open spec fn coded_row(table: Seq<Symbol>, code: u8, pid: u32) -> Option<Symbol> {
    if exists|i: int| first_coded(table, code, pid, i) {
        Some(table[choose|i: int| first_coded(table, code, pid, i)])
    } else {
        None
    }
}

/// The first row with a code is the row `coded_row` gives.
pub proof fn lemma_coded_row(table: Seq<Symbol>, code: u8, pid: u32, i: int)
    requires
        first_coded(table, code, pid, i),
    ensures
        coded_row(table, code, pid) == Some(table[i]),
{
    let j = choose|j: int| first_coded(table, code, pid, j);
    if j < i {
        assert(table[j].code == code && table[j].parent_id == pid);
    } else if i < j {
        assert(table[i].code == code && table[i].parent_id == pid);
    }
}

/// Look up a setting by the keyword used in a text config file.
///
/// The first match in table order wins, for the handful of identifiers that
/// repeat under different parents.
pub fn find_by_name<'a>(table: &'a [Symbol], name: &str) -> (r: Option<&'a Symbol>)
    ensures
        match r {
            Some(s) => exists|i: int| first_named(table@, name.spec_bytes(), i) && *s == table@[i],
            None => forall|i: int|
                0 <= i < table@.len() ==> (#[trigger] table@[i]).ident.spec_bytes()
                    != name.spec_bytes(),
        },
{
    let nb = name.as_bytes();
    let mut i: usize = 0;
    while i < table.len()
        invariant
            i <= table@.len(),
            nb@ == name.spec_bytes(),
            forall|j: int| 0 <= j < i ==> (#[trigger] table@[j]).ident.spec_bytes() != name.spec_bytes(),
        decreases table@.len() - i,
    {
        let s = &table[i];
        if bytes_eq(s.ident.as_bytes(), nb) {
            assert(first_named(table@, name.spec_bytes(), i as int));
            return Some(s);
        }
        i = i + 1;
    }
    None
}

/// Look up a setting by its TLV code within a given parent aggregate.
pub fn find_by_code_and_pid<'a>(table: &'a [Symbol], code: u8, pid: u32) -> (r: Option<
    &'a Symbol,
>)
    ensures
        match r {
            Some(s) => exists|i: int| first_coded(table@, code, pid, i) && *s == table@[i],
            None => forall|i: int|
                0 <= i < table@.len() ==> !((#[trigger] table@[i]).code == code
                    && table@[i].parent_id == pid),
        },
        match r {
            Some(s) => coded_row(table@, code, pid) == Some(*s),
            None => coded_row(table@, code, pid) is None,
        },
{
    let mut i: usize = 0;
    while i < table.len()
        invariant
            i <= table@.len(),
            forall|j: int|
                0 <= j < i ==> !((#[trigger] table@[j]).code == code && table@[j].parent_id == pid),
        decreases table@.len() - i,
    {
        let s = &table[i];
        if s.code == code && s.parent_id == pid {
            assert(first_coded(table@, code, pid, i as int));
            proof {
                lemma_coded_row(table@, code, pid, i as int);
            }
            return Some(s);
        }
        i = i + 1;
    }
    None
}

} // verus!
