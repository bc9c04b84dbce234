docsis
======

Encodes a DOCSIS (or PacketCable MTA) binary configuration file from its
human-readable text form, and decodes a binary file back into that text.
The library is written in Verus: every function in `src/` carries a
contract, and Verus proves each body against it.

Layout
------

- `src/lexer.rs`, `src/parser.rs`: the configuration language, from text
  to tokens to a tree of settings; errors come back as values with their
  line.
- `src/encode.rs`, `src/value.rs`, `src/snmp.rs`, `src/asn1.rs`: the value
  encoders, SNMP variable bindings and the BER they are written in.
- `src/assemble.rs`: flattening the tree, the CM and CMTS MICs, the
  end-of-data marker and padding, the PacketCable hash and dial plan.
  MD5, HMAC-MD5 and SHA-1 come from the `md-5`, `hmac` and `sha1` crates.
- `src/decode.rs`: binary back to text.
- `src/mib/`: the SNMP MIB reader (tokenizer, module parser, the OID tree,
  resolving names to OIDs and printing OIDs as names, the order modules are
  read in, and how the tree stays linked so that every node's path leads
  back to it).
- `src/symbol.rs`, `src/ethermac.rs`, `src/inet.rs`, `src/text.rs`: the
  setting table's lookups, MAC and IP address text, digits and strings.
- `app/`: the `gen_docsis` command line, file and directory I/O.
- `tests/`: tests run against the compiled library.

Each module states its model in spec functions; the `law_*` proof functions
state properties that span several functions, such as the round trips of
each value form between text and bytes.

The settings table
------------------

The library takes the table of settings (keyword, TLV code, parent, encoder,
decoder, range) as an argument. The rows of that table are not in this source
tree: `app/symtable.rs` holds an empty table, so the `gen_docsis` built from
it knows no settings by name, and decodes every TLV as `GenericTLV`. Putting
the rows into `app/symtable.rs` needs no change to the library.

`gen_docsis --version` prints the package version; no build time is
recorded.
