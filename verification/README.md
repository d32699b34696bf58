# usg_dhcproto

A verified DHCPv4 message library: decoding and encoding of the BOOTP header
and the DHCP options field, with option overload (the `sname` and `file`
header fields carrying options, RFC 2132 §9.3) and long-option splitting and
joining (RFC 3396).

- `src/` is the library, written in Verus. Every function has a contract over
  a mathematical model (`MessageModel`, the option map `Map<u8, OptionValue>`)
  and is proved against it; `src/laws.rs` states and proves what holds across
  functions, such as decoding an encoded message giving it back.
- `tests/` exercises the library on concrete packets.
- `app/` holds what rests on std's networking types, serde and `core::fmt`:
  `Ipv4Addr` accessors, a serialisable record of a message, and its `Display`.
