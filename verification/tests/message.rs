use usg_dhcproto::hex::bytes_to_hex;
use usg_dhcproto::message::{Message, MAGIC};
use usg_dhcproto::options::{DhcpOption, MessageType, OptionCode};

fn decode_ipv4(input: Vec<u8>, expected: MessageType) {
    // decode
    let msg = Message::decode(&input).expect("decode");
    assert_eq!(msg.opts().msg_type().unwrap(), expected);
    // now encode
    let mut buf = Vec::new();
    msg.encode(&mut buf);
    // decode again
    let res = Message::decode(&buf).expect("decode again");
    // check Messages are equal after decoding/encoding
    assert_eq!(msg, res);
}

#[test]
fn test_hex() {
    let data: &[u8] = &[0xDE, 0xAD, 0xBE, 0xEF];
    let hex = bytes_to_hex(data);
    assert_eq!(&hex, "deadbeef");
}

#[test]
fn decode_offer() {
    decode_ipv4(offer(), MessageType::Offer);
}

#[test]
fn decode_discover() {
    decode_ipv4(discover(), MessageType::Discover);
}

#[test]
fn decode_offer_two() {
    decode_ipv4(other_offer(), MessageType::Offer);
}

#[test]
fn decode_bootreq() {
    let offer = bootreq();
    let msg = Message::decode(&offer).expect("decode");
    println!("{msg:?}");
    // now encode
    let mut buf = Vec::new();
    msg.encode(&mut buf);
    assert_eq!(buf, bootreq());
}

#[test]
fn decode_full_sname_no_nul_preserved() {
    // a `sname` field that is completely filled (no NUL terminator) must be
    // preserved rather than dropped.
    let mut bytes = offer();
    for b in &mut bytes[44..108] {
        *b = b'x';
    }
    let msg = Message::decode(&bytes).expect("decode");
    assert_eq!(msg.sname(), Some(&[b'x'; 64][..]));
}

#[test]
fn decode_rejects_bad_magic() {
    // a packet whose magic cookie isn't 99.130.83.99 is not a valid DHCP
    // message and must be rejected rather than silently mis-parsed.
    let mut bytes = offer();
    assert_eq!(bytes[236], 0x63); // sanity: cookie starts here
    bytes[236] = 0x00; // corrupt it
    assert!(Message::decode(&bytes).is_err());
}

#[test]
fn encode_overloaded_round_trips() {
    let mut msg = Message::default();
    let opts = msg.opts_mut();
    opts.insert(DhcpOption::MessageType(MessageType::Offer));
    opts.insert(DhcpOption::Hostname(b"a-fairly-long-client-hostname".to_vec()));
    opts.insert(DhcpOption::DomainName(b"dept.example.internal.test".to_vec()));
    opts.insert(DhcpOption::Message(b"a somewhat lengthy status text here".to_vec()));
    opts.insert(DhcpOption::BootfileName(b"/boot/images/pxelinux.0".to_vec()));

    // a small cap forces options to spill into the file/sname fields
    let mut buf = Vec::new();
    msg.encode_overloaded(&mut buf, 300).expect("encode");
    assert!(buf.len() <= 300);

    let decoded = Message::decode(&buf).expect("decode");
    for opt in msg.opts().options() {
        let code = opt.code();
        assert_eq!(decoded.opts().get(code), Some(opt), "lost option {code:?}");
    }
}

#[test]
fn encode_overloaded_no_spill_matches_encode() {
    // when everything fits, encode_overloaded == encode (no option 52)
    let mut msg = Message::default();
    msg.opts_mut().insert(DhcpOption::MessageType(MessageType::Ack));

    let mut a = Vec::new();
    msg.encode(&mut a);
    let mut b = Vec::new();
    msg.encode_overloaded(&mut b, 576).expect("encode");
    assert_eq!(a, b);
}

#[test]
fn test_set_chaddr() {
    let mut msg = Message::new(0, 0, 0, 0, &[0, 1, 2, 3, 4, 5, 6, 7, 8, 9, 10, 11, 12, 13, 14, 15]);
    msg.set_chaddr(&[0, 1, 2, 3, 4, 5]);
    assert_eq!(msg.chaddr().len(), 6);

    msg.set_chaddr(&[
        0, 1, 2, 3, 4, 5, 6, 7, 8, 9, 10, 11, 12, 13, 14, 15, 16, 17, 18, 19, 20, 21,
    ]);
    assert_eq!(msg.chaddr().len(), 16);
}

/// Build a raw DHCPv4 message with the given option-52 overload value and the
/// given raw contents placed in the `sname`/`file` fields and the main
/// options area. The overload option and an `End` are appended to `main_opts`.
fn overload_msg(overload: u8, main_opts: &[u8], sname_opts: &[u8], file_opts: &[u8]) -> Vec<u8> {
    let mut v = Vec::new();
    v.extend_from_slice(&[1, 1, 6, 0]); // op, htype, hlen, hops
    v.extend_from_slice(&[0x12, 0x34, 0x56, 0x78]); // xid
    v.extend_from_slice(&[0, 0]); // secs
    v.extend_from_slice(&[0, 0]); // flags
    v.extend_from_slice(&[0; 16]); // ciaddr, yiaddr, siaddr, giaddr
    v.extend_from_slice(&[0; 16]); // chaddr
    let mut sname = [0u8; 64];
    sname[..sname_opts.len()].copy_from_slice(sname_opts);
    v.extend_from_slice(&sname);
    let mut file = [0u8; 128];
    file[..file_opts.len()].copy_from_slice(file_opts);
    v.extend_from_slice(&file);
    v.extend_from_slice(&MAGIC);
    v.extend_from_slice(main_opts);
    v.extend_from_slice(&[52, 1, overload]); // option overload
    v.push(255); // end
    v
}

#[test]
fn decode_option_overload_both() {
    // sname holds Hostname("host"), file holds DomainName("example")
    let sname_opts = [12u8, 4, b'h', b'o', b's', b't', 255];
    let file_opts = [15u8, 7, b'e', b'x', b'a', b'm', b'p', b'l', b'e', 255];
    let bytes = overload_msg(3, &[53, 1, 1], &sname_opts, &file_opts);
    let msg = Message::decode(&bytes).expect("decode");

    assert_eq!(msg.opts().msg_type(), Some(MessageType::Discover));
    assert_eq!(
        msg.opts().get(OptionCode::Hostname),
        Some(&DhcpOption::Hostname(b"host".to_vec()))
    );
    assert_eq!(
        msg.opts().get(OptionCode::DomainName),
        Some(&DhcpOption::DomainName(b"example".to_vec()))
    );
    // marker stripped; fields consumed as options
    assert!(!msg.opts().contains(OptionCode::OptionOverload));
    assert!(msg.sname().is_none());
    assert!(msg.fname().is_none());
}

#[test]
fn decode_option_overload_file_only() {
    let file_opts = [15u8, 7, b'e', b'x', b'a', b'm', b'p', b'l', b'e', 255];
    // value 1 overloads only `file`; sname stays a plain (nul-terminated) name
    let bytes = overload_msg(1, &[53, 1, 1], b"myhost", &file_opts);
    let msg = Message::decode(&bytes).expect("decode");

    assert_eq!(
        msg.opts().get(OptionCode::DomainName),
        Some(&DhcpOption::DomainName(b"example".to_vec()))
    );
    // sname preserved, with its terminating NUL
    assert_eq!(msg.sname(), Some(&b"myhost\0"[..]));
    // sname was NOT parsed as options
    assert!(!msg.opts().contains(OptionCode::Hostname));
}

#[test]
fn decode_option_overload_sname_only() {
    let sname_opts = [12u8, 4, b'h', b'o', b's', b't', 255];
    // value 2 overloads only `sname`; file stays a plain (nul-terminated) name
    let bytes = overload_msg(2, &[53, 1, 1], &sname_opts, b"boot.img");
    let msg = Message::decode(&bytes).expect("decode");

    assert_eq!(
        msg.opts().get(OptionCode::Hostname),
        Some(&DhcpOption::Hostname(b"host".to_vec()))
    );
    assert_eq!(msg.fname(), Some(&b"boot.img\0"[..]));
    assert!(!msg.opts().contains(OptionCode::DomainName));
}

#[test]
fn decode_option_overload_rfc3396_split() {
    // A DomainName whose value is split across the `file` (part 1) and
    // `sname` (part 2) regions must be reassembled per RFC 3396. Each region
    // holds one same-code fragment; after concatenation the value is "abcdef".
    let file_opts = [15u8, 3, b'a', b'b', b'c', 255];
    let sname_opts = [15u8, 3, b'd', b'e', b'f', 255];
    let bytes = overload_msg(3, &[53, 1, 1], &sname_opts, &file_opts);
    let msg = Message::decode(&bytes).expect("decode");

    assert_eq!(
        msg.opts().get(OptionCode::DomainName),
        Some(&DhcpOption::DomainName(b"abcdef".to_vec()))
    );
}

#[test]
fn decode_option_overload_rfc3396_split_main_to_file() {
    // Part 1 is the last real option in the MAIN field; the option-52 marker
    // (appended after it by overload_msg) sits between the fragments on the
    // wire. Reassembly must still span main -> file across that marker.
    let main = [53u8, 1, 1, 15, 3, b'a', b'b', b'c'];
    let file_opts = [15u8, 3, b'd', b'e', b'f', 255];
    let bytes = overload_msg(1, &main, &[], &file_opts);
    let msg = Message::decode(&bytes).expect("decode");

    assert_eq!(
        msg.opts().get(OptionCode::DomainName),
        Some(&DhcpOption::DomainName(b"abcdef".to_vec()))
    );
}

#[test]
fn decode_option_overload_split_across_padded_region() {
    // The file field holds part 1 but is not End-terminated, so overload_msg
    // zero-pads it. Those Pad bytes must not break reassembly with part 2 in
    // the sname field.
    let file_opts = [15u8, 3, b'a', b'b', b'c']; // no End -> Pad-filled
    let sname_opts = [15u8, 3, b'd', b'e', b'f', 255];
    let bytes = overload_msg(3, &[53, 1, 1], &sname_opts, &file_opts);
    let msg = Message::decode(&bytes).expect("decode");

    assert_eq!(
        msg.opts().get(OptionCode::DomainName),
        Some(&DhcpOption::DomainName(b"abcdef".to_vec()))
    );
}

#[test]
fn decode_option_overload_empty_fields() {
    // overload says "both", but the fields are all zero (Pad) - a no-op
    let bytes = overload_msg(3, &[53, 1, 1], &[], &[]);
    let msg = Message::decode(&bytes).expect("decode");

    assert_eq!(msg.opts().msg_type(), Some(MessageType::Discover));
    assert!(!msg.opts().contains(OptionCode::OptionOverload));
    assert!(msg.sname().is_none());
    assert!(msg.fname().is_none());
}

#[test]
fn decode_option_overload_absent() {
    // No option 52: sname/file are ordinary name fields and are NOT parsed
    // as options even if they happen to look like one.
    let bytes = overload_msg(0, &[53, 1, 1], b"srv", b"boot.img");
    // overload_msg still appends `52,1,0`; a zero value means "not overloaded"
    let msg = Message::decode(&bytes).expect("decode");

    assert_eq!(msg.sname(), Some(&b"srv\0"[..]));
    assert_eq!(msg.fname(), Some(&b"boot.img\0"[..]));
    // a zero-valued overload option is left as-is in the map
    assert!(msg.opts().contains(OptionCode::OptionOverload));
}

fn offer() -> Vec<u8> {
    vec![
        0x02, 0x01, 0x06, 0x00, 0x00, 0x00, 0x15, 0x5c, 0x00, 0x00, 0x80, 0x00, 0x00, 0x00,
        0x00, 0x00, 0xc0, 0xa8, 0x00, 0x03, 0x00, 0x00, 0x00, 0x00, 0x00, 0x00, 0x00, 0x00,
        0xcc, 0x00, 0x0a, 0xc4, 0x00, 0x00, 0x00, 0x00, 0x00, 0x00, 0x00, 0x00, 0x00, 0x00,
        0x00, 0x00, 0x00, 0x00, 0x00, 0x00, 0x00, 0x00, 0x00, 0x00, 0x00, 0x00, 0x00, 0x00,
        0x00, 0x00, 0x00, 0x00, 0x00, 0x00, 0x00, 0x00, 0x00, 0x00, 0x00, 0x00, 0x00, 0x00,
        0x00, 0x00, 0x00, 0x00, 0x00, 0x00, 0x00, 0x00, 0x00, 0x00, 0x00, 0x00, 0x00, 0x00,
        0x00, 0x00, 0x00, 0x00, 0x00, 0x00, 0x00, 0x00, 0x00, 0x00, 0x00, 0x00, 0x00, 0x00,
        0x00, 0x00, 0x00, 0x00, 0x00, 0x00, 0x00, 0x00, 0x00, 0x00, 0x00, 0x00, 0x00, 0x00,
        0x00, 0x00, 0x00, 0x00, 0x00, 0x00, 0x00, 0x00, 0x00, 0x00, 0x00, 0x00, 0x00, 0x00,
        0x00, 0x00, 0x00, 0x00, 0x00, 0x00, 0x00, 0x00, 0x00, 0x00, 0x00, 0x00, 0x00, 0x00,
        0x00, 0x00, 0x00, 0x00, 0x00, 0x00, 0x00, 0x00, 0x00, 0x00, 0x00, 0x00, 0x00, 0x00,
        0x00, 0x00, 0x00, 0x00, 0x00, 0x00, 0x00, 0x00, 0x00, 0x00, 0x00, 0x00, 0x00, 0x00,
        0x00, 0x00, 0x00, 0x00, 0x00, 0x00, 0x00, 0x00, 0x00, 0x00, 0x00, 0x00, 0x00, 0x00,
        0x00, 0x00, 0x00, 0x00, 0x00, 0x00, 0x00, 0x00, 0x00, 0x00, 0x00, 0x00, 0x00, 0x00,
        0x00, 0x00, 0x00, 0x00, 0x00, 0x00, 0x00, 0x00, 0x00, 0x00, 0x00, 0x00, 0x00, 0x00,
        0x00, 0x00, 0x00, 0x00, 0x00, 0x00, 0x00, 0x00, 0x00, 0x00, 0x00, 0x00, 0x00, 0x00,
        0x00, 0x00, 0x00, 0x00, 0x00, 0x00, 0x00, 0x00, 0x00, 0x00, 0x00, 0x00, 0x63, 0x82,
        0x53, 0x63, 0x35, 0x01, 0x02, 0x36, 0x04, 0xc0, 0xa8, 0x00, 0x01, 0x33, 0x04, 0x00,
        0x00, 0x00, 0x3c, 0x3a, 0x04, 0x00, 0x00, 0x00, 0x1e, 0x3b, 0x04, 0x00, 0x00, 0x00,
        0x34, 0x01, 0x04, 0xff, 0xff, 0xff, 0x00, 0x03, 0x04, 0xc0, 0xa8, 0x00, 0x01, 0x06,
        0x08, 0xc0, 0xa8, 0x00, 0x01, 0xc0, 0xa8, 0x01, 0x01, 0xff, 0x00, 0x00, 0x00, 0x00,
        0x00, 0x00, 0x00, 0x00, 0x00, 0x00,
    ]
}

fn bootreq() -> Vec<u8> {
    vec![
        1u8, // op
        2,   // htype
        3,   // hlen
        4,   // ops
        5, 6, 7, 8, // xid
        9, 10, // secs
        11, 12, // flags
        13, 14, 15, 16, // ciaddr
        17, 18, 19, 20, // yiaddr
        21, 22, 23, 24, // siaddr
        25, 26, 27, 28, // giaddr
        29, 30, 31, 32, 33, 34, 35, 36, 37, 38, 39, 40, 41, 42, 43, 44, // chaddr
        45, 46, 47, 48, 49, 50, 51, 52, 53, 54, 55, 56, 57, 58, 59, 60, 61, 62, 63, 64, 65, 66,
        67, 68, 69, 70, 71, 72, 73, 74, 75, 76, 77, 78, 79, 80, 81, 82, 83, 84, 85, 86, 87, 88,
        89, 90, 91, 92, 93, 94, 95, 96, 97, 98, 99, 100, 101, 102, 103, 104, 105, 106, 107,
        0, // sname: "-./0123456789:;<=>?@ABCDEFGHIJKLMNOPQRSTUVWXYZ[\\]^_`abcdefghijk",
        109, 110, 111, 112, 113, 114, 115, 116, 117, 118, 119, 120, 121, 122, 123, 124, 125,
        109, 110, 111, 112, 113, 114, 115, 116, 117, 118, 119, 120, 121, 122, 123, 124, 125,
        109, 110, 111, 112, 113, 114, 115, 116, 117, 118, 119, 120, 121, 122, 123, 124, 125,
        109, 110, 111, 112, 113, 114, 115, 116, 117, 118, 119, 120, 121, 122, 123, 124, 125,
        109, 110, 111, 112, 113, 114, 115, 116, 117, 118, 119, 120, 121, 122, 123, 124, 125,
        109, 110, 111, 112, 113, 114, 115, 116, 117, 118, 119, 120, 121, 122, 123, 124, 125,
        109, 110, 111, 112, 113, 114, 115, 116, 117, 118, 119, 120, 121, 122, 123, 124, 125,
        109, 0, 0, 0, 0, 0, 0, 0,
        0, // file: "mnopqrstuvwxyz{|}mnopqrstuvwxyz{|}mnopqrstuvwxyz{|}mnopqrstuvwxyz{|}mnopqrstuvwxyz{|}mnopqrstuvwxyz{|}mnopqrstuvwxyz{|}m",
        99, 130, 83, 99, // magic cookie
    ]
}

fn discover() -> Vec<u8> {
    vec![
        0x01, 0x01, 0x06, 0x00, 0xa6, 0x80, 0x56, 0x74, 0x00, 0x00, 0x80, 0x00, 0x00, 0x00,
        0x00, 0x00, 0x00, 0x00, 0x00, 0x00, 0x00, 0x00, 0x00, 0x00, 0x00, 0x00, 0x00, 0x00,
        0xde, 0xad, 0xc0, 0xde, 0xca, 0xfe, 0x00, 0x00, 0x00, 0x00, 0x00, 0x00, 0x00, 0x00,
        0x00, 0x00, 0x00, 0x00, 0x00, 0x00, 0x00, 0x00, 0x00, 0x00, 0x00, 0x00, 0x00, 0x00,
        0x00, 0x00, 0x00, 0x00, 0x00, 0x00, 0x00, 0x00, 0x00, 0x00, 0x00, 0x00, 0x00, 0x00,
        0x00, 0x00, 0x00, 0x00, 0x00, 0x00, 0x00, 0x00, 0x00, 0x00, 0x00, 0x00, 0x00, 0x00,
        0x00, 0x00, 0x00, 0x00, 0x00, 0x00, 0x00, 0x00, 0x00, 0x00, 0x00, 0x00, 0x00, 0x00,
        0x00, 0x00, 0x00, 0x00, 0x00, 0x00, 0x00, 0x00, 0x00, 0x00, 0x00, 0x00, 0x00, 0x00,
        0x00, 0x00, 0x00, 0x00, 0x00, 0x00, 0x00, 0x00, 0x00, 0x00, 0x00, 0x00, 0x00, 0x00,
        0x00, 0x00, 0x00, 0x00, 0x00, 0x00, 0x00, 0x00, 0x00, 0x00, 0x00, 0x00, 0x00, 0x00,
        0x00, 0x00, 0x00, 0x00, 0x00, 0x00, 0x00, 0x00, 0x00, 0x00, 0x00, 0x00, 0x00, 0x00,
        0x00, 0x00, 0x00, 0x00, 0x00, 0x00, 0x00, 0x00, 0x00, 0x00, 0x00, 0x00, 0x00, 0x00,
        0x00, 0x00, 0x00, 0x00, 0x00, 0x00, 0x00, 0x00, 0x00, 0x00, 0x00, 0x00, 0x00, 0x00,
        0x00, 0x00, 0x00, 0x00, 0x00, 0x00, 0x00, 0x00, 0x00, 0x00, 0x00, 0x00, 0x00, 0x00,
        0x00, 0x00, 0x00, 0x00, 0x00, 0x00, 0x00, 0x00, 0x00, 0x00, 0x00, 0x00, 0x00, 0x00,
        0x00, 0x00, 0x00, 0x00, 0x00, 0x00, 0x00, 0x00, 0x00, 0x00, 0x00, 0x00, 0x00, 0x00,
        0x00, 0x00, 0x00, 0x00, 0x00, 0x00, 0x00, 0x00, 0x00, 0x00, 0x00, 0x00, 0x63, 0x82,
        0x53, 0x63, 0x35, 0x01, 0x01, 0x37, 0x40, 0xfc, 0x01, 0x02, 0x03, 0x04, 0x05, 0x06,
        0x07, 0x08, 0x09, 0x0a, 0x0b, 0x0c, 0x0d, 0x0e, 0x0f, 0x10, 0x11, 0x12, 0x13, 0x14,
        0x15, 0x16, 0x17, 0x18, 0x19, 0x1a, 0x1b, 0x1c, 0x1d, 0x1e, 0x1f, 0x20, 0x21, 0x22,
        0x23, 0x24, 0x25, 0x26, 0x27, 0x28, 0x29, 0x2a, 0x2b, 0x2c, 0x2d, 0x2e, 0x2f, 0x30,
        0x31, 0x32, 0x33, 0x34, 0x35, 0x36, 0x37, 0x38, 0x39, 0x3a, 0x3b, 0x3c, 0x3d, 0x43,
        0x42, 0x33, 0x04, 0x00, 0x00, 0x00, 0x01, 0xff,
    ]
}

fn other_offer() -> Vec<u8> {
    vec![
        0x02, 0x01, 0x06, 0x00, 0xa6, 0x80, 0x56, 0x74, 0x00, 0x00, 0x80, 0x00, 0x00, 0x00,
        0x00, 0x00, 0xc0, 0xa8, 0x00, 0x95, 0xc0, 0xa8, 0x00, 0x01, 0x00, 0x00, 0x00, 0x00,
        0xde, 0xad, 0xc0, 0xde, 0xca, 0xfe, 0x00, 0x00, 0x00, 0x00, 0x00, 0x00, 0x00, 0x00,
        0x00, 0x00, 0x00, 0x00, 0x00, 0x00, 0x00, 0x00, 0x00, 0x00, 0x00, 0x00, 0x00, 0x00,
        0x00, 0x00, 0x00, 0x00, 0x00, 0x00, 0x00, 0x00, 0x00, 0x00, 0x00, 0x00, 0x00, 0x00,
        0x00, 0x00, 0x00, 0x00, 0x00, 0x00, 0x00, 0x00, 0x00, 0x00, 0x00, 0x00, 0x00, 0x00,
        0x00, 0x00, 0x00, 0x00, 0x00, 0x00, 0x00, 0x00, 0x00, 0x00, 0x00, 0x00, 0x00, 0x00,
        0x00, 0x00, 0x00, 0x00, 0x00, 0x00, 0x00, 0x00, 0x00, 0x00, 0x00, 0x00, 0x00, 0x00,
        0x00, 0x00, 0x00, 0x00, 0x00, 0x00, 0x00, 0x00, 0x00, 0x00, 0x00, 0x00, 0x00, 0x00,
        0x00, 0x00, 0x00, 0x00, 0x00, 0x00, 0x00, 0x00, 0x00, 0x00, 0x00, 0x00, 0x00, 0x00,
        0x00, 0x00, 0x00, 0x00, 0x00, 0x00, 0x00, 0x00, 0x00, 0x00, 0x00, 0x00, 0x00, 0x00,
        0x00, 0x00, 0x00, 0x00, 0x00, 0x00, 0x00, 0x00, 0x00, 0x00, 0x00, 0x00, 0x00, 0x00,
        0x00, 0x00, 0x00, 0x00, 0x00, 0x00, 0x00, 0x00, 0x00, 0x00, 0x00, 0x00, 0x00, 0x00,
        0x00, 0x00, 0x00, 0x00, 0x00, 0x00, 0x00, 0x00, 0x00, 0x00, 0x00, 0x00, 0x00, 0x00,
        0x00, 0x00, 0x00, 0x00, 0x00, 0x00, 0x00, 0x00, 0x00, 0x00, 0x00, 0x00, 0x00, 0x00,
        0x00, 0x00, 0x00, 0x00, 0x00, 0x00, 0x00, 0x00, 0x00, 0x00, 0x00, 0x00, 0x00, 0x00,
        0x00, 0x00, 0x00, 0x00, 0x00, 0x00, 0x00, 0x00, 0x00, 0x00, 0x00, 0x00, 0x63, 0x82,
        0x53, 0x63, 0x35, 0x01, 0x02, 0x36, 0x04, 0xc0, 0xa8, 0x00, 0x01, 0x33, 0x04, 0x00,
        0x00, 0x00, 0x78, 0x3a, 0x04, 0x00, 0x00, 0x00, 0x3c, 0x3b, 0x04, 0x00, 0x00, 0x00,
        0x69, 0x01, 0x04, 0xff, 0xff, 0xff, 0x00, 0x1c, 0x04, 0xc0, 0xa8, 0x00, 0xff, 0x06,
        0x04, 0xc0, 0xa8, 0x00, 0x01, 0x03, 0x04, 0xc0, 0xa8, 0x00, 0x01, 0xff, 0x00, 0x00,
        0x00, 0x00, 0x00, 0x00, 0x00, 0x00,
    ]
}
