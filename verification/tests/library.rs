use usg_dhcproto::error::{DecodeError, EncodeError};
use usg_dhcproto::header::{Flags, HType, Opcode};
use usg_dhcproto::hex::{bytes_to_colon_hex, bytes_to_hex};
use usg_dhcproto::message::{Message, CLIENT_PORT, MAGIC, MIN_PACKET_SIZE, SERVER_PORT};
use usg_dhcproto::options::{DhcpOption, DhcpOptions, MessageType, OptionCode, UnknownOption};
use usg_dhcproto::overload::append_region_options;
use usg_dhcproto::wire::trim_nul;

fn header(overload_marker: bool) -> Vec<u8> {
    let mut v = vec![2u8, 1, 6, 0, 0xaa, 0xbb, 0xcc, 0xdd, 0, 3, 0x80, 0];
    v.extend_from_slice(&[10, 0, 0, 1, 10, 0, 0, 2, 10, 0, 0, 3, 10, 0, 0, 4]);
    v.extend_from_slice(&[1, 2, 3, 4, 5, 6, 0, 0, 0, 0, 0, 0, 0, 0, 0, 0]);
    v.extend_from_slice(&[0u8; 192]);
    v.extend_from_slice(&MAGIC);
    if overload_marker {
        v.extend_from_slice(&[52, 1, 3]);
    }
    v
}

#[test]
fn hex_keeps_leading_zero_digits() {
    assert_eq!(bytes_to_hex(&[0x01, 0x0a, 0xf0]), "010af0");
    assert_eq!(bytes_to_hex(&[]), "");
}

#[test]
fn colon_hex_separates_bytes() {
    assert_eq!(bytes_to_colon_hex(&[0xde, 0xad, 0xc0, 0xde, 0xca, 0xfe]), "de:ad:c0:de:ca:fe");
    assert_eq!(bytes_to_colon_hex(&[0x05]), "05");
    assert_eq!(bytes_to_colon_hex(&[]), "");
}

#[test]
fn constants_hold_their_values() {
    assert_eq!(MAGIC, [99, 130, 83, 99]);
    assert_eq!(MIN_PACKET_SIZE, 300);
    assert_eq!(SERVER_PORT, 67);
    assert_eq!(CLIENT_PORT, 68);
}

#[test]
fn flags_broadcast_bit() {
    let f = Flags::default();
    assert_eq!(f.bits(), 0);
    assert!(!f.broadcast());
    let b = f.set_broadcast();
    assert!(b.broadcast());
    assert_eq!(b.bits(), 0x8000);
    let g = Flags::new(0x8001).set_broadcast();
    assert_eq!(g.bits(), 0x8001);
    assert_eq!(Flags::new(0x0003).set_broadcast().bits(), 0x8003);
}

#[test]
fn header_codes_round_trip() {
    assert_eq!(Opcode::from_u8(1), Opcode::BootRequest);
    assert_eq!(Opcode::from_u8(2), Opcode::BootReply);
    assert_eq!(Opcode::from_u8(7).to_u8(), 7);
    assert_eq!(HType::from_u8(1), HType::Eth);
    assert_eq!(HType::from_u8(200).to_u8(), 200);
    assert_eq!(OptionCode::from_u8(53), OptionCode::MessageType);
    assert_eq!(OptionCode::from_u8(99), OptionCode::Unknown(99));
    assert_eq!(OptionCode::Unknown(99).to_u8(), 99);
    assert_eq!(MessageType::from_u8(5), MessageType::Ack);
    assert_eq!(MessageType::from_u8(42).to_u8(), 42);
}

#[test]
fn trim_nul_cases() {
    assert_eq!(trim_nul(&[0, 1, 2]), None);
    assert_eq!(trim_nul(&[]), None);
    assert_eq!(trim_nul(b"ab\0cd\0"), Some(b"ab\0".to_vec()));
    assert_eq!(trim_nul(b"abc"), Some(b"abc".to_vec()));
}

#[test]
fn region_options_drops_pad_marker_and_stops() {
    let mut out = vec![9u8];
    append_region_options(&mut out, &[0, 0, 12, 2, b'h', b'i', 52, 1, 3, 15, 1, b'x', 255, 12, 1, b'z']);
    assert_eq!(out, vec![9u8, 12, 2, b'h', b'i', 15, 1, b'x']);
    // a truncated option ends the region
    let mut out2 = Vec::new();
    append_region_options(&mut out2, &[12, 1, b'a', 15, 9, b'b']);
    assert_eq!(out2, vec![12u8, 1, b'a']);
    // a code with no length byte ends the region
    let mut out3 = Vec::new();
    append_region_options(&mut out3, &[12]);
    assert!(out3.is_empty());
}

#[test]
fn store_insert_get_remove() {
    let mut opts = DhcpOptions::new();
    assert!(opts.is_empty());
    assert_eq!(opts.insert(DhcpOption::Hostname(b"a".to_vec())), None);
    assert_eq!(opts.insert(DhcpOption::MessageType(MessageType::Request)), None);
    let old = opts.insert(DhcpOption::Hostname(b"b".to_vec()));
    assert_eq!(old, Some(DhcpOption::Hostname(b"a".to_vec())));
    assert_eq!(opts.len(), 2);
    assert_eq!(opts.get(OptionCode::Hostname), Some(&DhcpOption::Hostname(b"b".to_vec())));
    assert_eq!(opts.msg_type(), Some(MessageType::Request));
    // kept in ascending order of code
    let codes: Vec<OptionCode> = opts.options().iter().map(|o| o.code()).collect();
    assert_eq!(codes, vec![OptionCode::Hostname, OptionCode::MessageType]);
    // Pad and End are not held
    let pad = DhcpOption::Unknown(UnknownOption::new(OptionCode::Pad, vec![1]));
    assert_eq!(opts.insert(pad), None);
    assert_eq!(opts.len(), 2);
    assert_eq!(opts.remove(OptionCode::Hostname), Some(DhcpOption::Hostname(b"b".to_vec())));
    assert!(!opts.contains(OptionCode::Hostname));
    assert_eq!(opts.remove(OptionCode::Hostname), None);
    assert_eq!(opts.len(), 1);
}

#[test]
fn option_from_raw_and_payload() {
    assert_eq!(DhcpOption::from_raw(53, vec![3]), DhcpOption::MessageType(MessageType::Request));
    assert_eq!(DhcpOption::from_raw(52, vec![2]), DhcpOption::OptionOverload(2));
    let odd = DhcpOption::from_raw(53, vec![3, 4]);
    assert_eq!(odd, DhcpOption::Unknown(UnknownOption::new(OptionCode::MessageType, vec![3, 4])));
    assert_eq!(
        DhcpOption::from_raw(55, vec![1, 3, 6]),
        DhcpOption::ParameterRequestList(vec![OptionCode::SubnetMask, OptionCode::Router, OptionCode::DomainNameServer])
    );
    assert_eq!(DhcpOption::ParameterRequestList(vec![OptionCode::Router]).payload(), vec![3u8]);
    let u = UnknownOption::new(OptionCode::Unknown(200), vec![7, 8]);
    assert_eq!(u.code(), OptionCode::Unknown(200));
    assert_eq!(u.data(), &[7u8, 8][..]);
    let mut buf = Vec::new();
    DhcpOption::Hostname(b"ab".to_vec()).encode(&mut buf);
    assert_eq!(buf, vec![12u8, 2, b'a', b'b']);
}

#[test]
fn long_option_is_split_and_joined() {
    let long: Vec<u8> = (0..300u32).map(|i| (i % 251) as u8).collect();
    let mut buf = Vec::new();
    DhcpOption::Hostname(long.clone()).encode(&mut buf);
    assert_eq!(buf.len(), 304);
    assert_eq!(&buf[0..2], &[12u8, 255]);
    assert_eq!(&buf[257..259], &[12u8, 45]);
    let opts = DhcpOptions::decode(&buf);
    assert_eq!(opts.get(OptionCode::Hostname), Some(&DhcpOption::Hostname(long)));
}

#[test]
fn options_decode_joins_fragments_and_skips_pad() {
    let bytes = [0u8, 15, 2, b'a', b'b', 0, 53, 1, 2, 15, 1, b'c', 255, 12, 1, b'z'];
    let opts = DhcpOptions::decode(&bytes);
    assert_eq!(opts.get(OptionCode::DomainName), Some(&DhcpOption::DomainName(b"abc".to_vec())));
    assert_eq!(opts.msg_type(), Some(MessageType::Offer));
    assert!(!opts.contains(OptionCode::Hostname));
    let mut out = Vec::new();
    opts.encode(&mut out);
    assert_eq!(out, vec![15u8, 3, b'a', b'b', b'c', 53, 1, 2, 255]);
    let mut none = Vec::new();
    DhcpOptions::new().encode(&mut none);
    assert!(none.is_empty());
}

#[test]
fn decode_reports_short_input() {
    let bytes = vec![0u8; 239];
    assert_eq!(Message::decode(&bytes), Err(DecodeError::NotEnoughBytes));
}

#[test]
fn decode_reports_bad_cookie_value() {
    let mut bytes = header(false);
    bytes[236] = 0;
    assert_eq!(Message::decode(&bytes), Err(DecodeError::InvalidData(0x0082_5363, "invalid DHCP magic cookie")));
}

#[test]
fn decode_reads_header_fields() {
    let mut bytes = header(false);
    bytes.push(255);
    let msg = Message::decode(&bytes).expect("decode");
    assert_eq!(msg.opcode(), Opcode::BootReply);
    assert_eq!(msg.htype(), HType::Eth);
    assert_eq!(msg.hlen(), 6);
    assert_eq!(msg.hops(), 0);
    assert_eq!(msg.xid(), 0xaabb_ccdd);
    assert_eq!(msg.secs(), 3);
    assert!(msg.flags().broadcast());
    assert_eq!(msg.ciaddr(), 0x0a00_0001);
    assert_eq!(msg.yiaddr(), 0x0a00_0002);
    assert_eq!(msg.siaddr(), 0x0a00_0003);
    assert_eq!(msg.giaddr(), 0x0a00_0004);
    assert_eq!(msg.chaddr(), &[1u8, 2, 3, 4, 5, 6][..]);
    assert!(msg.sname().is_none());
    assert!(msg.fname().is_none());
    assert!(msg.opts().is_empty());
}

#[test]
fn new_with_id_builds_a_boot_request() {
    let msg = Message::new_with_id(7, 1, 2, 3, 4, &[0xde, 0xad]);
    assert_eq!(msg.xid(), 7);
    assert_eq!(msg.opcode(), Opcode::BootRequest);
    assert_eq!(msg.htype(), HType::Eth);
    assert_eq!(msg.hlen(), 2);
    assert_eq!(msg.chaddr(), &[0xde, 0xad][..]);
    assert_eq!((msg.ciaddr(), msg.yiaddr(), msg.siaddr(), msg.giaddr()), (1, 2, 3, 4));
    let mut buf = Vec::new();
    msg.encode(&mut buf);
    assert_eq!(buf.len(), 240);
    assert_eq!(&buf[28..34], &[0xde, 0xad, 0, 0, 0, 0]);
}

#[test]
fn setters_change_one_field() {
    let mut msg = Message::new_with_id(1, 0, 0, 0, 0, &[]);
    msg.set_xid(9).set_secs(4).set_hops(2).set_opcode(Opcode::BootReply).set_htype(HType::from_u8(6));
    msg.set_flags(Flags::default().set_broadcast());
    msg.set_ciaddr(11).set_yiaddr(12).set_siaddr(13).set_giaddr(14);
    assert_eq!(msg.xid(), 9);
    assert_eq!(msg.secs(), 4);
    assert_eq!(msg.hops(), 2);
    assert_eq!(msg.opcode(), Opcode::BootReply);
    assert_eq!(msg.htype().to_u8(), 6);
    assert!(msg.flags().broadcast());
    assert_eq!((msg.ciaddr(), msg.yiaddr(), msg.siaddr(), msg.giaddr()), (11, 12, 13, 14));
    msg.clear_addrs();
    assert_eq!((msg.ciaddr(), msg.yiaddr(), msg.siaddr(), msg.giaddr()), (0, 0, 0, 0));
    let mut opts = DhcpOptions::new();
    opts.insert(DhcpOption::MessageType(MessageType::Inform));
    msg.set_opts(opts);
    assert_eq!(msg.opts().msg_type(), Some(MessageType::Inform));
}

#[test]
fn names_as_text() {
    let mut msg = Message::new_with_id(1, 0, 0, 0, 0, &[]);
    assert!(msg.fname_str().is_none());
    msg.set_fname_str("boot.img");
    assert_eq!(msg.fname(), Some(&b"boot.img"[..]));
    assert_eq!(msg.fname_str().unwrap().unwrap(), "boot.img");
    msg.set_sname(&[0xff, 0xfe]);
    assert!(msg.sname_str().unwrap().is_err());
    msg.set_sname_str("srv");
    assert_eq!(msg.sname_str().unwrap().unwrap(), "srv");
    msg.clear_sname();
    msg.clear_fname();
    assert!(msg.sname().is_none());
    assert!(msg.fname().is_none());
}

#[test]
fn encode_then_decode_gives_the_message_back() {
    let mut msg = Message::new_with_id(0x1234, 1, 2, 3, 4, &[1, 2, 3, 4, 5, 6]);
    msg.set_sname(b"server\0").set_fname(b"pxelinux.0\0");
    msg.opts_mut().insert(DhcpOption::MessageType(MessageType::Discover));
    msg.opts_mut().insert(DhcpOption::ClientIdentifier(vec![1, 2, 3]));
    let mut buf = Vec::new();
    msg.encode(&mut buf);
    let back = Message::decode(&buf).expect("decode");
    assert_eq!(back, msg);
}

#[test]
fn encode_overloaded_rejects_an_option_too_large_for_every_field() {
    let mut msg = Message::new_with_id(1, 0, 0, 0, 0, &[]);
    msg.opts_mut().insert(DhcpOption::Message(vec![b'm'; 200]));
    let mut buf = vec![1u8, 2];
    let r = msg.encode_overloaded(&mut buf, 300);
    assert_eq!(r, Err(EncodeError::MessageTooLarge { max_len: 300 }));
    assert_eq!(buf, vec![1u8, 2]);
}

#[test]
fn encode_overloaded_marks_and_clears_used_fields() {
    let mut msg = Message::new_with_id(1, 0, 0, 0, 0, &[]);
    msg.set_fname(b"old-file\0").set_sname(b"old-server\0");
    msg.opts_mut().insert(DhcpOption::Hostname(vec![b'h'; 40]));
    msg.opts_mut().insert(DhcpOption::DomainName(vec![b'd'; 40]));
    let mut buf = Vec::new();
    msg.encode_overloaded(&mut buf, 300).expect("encode");
    assert!(buf.len() <= 300);
    assert_eq!(&buf[240..243], &[52u8, 1, 1]);
    let back = Message::decode(&buf).expect("decode");
    // the file field held options; the sname field kept its name
    assert!(back.fname().is_none());
    assert_eq!(back.sname(), Some(&b"old-server\0"[..]));
    assert!(!back.opts().contains(OptionCode::OptionOverload));
    assert_eq!(back.opts().get(OptionCode::Hostname), Some(&DhcpOption::Hostname(vec![b'h'; 40])));
    assert_eq!(back.opts().get(OptionCode::DomainName), Some(&DhcpOption::DomainName(vec![b'd'; 40])));
}

#[test]
fn decode_with_overload_in_main_field_only() {
    let mut bytes = header(true);
    bytes.extend_from_slice(&[53, 1, 3, 255]);
    let msg = Message::decode(&bytes).expect("decode");
    assert_eq!(msg.opts().msg_type(), Some(MessageType::Request));
    assert!(!msg.opts().contains(OptionCode::OptionOverload));
    assert!(msg.sname().is_none());
    assert!(msg.fname().is_none());
}

#[test]
fn encode_overloaded_without_spill_fits_max_len() {
    let mut msg = Message::new_with_id(1, 0, 0, 0, 0, &[]);
    msg.opts_mut().insert(DhcpOption::OptionOverload(3));
    msg.opts_mut().insert(DhcpOption::Hostname(vec![b'h'; 54]));
    let mut buf = Vec::new();
    msg.encode_overloaded(&mut buf, 300).expect("encode");
    // the held option 52 takes the room kept for the marker
    assert_eq!(buf.len(), 300);
    let mut plain = Vec::new();
    msg.encode(&mut plain);
    assert_eq!(buf, plain);
}

#[test]
fn construct_and_encode_a_discover() {
    // arbitrary hardware addr
    let chaddr = vec![29u8, 30, 31, 32, 33, 34, 35, 36, 37, 38, 39, 40, 41, 42, 43, 44];
    let mut msg = Message::default();
    msg.set_flags(Flags::default().set_broadcast())
        .set_chaddr(&chaddr)
        .opts_mut()
        .insert(DhcpOption::MessageType(MessageType::Discover));
    msg.opts_mut().insert(DhcpOption::ParameterRequestList(vec![
        OptionCode::SubnetMask,
        OptionCode::Router,
        OptionCode::DomainNameServer,
        OptionCode::DomainName,
    ]));
    msg.opts_mut().insert(DhcpOption::ClientIdentifier(chaddr.clone()));

    let mut buf = Vec::new();
    msg.encode(&mut buf);
    assert_eq!(&buf[10..12], &[0x80u8, 0]);
    assert_eq!(&buf[28..44], &chaddr[..]);
    assert_eq!(&buf[236..240], &MAGIC);
    let mut opts = vec![53u8, 1, 1, 55, 4, 1, 3, 6, 15, 61, 16];
    opts.extend_from_slice(&chaddr);
    opts.push(255);
    assert_eq!(&buf[240..], &opts[..]);
    assert_eq!(Message::decode(&buf).expect("decode"), msg);
}

#[test]
fn encode_overloaded_writes_plain_whenever_it_fits() {
    let mut msg = Message::default();
    msg.opts_mut().insert(DhcpOption::MessageType(MessageType::Ack));
    let mut plain = Vec::new();
    msg.encode(&mut plain);
    assert_eq!(plain.len(), 244);
    for max_len in [244usize, 245, 246, 300] {
        let mut buf = Vec::new();
        msg.encode_overloaded(&mut buf, max_len).expect("encode");
        assert_eq!(buf, plain);
    }
}

#[test]
fn encode_overloaded_writes_plain_when_nothing_spills() {
    // a held option 52 of two payload bytes makes the plain encoding one byte
    // too long, but no option spills: the plain encoding is written
    let mut msg = Message::new_with_id(1, 0, 0, 0, 0, &[]);
    msg.opts_mut().insert(DhcpOption::Unknown(UnknownOption::new(OptionCode::OptionOverload, vec![1, 2])));
    let mut plain = Vec::new();
    msg.encode(&mut plain);
    assert_eq!(plain.len(), 245);
    let mut buf = Vec::new();
    msg.encode_overloaded(&mut buf, 244).expect("encode");
    assert_eq!(buf, plain);
    // with another option that still fits in the main field
    msg.opts_mut().insert(DhcpOption::MessageType(MessageType::Ack));
    let mut plain2 = Vec::new();
    msg.encode(&mut plain2);
    assert_eq!(plain2.len(), 248);
    let mut buf2 = Vec::new();
    msg.encode_overloaded(&mut buf2, 247).expect("encode");
    assert_eq!(buf2, plain2);
}

#[test]
fn record_fields_hlen_and_whole_chaddr() {
    let bytes = {
        let mut v = vec![1u8, 2, 3, 4, 5, 6, 7, 8, 9, 10, 11, 12];
        v.extend_from_slice(&[0u8; 16]);
        v.extend((29u8..45).collect::<Vec<u8>>());
        v.extend_from_slice(&[0u8; 192]);
        v.extend_from_slice(&MAGIC);
        v
    };
    let msg = Message::decode(&bytes).expect("decode");
    assert_eq!(msg.hlen(), 3);
    assert_eq!(msg.chaddr(), &[29u8, 30, 31][..]);
    assert_eq!(msg.chaddr_field(), &(29u8..45).collect::<Vec<u8>>()[..]);
    let mut other = Message::new_with_id(0, 0, 0, 0, 0, &[]);
    other.set_chaddr(msg.chaddr_field()).set_hlen(3);
    assert_eq!(other.chaddr(), msg.chaddr());
    assert_eq!(other.chaddr_field(), msg.chaddr_field());
}

#[test]
fn hex_of_concatenation() {
    let a = [0x12u8, 0xab];
    let b = [0x00u8, 0xff];
    let ab = [0x12u8, 0xab, 0x00, 0xff];
    assert_eq!(bytes_to_hex(&ab), bytes_to_hex(&a) + &bytes_to_hex(&b));
    assert_ne!(bytes_to_hex(&a), bytes_to_hex(&b));
}

#[test]
fn option_codes_are_named() {
    assert_eq!(DhcpOption::MessageType(MessageType::Ack).code(), OptionCode::MessageType);
    let u = UnknownOption::new(OptionCode::Unknown(53), vec![9]);
    assert_eq!(u.code(), OptionCode::MessageType);
    assert_eq!(DhcpOption::Unknown(u).code(), OptionCode::MessageType);
}
