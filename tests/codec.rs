use tcp_stack::checksum::calculate_checksum;
use tcp_stack::packet::{parse_frame, parser, IPHeader, Packet, TCPHeader, MAX_PAYLOAD};

fn ip(src: u32, dst: u32) -> IPHeader {
    IPHeader {
        version: 4,
        ihl: 5,
        type_of_service: 0,
        total_len: 0,
        identification: 7,
        flags: 2,
        fragment_offset: 0,
        ttl: 64,
        protocol: 6,
        header_checksum: 0,
        source: src,
        destination: dst,
    }
}

fn tcp(seq: u32, ack: u32, flags: u8) -> TCPHeader {
    TCPHeader {
        source_port: 5000,
        destination_port: 80,
        sequence_number: seq,
        acknowledge_number: ack,
        data_offset: 5,
        reserved: 0,
        control_bit: flags,
        window: 64240,
        checksum: 0,
        urgent_pointer: 0,
    }
}

fn sample_packet(data: Vec<u8>) -> Packet {
    Packet { ip_header: ip(0x0a00_0002, 0x0a00_0001), tcp_header: tcp(100, 0, 0x02), data }
}

#[test]
fn checksum_of_rfc1071_example() {
    let data = [0x00u8, 0x01, 0xf2, 0x03, 0xf4, 0xf5, 0xf6, 0xf7];
    assert_eq!(calculate_checksum(&data), 0x220d);
}

#[test]
fn checksum_of_ip_header_example() {
    let header = [
        0x45u8, 0x00, 0x00, 0x73, 0x00, 0x00, 0x40, 0x00, 0x40, 0x11, 0x00, 0x00, 0xc0, 0xa8,
        0x00, 0x01, 0xc0, 0xa8, 0x00, 0xc7,
    ];
    assert_eq!(calculate_checksum(&header), 0xb861);
}

#[test]
fn checksum_pads_odd_byte_and_handles_empty() {
    assert_eq!(calculate_checksum(&[0x01u8]), 0xfeff);
    assert_eq!(calculate_checksum(&[]), 0xffff);
    assert_eq!(calculate_checksum(&[0xffu8, 0xff]), 0x0000);
}

#[test]
fn checksum_folds_carries() {
    // 0xffff + 0x0002 = 0x10001, folded to 0x0002, complemented
    assert_eq!(calculate_checksum(&[0xffu8, 0xff, 0x00, 0x02]), 0xfffd);
}

#[test]
fn pseudo_header_layout() {
    let h = Packet::create_pseudo_header(0x0a000002, 0xc0a80001, 6, 0x0123);
    assert_eq!(h, vec![10, 0, 0, 2, 192, 168, 0, 1, 0, 6, 0x01, 0x23]);
}

#[test]
fn built_frame_layout() {
    let p = sample_packet(vec![1, 2, 3]);
    let f = p.create_packet();
    assert_eq!(f.len(), 4 + 40 + 3);
    assert_eq!(&f[0..4], &[0, 0, 8, 0]);
    assert_eq!(f[4], 0x45);
    assert_eq!(u16::from_be_bytes([f[6], f[7]]), 43);
    assert_eq!(f[10], 0x40);
    assert_eq!(f[12], 64);
    assert_eq!(f[13], 6);
    assert_eq!(f[4 + 20 + 12], 0x50);
    assert_eq!(&f[44..], &[1, 2, 3]);
}

#[test]
fn built_checksums_verify_on_reparse() {
    let p = sample_packet(b"hello".to_vec());
    let f = p.create_packet();
    assert_eq!(calculate_checksum(&f[4..24]), 0);
    let mut input = Packet::create_pseudo_header(0x0a00_0002, 0x0a00_0001, 6, (f.len() - 24) as u16);
    input.extend_from_slice(&f[24..]);
    assert_eq!(calculate_checksum(&input), 0);
    assert!(parser(&f[4..]).is_some());
}

#[test]
fn parse_of_build_gives_back_the_fields() {
    let mut p = sample_packet(b"payload bytes".to_vec());
    p.ip_header.type_of_service = 0x10;
    p.tcp_header.control_bit = 0x18;
    p.tcp_header.acknowledge_number = 0xdead_beef;
    let f = p.create_packet();
    let q = parser(&f[4..]).unwrap();
    assert_eq!(q.ip_header.version, 4);
    assert_eq!(q.ip_header.ihl, 5);
    assert_eq!(q.ip_header.type_of_service, 0x10);
    assert_eq!(q.ip_header.total_len, 40 + 13);
    assert_eq!(q.ip_header.identification, 7);
    assert_eq!(q.ip_header.flags, 2);
    assert_eq!(q.ip_header.fragment_offset, 0);
    assert_eq!(q.ip_header.ttl, 64);
    assert_eq!(q.ip_header.protocol, 6);
    assert_eq!(q.ip_header.source, 0x0a00_0002);
    assert_eq!(q.ip_header.destination, 0x0a00_0001);
    assert_eq!(q.tcp_header.source_port, 5000);
    assert_eq!(q.tcp_header.destination_port, 80);
    assert_eq!(q.tcp_header.sequence_number, 100);
    assert_eq!(q.tcp_header.acknowledge_number, 0xdead_beef);
    assert_eq!(q.tcp_header.data_offset, 5);
    assert_eq!(q.tcp_header.control_bit, 0x18);
    assert_eq!(q.tcp_header.window, 64240);
    assert_eq!(q.tcp_header.urgent_pointer, 0);
    assert_eq!(q.data, b"payload bytes".to_vec());
    let f2 = Packet { ip_header: q.ip_header, tcp_header: q.tcp_header, data: q.data.clone() }
        .create_packet();
    assert_eq!(f, f2);
}

#[test]
fn build_and_parse_largest_payload() {
    let p = sample_packet(vec![0xab; MAX_PAYLOAD]);
    let f = p.create_packet();
    assert_eq!(f.len(), 4 + 65535);
    let q = parser(&f[4..]).unwrap();
    assert_eq!(q.data.len(), MAX_PAYLOAD);
    assert_eq!(q.ip_header.total_len, 65535);
}

#[test]
fn parse_rejects_short_buffer() {
    assert!(parser(&[0x45u8; 19]).is_none());
}

#[test]
fn parse_rejects_small_ihl() {
    let f = sample_packet(vec![]).create_packet();
    let mut d = f[4..].to_vec();
    d[0] = 0x44;
    assert!(parser(&d).is_none());
}

#[test]
fn parse_rejects_truncated_tcp_header() {
    let f = sample_packet(vec![]).create_packet();
    assert!(parser(&f[4..39]).is_none());
}

#[test]
fn parse_rejects_non_tcp() {
    let f = sample_packet(vec![]).create_packet();
    let mut d = f[4..].to_vec();
    d[9] = 17;
    assert!(parser(&d).is_none());
}

#[test]
fn parse_rejects_bad_ip_checksum() {
    let f = sample_packet(vec![9, 9]).create_packet();
    let mut d = f[4..].to_vec();
    d[8] = 63;
    assert!(parser(&d).is_none());
}

#[test]
fn parse_rejects_bad_tcp_checksum() {
    let f = sample_packet(vec![9, 9]).create_packet();
    let mut d = f[4..].to_vec();
    d[41] ^= 0x01;
    assert!(parser(&d).is_none());
}

#[test]
fn parse_rejects_small_data_offset() {
    let f = sample_packet(vec![]).create_packet();
    let mut d = f[4..].to_vec();
    d[32] = 0x40;
    assert!(parser(&d).is_none());
}

#[test]
fn parse_skips_tcp_options() {
    // a SYN with a 4-byte MSS option: data offset 6
    let src: u32 = 0x0a00_0002;
    let dst: u32 = 0x0a00_0001;
    let mut seg = vec![
        0x13u8, 0x88, 0x00, 0x50, 0, 0, 0, 100, 0, 0, 0, 0, 0x60, 0x02, 0xfa, 0xf0, 0, 0, 0, 0,
        0x02, 0x04, 0x05, 0xb4, 0xaa,
    ];
    let mut input = Packet::create_pseudo_header(src, dst, 6, seg.len() as u16);
    input.extend_from_slice(&seg);
    let c = calculate_checksum(&input);
    seg[16] = (c >> 8) as u8;
    seg[17] = c as u8;
    let mut iph = vec![0x45u8, 0, 0, 45, 0, 0, 0x40, 0, 64, 6, 0, 0, 10, 0, 0, 2, 10, 0, 0, 1];
    let ic = calculate_checksum(&iph);
    iph[10] = (ic >> 8) as u8;
    iph[11] = ic as u8;
    iph.extend_from_slice(&seg);
    let q = parser(&iph).unwrap();
    assert_eq!(q.tcp_header.data_offset, 6);
    assert_eq!(q.data, vec![0xaa]);
    assert_eq!(q.tcp_header.window, 64240);
}

#[test]
fn sniffer_names_protocols() {
    let mut h = ip(1, 2);
    assert_eq!(h.sniffer(), "TCP");
    h.protocol = 1;
    assert_eq!(h.sniffer(), "ICMP");
    h.protocol = 17;
    assert_eq!(h.sniffer(), "other than TCP and ICMP packet");
}

#[test]
fn frame_preamble_is_checked() {
    let f = sample_packet(vec![4, 5]).create_packet();
    let p = parse_frame(&f).unwrap();
    assert_eq!(p.data, vec![4, 5]);
    let mut flagged = f.clone();
    flagged[0] = 0x12;
    assert!(parse_frame(&flagged).is_some());
    let mut ipv6 = f.clone();
    ipv6[2] = 0x86;
    ipv6[3] = 0xdd;
    assert!(parse_frame(&ipv6).is_none());
    assert!(parse_frame(&f[0..3]).is_none());
}
