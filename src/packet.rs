//! IPv4 + TCP headers, and the segment codec that reads and writes them on
//! the wire.

use vstd::prelude::*;
use crate::checksum::{calculate_checksum, internet_checksum, ones_sum, lemma_ones_fold_bound};

verus! {

/// An IPv4 header. Addresses are held as big-endian 32-bit values.
#[derive(Clone, Copy, Debug, PartialEq, Eq, Structural)]
pub struct IPHeader {
    pub version: u8,
    pub ihl: u8,
    pub type_of_service: u8,
    pub total_len: u16,
    pub identification: u16,
    pub flags: u8,
    pub fragment_offset: u16,
    pub ttl: u8,
    pub protocol: u8,
    pub header_checksum: u16,
    pub source: u32,
    pub destination: u32,
}

/// A TCP header without its options.
#[derive(Clone, Copy, Debug, PartialEq, Eq, Structural)]
pub struct TCPHeader {
    pub source_port: u16,
    pub destination_port: u16,
    pub sequence_number: u32,
    pub acknowledge_number: u32,
    pub data_offset: u8,
    pub reserved: u8,
    pub control_bit: u8,
    pub window: u16,
    pub checksum: u16,
    pub urgent_pointer: u16,
}

/// A parsed IPv4 datagram carrying a TCP segment.
#[derive(Clone, Debug)]
pub struct Packet {
    pub ip_header: IPHeader,
    pub tcp_header: TCPHeader,
    pub data: Vec<u8>,
}

/// The largest payload that fits in an IPv4 datagram behind the two
/// option-free headers.
pub const MAX_PAYLOAD: usize = 65495;

/// The protocol number of TCP in the IPv4 header.
pub const PROTO_TCP: u8 = 6;

/// The Ethernet type of IPv4, written in the link preamble.
pub const ETHERTYPE_IPV4: u16 = 0x0800;

pub open spec fn be16(x: u16) -> Seq<u8> {
    seq![(x / 256) as u8, (x % 256) as u8]
}

pub open spec fn be32(x: u32) -> Seq<u8> {
    seq![
        (x / 0x1000000) as u8,
        ((x / 0x10000) % 256) as u8,
        ((x / 256) % 256) as u8,
        (x % 256) as u8,
    ]
}

/// The big-endian 16-bit value at byte `i` of `b`.
pub open spec fn u16_at(b: Seq<u8>, i: int) -> u16 {
    (b[i] as int * 256 + b[i + 1] as int) as u16
}

/// The big-endian 32-bit value at byte `i` of `b`.
pub open spec fn u32_at(b: Seq<u8>, i: int) -> u32 {
    (b[i] as int * 0x1000000 + b[i + 1] as int * 0x10000 + b[i + 2] as int * 256
        + b[i + 3] as int) as u32
}

/// The 20-byte IPv4 header that is sent: version 4, IHL 5, Don't-Fragment,
/// TTL 64, protocol TCP; type of service, identification and addresses from `ip`.
pub open spec fn ip_header_seq(ip: IPHeader, total_len: u16, checksum: u16) -> Seq<u8> {
    seq![0x45u8, ip.type_of_service] + be16(total_len) + be16(ip.identification) + seq![
        0x40u8,
        0u8,
        64u8,
        6u8,
    ] + be16(checksum) + be32(ip.source) + be32(ip.destination)
}

/// The 20-byte TCP header that is sent: data offset 5, no options, urgent
/// pointer zero.
pub open spec fn tcp_header_seq(tcp: TCPHeader, checksum: u16) -> Seq<u8> {
    be16(tcp.source_port) + be16(tcp.destination_port) + be32(tcp.sequence_number) + be32(
        tcp.acknowledge_number,
    ) + seq![0x50u8, tcp.control_bit] + be16(tcp.window) + be16(checksum) + be16(0)
}

/// The TCP pseudo-header: source, destination, zero, protocol, TCP length.
pub open spec fn pseudo_header_seq(src: u32, dst: u32, proto: u8, length: u16) -> Seq<u8> {
    be32(src) + be32(dst) + seq![0u8, proto] + be16(length)
}

pub open spec fn sent_total_len(data: Seq<u8>) -> u16 {
    (40 + data.len()) as u16
}

pub open spec fn sent_ip_checksum(ip: IPHeader, data: Seq<u8>) -> u16 {
    internet_checksum(ip_header_seq(ip, sent_total_len(data), 0))
}

pub open spec fn sent_tcp_checksum(ip: IPHeader, tcp: TCPHeader, data: Seq<u8>) -> u16 {
    internet_checksum(
        pseudo_header_seq(ip.source, ip.destination, 6, (20 + data.len()) as u16)
            + tcp_header_seq(tcp, 0) + data,
    )
}

/// The IPv4 datagram that carries `tcp` and `data` with both checksums filled in.
pub open spec fn datagram_seq(ip: IPHeader, tcp: TCPHeader, data: Seq<u8>) -> Seq<u8> {
    ip_header_seq(ip, sent_total_len(data), sent_ip_checksum(ip, data)) + tcp_header_seq(
        tcp,
        sent_tcp_checksum(ip, tcp, data),
    ) + data
}

/// The link preamble: zero flags and the IPv4 Ethernet type.
pub open spec fn preamble_seq() -> Seq<u8> {
    seq![0u8, 0u8, 8u8, 0u8]
}

/// The frame handed to the interface: preamble, then the datagram.
pub open spec fn frame_seq(ip: IPHeader, tcp: TCPHeader, data: Seq<u8>) -> Seq<u8> {
    preamble_seq() + datagram_seq(ip, tcp, data)
}

/// The IPv4 header fields read from the first 20 bytes of `b`.
pub open spec fn ip_header_of(b: Seq<u8>) -> IPHeader {
    IPHeader {
        version: b[0] / 16,
        ihl: b[0] % 16,
        type_of_service: b[1],
        total_len: u16_at(b, 2),
        identification: u16_at(b, 4),
        flags: b[6] / 32,
        fragment_offset: ((b[6] % 32) as int * 256 + b[7] as int) as u16,
        ttl: b[8],
        protocol: b[9],
        header_checksum: u16_at(b, 10),
        source: u32_at(b, 12),
        destination: u32_at(b, 16),
    }
}

/// The TCP header fields read from the first 20 bytes of `t`.
pub open spec fn tcp_header_of(t: Seq<u8>) -> TCPHeader {
    TCPHeader {
        source_port: u16_at(t, 0),
        destination_port: u16_at(t, 2),
        sequence_number: u32_at(t, 4),
        acknowledge_number: u32_at(t, 8),
        data_offset: t[12] / 16,
        reserved: t[12] % 16,
        control_bit: t[13],
        window: u16_at(t, 14),
        checksum: u16_at(t, 16),
        urgent_pointer: u16_at(t, 18),
    }
}

/// What parsing the datagram `b` yields: `None` when it is shorter than 20
/// bytes or longer than an IPv4 datagram can be, when IHL < 5, when it is
/// shorter than IHL*4 + 20, when it does not carry TCP, when the IPv4 header
/// checksum fails, when the data offset is under 5 or past the end, or when
/// the TCP checksum over pseudo-header and segment fails.
pub open spec fn parse_spec(b: Seq<u8>) -> Option<(IPHeader, TCPHeader, Seq<u8>)> {
    if b.len() < 20 || b.len() > 65535 {
        None
    } else {
        let hl = (b[0] % 16) as int * 4;
        if b[0] % 16 < 5 || b.len() < hl + 20 {
            None
        } else if b[9] != 6 {
            None
        } else if ones_sum(b.subrange(0, hl)) != 0xFFFF {
            None
        } else {
            let t = b.subrange(hl, b.len() as int);
            let dl = (t[12] / 16) as int * 4;
            if t[12] / 16 < 5 || t.len() < dl {
                None
            } else if ones_sum(
                pseudo_header_seq(u32_at(b, 12), u32_at(b, 16), 6, t.len() as u16) + t,
            ) != 0xFFFF {
                None
            } else {
                Some((ip_header_of(b), tcp_header_of(t), t.subrange(dl, t.len() as int)))
            }
        }
    }
}

/// How the sniffer names an IPv4 protocol number.
pub open spec fn protocol_label(protocol: u8) -> Seq<char> {
    if protocol == 1 {
        "ICMP"@
    } else if protocol == 6 {
        "TCP"@
    } else {
        "other than TCP and ICMP packet"@
    }
}

impl IPHeader {
    /// The name of the protocol this datagram carries: ICMP, TCP, or other.
    pub fn sniffer(&self) -> (r: String)
        ensures
            r@ == protocol_label(self.protocol),
    {
        match self.protocol {
            1 => "ICMP".to_string(),
            6 => "TCP".to_string(),
            _ => "other than TCP and ICMP packet".to_string(),
        }
    }
}

fn push_be16(v: &mut Vec<u8>, x: u16)
    ensures
        final(v)@ == old(v)@ + be16(x),
{
    v.push((x / 256) as u8);
    v.push((x % 256) as u8);
    assert(final(v)@ =~= old(v)@ + be16(x));
}

fn push_be32(v: &mut Vec<u8>, x: u32)
    ensures
        final(v)@ == old(v)@ + be32(x),
{
    v.push((x / 0x1000000) as u8);
    v.push(((x / 0x10000) % 256) as u8);
    v.push(((x / 256) % 256) as u8);
    v.push((x % 256) as u8);
    assert(final(v)@ =~= old(v)@ + be32(x));
}

pub(crate) fn append_bytes(v: &mut Vec<u8>, s: &[u8])
    ensures
        final(v)@ == old(v)@ + s@,
{
    let ghost start = v@;
    let mut i: usize = 0;
    while i < s.len()
        invariant
            i <= s@.len(),
            v@ == start + s@.subrange(0, i as int),
        decreases s@.len() - i,
    {
        v.push(s[i]);
        i = i + 1;
        assert(v@ =~= start + s@.subrange(0, i as int));
    }
    assert(s@.subrange(0, s@.len() as int) =~= s@);
}

fn read_u16(b: &[u8], i: usize) -> (r: u16)
    requires
        i + 1 < b@.len(),
    ensures
        r == u16_at(b@, i as int),
{
    (b[i] as u16) * 256 + (b[i + 1] as u16)
}

fn read_u32(b: &[u8], i: usize) -> (r: u32)
    requires
        i + 3 < b@.len(),
    ensures
        r == u32_at(b@, i as int),
{
    (b[i] as u32) * 0x1000000 + (b[i + 1] as u32) * 0x10000 + (b[i + 2] as u32) * 256 + (b[i
        + 3] as u32)
}

fn ip_header_bytes(ip: &IPHeader, total_len: u16, checksum: u16) -> (r: Vec<u8>)
    ensures
        r@ == ip_header_seq(*ip, total_len, checksum),
{
    let mut v: Vec<u8> = Vec::new();
    v.push(0x45);
    v.push(ip.type_of_service);
    push_be16(&mut v, total_len);
    push_be16(&mut v, ip.identification);
    v.push(0x40);
    v.push(0);
    v.push(64);
    v.push(PROTO_TCP);
    push_be16(&mut v, checksum);
    push_be32(&mut v, ip.source);
    push_be32(&mut v, ip.destination);
    assert(v@ =~= ip_header_seq(*ip, total_len, checksum));
    v
}

fn tcp_header_bytes(tcp: &TCPHeader, checksum: u16) -> (r: Vec<u8>)
    ensures
        r@ == tcp_header_seq(*tcp, checksum),
{
    let mut v: Vec<u8> = Vec::new();
    push_be16(&mut v, tcp.source_port);
    push_be16(&mut v, tcp.destination_port);
    push_be32(&mut v, tcp.sequence_number);
    push_be32(&mut v, tcp.acknowledge_number);
    v.push(0x50);
    v.push(tcp.control_bit);
    push_be16(&mut v, tcp.window);
    push_be16(&mut v, checksum);
    push_be16(&mut v, 0);
    assert(v@ =~= tcp_header_seq(*tcp, checksum));
    v
}

impl Packet {
    /// The TCP pseudo-header for the checksum: source and destination
    /// address, a zero byte, the protocol, and the TCP length.
    pub fn create_pseudo_header(src: u32, dst: u32, proto: u8, length: u16) -> (r: Vec<u8>)
        ensures
            r@ == pseudo_header_seq(src, dst, proto, length),
    {
        let mut header: Vec<u8> = Vec::new();
        push_be32(&mut header, src);
        push_be32(&mut header, dst);
        header.push(0);
        header.push(proto);
        push_be16(&mut header, length);
        assert(header@ =~= pseudo_header_seq(src, dst, proto, length));
        header
    }

    /// Serializes the packet into a frame for the interface: the link
    /// preamble, an option-free IPv4 header (version 4, IHL 5, DF, TTL 64,
    /// total length 40 + payload), an option-free TCP header and the payload,
    /// with both checksums computed.
    pub fn create_packet(&self) -> (r: Vec<u8>)
        requires
            self.data@.len() <= MAX_PAYLOAD,
        ensures
            r@ == frame_seq(self.ip_header, self.tcp_header, self.data@),
    {
        let len = self.data.len();
        let total_len = (40 + len) as u16;
        let ip0 = ip_header_bytes(&self.ip_header, total_len, 0);
        let ip_checksum = calculate_checksum(ip0.as_slice());
        let ip1 = ip_header_bytes(&self.ip_header, total_len, ip_checksum);

        let mut checksum_input = Packet::create_pseudo_header(
            self.ip_header.source,
            self.ip_header.destination,
            PROTO_TCP,
            (20 + len) as u16,
        );
        let tcp0 = tcp_header_bytes(&self.tcp_header, 0);
        append_bytes(&mut checksum_input, tcp0.as_slice());
        append_bytes(&mut checksum_input, self.data.as_slice());
        let tcp_checksum = calculate_checksum(checksum_input.as_slice());
        let tcp1 = tcp_header_bytes(&self.tcp_header, tcp_checksum);

        let mut frame: Vec<u8> = Vec::new();
        push_be16(&mut frame, 0);
        push_be16(&mut frame, ETHERTYPE_IPV4);
        append_bytes(&mut frame, ip1.as_slice());
        append_bytes(&mut frame, tcp1.as_slice());
        append_bytes(&mut frame, self.data.as_slice());
        assert(be16(0) + be16(0x0800) =~= preamble_seq());
        assert(frame@ =~= frame_seq(self.ip_header, self.tcp_header, self.data@));
        frame
    }
}

/// Parses an IPv4 datagram carrying TCP, checking lengths, the protocol and
/// both checksums; TCP options are skipped.
pub fn parser(buffer: &[u8]) -> (r: Option<Packet>)
    ensures
        r is None <==> parse_spec(buffer@) is None,
        r is Some ==> parse_spec(buffer@) == Some(
            (r->0.ip_header, r->0.tcp_header, r->0.data@),
        ),
{
    let len = buffer.len();
    if len < 20 || len > 65535 {
        return None;
    }
    let ihl = buffer[0] % 16;
    let ip_header_len = (ihl as usize) * 4;
    if ihl < 5 || len < ip_header_len + 20 {
        return None;
    }
    if buffer[9] != PROTO_TCP {
        return None;
    }
    proof {
        lemma_ones_fold_bound(0);
    }
    let ghost b = buffer@;
    let ip_bytes = &buffer[0..ip_header_len];
    if calculate_checksum(ip_bytes) != 0 {
        proof {
            crate::checksum::lemma_ones_sum_bound(b.subrange(0, ip_header_len as int));
        }
        return None;
    }
    proof {
        crate::checksum::lemma_ones_sum_bound(b.subrange(0, ip_header_len as int));
    }
    let ip_header = IPHeader {
        version: buffer[0] / 16,
        ihl,
        type_of_service: buffer[1],
        total_len: read_u16(buffer, 2),
        identification: read_u16(buffer, 4),
        flags: buffer[6] / 32,
        fragment_offset: ((buffer[6] % 32) as u16) * 256 + (buffer[7] as u16),
        ttl: buffer[8],
        protocol: buffer[9],
        header_checksum: read_u16(buffer, 10),
        source: read_u32(buffer, 12),
        destination: read_u32(buffer, 16),
    };
    let segment = &buffer[ip_header_len..len];
    let ghost t = segment@;
    let data_offset = segment[12] / 16;
    let tcp_header_len = (data_offset as usize) * 4;
    if data_offset < 5 || segment.len() < tcp_header_len {
        return None;
    }
    let mut checksum_input = Packet::create_pseudo_header(
        ip_header.source,
        ip_header.destination,
        PROTO_TCP,
        segment.len() as u16,
    );
    append_bytes(&mut checksum_input, segment);
    let tcp_ok = calculate_checksum(checksum_input.as_slice()) == 0;
    proof {
        crate::checksum::lemma_ones_sum_bound(checksum_input@);
    }
    if !tcp_ok {
        return None;
    }
    let tcp_header = TCPHeader {
        source_port: read_u16(segment, 0),
        destination_port: read_u16(segment, 2),
        sequence_number: read_u32(segment, 4),
        acknowledge_number: read_u32(segment, 8),
        data_offset,
        reserved: segment[12] % 16,
        control_bit: segment[13],
        window: read_u16(segment, 14),
        checksum: read_u16(segment, 16),
        urgent_pointer: read_u16(segment, 18),
    };
    let data = vstd::slice::slice_to_vec(&segment[tcp_header_len..segment.len()]);
    assert(ip_header == ip_header_of(b));
    assert(tcp_header == tcp_header_of(t));
    Some(Packet { ip_header, tcp_header, data })
}

/// What reading a frame from the interface yields: `None` when it is
/// shorter than the 4-byte preamble or its protocol is not IPv4, else what
/// parsing the datagram behind the preamble yields.
pub open spec fn frame_parse_spec(f: Seq<u8>) -> Option<(IPHeader, TCPHeader, Seq<u8>)> {
    if f.len() < 4 || u16_at(f, 2) != ETHERTYPE_IPV4 {
        None
    } else {
        parse_spec(f.subrange(4, f.len() as int))
    }
}

/// Reads a frame from the interface: checks the link preamble for IPv4
/// (its flags are ignored) and parses the datagram behind it.
pub fn parse_frame(frame: &[u8]) -> (r: Option<Packet>)
    ensures
        r is None <==> frame_parse_spec(frame@) is None,
        r is Some ==> frame_parse_spec(frame@) == Some(
            (r->0.ip_header, r->0.tcp_header, r->0.data@),
        ),
{
    if frame.len() < 4 || read_u16(frame, 2) != ETHERTYPE_IPV4 {
        return None;
    }
    parser(vstd::slice::slice_subrange(frame, 4, frame.len()))
}

proof fn lemma_u16_at(b: Seq<u8>, i: int, x: u16)
    requires
        0 <= i,
        i + 1 < b.len(),
        b.subrange(i, i + 2) == be16(x),
    ensures
        u16_at(b, i) == x,
{
    assert(b[i] == b.subrange(i, i + 2)[0]);
    assert(b[i + 1] == b.subrange(i, i + 2)[1]);
}

proof fn lemma_u32_at(b: Seq<u8>, i: int, x: u32)
    requires
        0 <= i,
        i + 3 < b.len(),
        b.subrange(i, i + 4) == be32(x),
    ensures
        u32_at(b, i) == x,
{
    assert(b[i] == b.subrange(i, i + 4)[0]);
    assert(b[i + 1] == b.subrange(i, i + 4)[1]);
    assert(b[i + 2] == b.subrange(i, i + 4)[2]);
    assert(b[i + 3] == b.subrange(i, i + 4)[3]);
}

/// The expected IPv4 header after a round trip through the wire.
pub open spec fn sent_ip_header(ip: IPHeader, data: Seq<u8>) -> IPHeader {
    IPHeader {
        version: 4,
        ihl: 5,
        total_len: sent_total_len(data),
        flags: 2,
        fragment_offset: 0,
        ttl: 64,
        protocol: 6,
        header_checksum: sent_ip_checksum(ip, data),
        ..ip
    }
}

/// The expected TCP header after a round trip through the wire.
pub open spec fn sent_tcp_header(ip: IPHeader, tcp: TCPHeader, data: Seq<u8>) -> TCPHeader {
    TCPHeader {
        data_offset: 5,
        reserved: 0,
        checksum: sent_tcp_checksum(ip, tcp, data),
        urgent_pointer: 0,
        ..tcp
    }
}

proof fn lemma_sent_ip_part(ip: IPHeader, tcp: TCPHeader, data: Seq<u8>)
    requires
        data.len() <= MAX_PAYLOAD,
    ensures
        ({
            let b = datagram_seq(ip, tcp, data);
            &&& b.len() == 40 + data.len()
            &&& b[0] == 0x45u8
            &&& b[9] == 6u8
            &&& ones_sum(b.subrange(0, 20)) == 0xFFFF
            &&& u32_at(b, 12) == ip.source
            &&& u32_at(b, 16) == ip.destination
            &&& ip_header_of(b) == sent_ip_header(ip, data)
            &&& b.subrange(20, b.len() as int) == tcp_header_seq(tcp, sent_tcp_checksum(ip, tcp, data)) + data
        }),
{
    let tl = sent_total_len(data);
    let ipc = sent_ip_checksum(ip, data);
    let tcpc = sent_tcp_checksum(ip, tcp, data);
    let h0 = ip_header_seq(ip, tl, 0);
    let h = ip_header_seq(ip, tl, ipc);
    let th = tcp_header_seq(tcp, tcpc);
    let b = datagram_seq(ip, tcp, data);
    assert(h.len() == 20);
    assert(th.len() == 20);
    assert(b.subrange(0, 20) =~= h);
    assert(b.subrange(20, b.len() as int) =~= th + data);
    assert(h =~= h0.update(10, (ipc / 256) as u8).update(11, (ipc % 256) as u8));
    crate::checksum::lemma_checksum_fills(h0, 5);
    assert(b.subrange(12, 16) =~= be32(ip.source));
    assert(b.subrange(16, 20) =~= be32(ip.destination));
    lemma_u32_at(b, 12, ip.source);
    lemma_u32_at(b, 16, ip.destination);
    assert(b.subrange(2, 4) =~= be16(tl));
    lemma_u16_at(b, 2, tl);
    assert(b.subrange(4, 6) =~= be16(ip.identification));
    lemma_u16_at(b, 4, ip.identification);
    assert(b.subrange(10, 12) =~= be16(ipc));
    lemma_u16_at(b, 10, ipc);
    assert(b[0] == 0x45u8 && b[1] == ip.type_of_service);
    assert(b[6] == 0x40u8 && b[7] == 0u8 && b[8] == 64u8 && b[9] == 6u8);
}

proof fn lemma_sent_tcp_part(ip: IPHeader, tcp: TCPHeader, data: Seq<u8>)
    requires
        data.len() <= MAX_PAYLOAD,
    ensures
        ({
            let t = tcp_header_seq(tcp, sent_tcp_checksum(ip, tcp, data)) + data;
            &&& t[12] == 0x50u8
            &&& ones_sum(
                pseudo_header_seq(ip.source, ip.destination, 6, t.len() as u16) + t,
            ) == 0xFFFF
            &&& tcp_header_of(t) == sent_tcp_header(ip, tcp, data)
            &&& t.subrange(20, t.len() as int) == data
        }),
{
    let tcpc = sent_tcp_checksum(ip, tcp, data);
    let t = tcp_header_seq(tcp, tcpc) + data;
    assert(t.len() as u16 == (20 + data.len()) as u16);
    let p = pseudo_header_seq(ip.source, ip.destination, 6, (20 + data.len()) as u16);
    let s0 = p + tcp_header_seq(tcp, 0) + data;
    assert(p.len() == 12);
    assert(p + t =~= s0.update(28, (tcpc / 256) as u8).update(29, (tcpc % 256) as u8));
    crate::checksum::lemma_checksum_fills(s0, 14);
    assert(t.subrange(20, t.len() as int) =~= data);
    assert(t.subrange(0, 2) =~= be16(tcp.source_port));
    lemma_u16_at(t, 0, tcp.source_port);
    assert(t.subrange(2, 4) =~= be16(tcp.destination_port));
    lemma_u16_at(t, 2, tcp.destination_port);
    assert(t.subrange(4, 8) =~= be32(tcp.sequence_number));
    lemma_u32_at(t, 4, tcp.sequence_number);
    assert(t.subrange(8, 12) =~= be32(tcp.acknowledge_number));
    lemma_u32_at(t, 8, tcp.acknowledge_number);
    assert(t.subrange(14, 16) =~= be16(tcp.window));
    lemma_u16_at(t, 14, tcp.window);
    assert(t.subrange(16, 18) =~= be16(tcpc));
    lemma_u16_at(t, 16, tcpc);
    assert(t.subrange(18, 20) =~= be16(0));
    lemma_u16_at(t, 18, 0);
    assert(t[12] == 0x50u8 && t[13] == tcp.control_bit);
}

/// A built datagram re-parses: its IPv4 header checksum and its TCP checksum
/// over pseudo-header and segment both verify, and the length, protocol and
/// offset checks pass.
pub proof fn lemma_built_checksums_verify(ip: IPHeader, tcp: TCPHeader, data: Seq<u8>)
    requires
        data.len() <= MAX_PAYLOAD,
    ensures
        parse_spec(datagram_seq(ip, tcp, data)) is Some,
{
    lemma_build_parse(ip, tcp, data);
}

/// Parsing a built datagram gives back what was built: the fields that
/// building fixes read as written, the two checksums as computed, the other
/// fields and the payload as given.
pub proof fn lemma_build_parse(ip: IPHeader, tcp: TCPHeader, data: Seq<u8>)
    requires
        data.len() <= MAX_PAYLOAD,
    ensures
        parse_spec(datagram_seq(ip, tcp, data)) == Some(
            (sent_ip_header(ip, data), sent_tcp_header(ip, tcp, data), data),
        ),
{
    lemma_sent_ip_part(ip, tcp, data);
    lemma_sent_tcp_part(ip, tcp, data);
}

} // verus!
