use vstd::prelude::*;
use crate::bytes::{be16, be16_bytes, rd_be16, put_be16, write_bytes, splice, zeros};
use crate::net::checksum::{checksum, internet_checksum, lemma_raw_sum_bound};
use crate::net::eth;
use crate::net::eth::take4;
use crate::net::arp;
use crate::net::arp::ArpCache;

verus! {

/// IP protocol number of the Internet control message protocol.
pub const PROTO_CONTROL: u8 = 1;
pub const MIN_HEADER_LEN: usize = 20;

/// The fields of an IPv4 header that the stack uses.
pub struct Ipv4Header {
    pub version_ihl: u8,
    pub total_length: u16,
    pub protocol: u8,
    pub src_ip: [u8; 4],
    pub dst_ip: [u8; 4],
    pub header_len: usize,
}

impl Ipv4Header {
    pub open spec fn ihl_of(data: Seq<u8>) -> int {
        ((data[0] & 0x0Fu8) as int) * 4
    }

    pub fn parse(data: &[u8]) -> (r: Option<Ipv4Header>)
        ensures
            r is Some <==> (data@.len() >= MIN_HEADER_LEN && data@.len() >= Self::ihl_of(data@)),
            r matches Some(h) ==> {
                &&& h.version_ihl == data@[0]
                &&& h.header_len == Self::ihl_of(data@)
                &&& h.total_length == be16(data@, 2)
                &&& h.protocol == data@[9]
                &&& h.src_ip@ == data@.subrange(12, 16)
                &&& h.dst_ip@ == data@.subrange(16, 20)
            },
    {
        if data.len() < MIN_HEADER_LEN {
            return None;
        }
        let version_ihl: u8 = data[0];
        let ihl: usize = ((version_ihl & 0x0F) as usize) * 4;
        if data.len() < ihl {
            return None;
        }
        let total_length: u16 = rd_be16(data, 2);
        let protocol: u8 = data[9];
        let src_ip: [u8; 4] = take4(data, 12);
        let dst_ip: [u8; 4] = take4(data, 16);
        Some(Ipv4Header { version_ihl, total_length, protocol, src_ip, dst_ip, header_len: ihl })
    }
}

/// What the stack does with a received IPv4 packet.
pub enum Ipv4Delivery {
    /// Not for this host, malformed, or of a protocol nobody handles.
    Drop,
    /// A control (echo) message: its header and the payload range `start..end`.
    ControlMessage { header: Ipv4Header, start: usize, end: usize },
}

pub open spec fn min(a: int, b: int) -> int {
    if a < b { a } else { b }
}

/// Decides what to do with a received IPv4 packet addressed by `my_ip`.
pub fn handle_packet(data: &[u8], my_ip: [u8; 4]) -> (r: Ipv4Delivery)
    ensures
        ({
            let ok = data@.len() >= MIN_HEADER_LEN && data@.len() >= Ipv4Header::ihl_of(data@);
            let dst = data@.subrange(16, 20);
            let end = min(be16(data@, 2), data@.len() as int);
            if ok && (dst == my_ip@ || dst == seq![255u8, 255u8, 255u8, 255u8]) && end
                >= Ipv4Header::ihl_of(data@) && data@[9] == PROTO_CONTROL {
                r matches Ipv4Delivery::ControlMessage { header, start, end: e } && start
                    == Ipv4Header::ihl_of(data@) && e == end && header.src_ip@ == data@.subrange(12, 16)
                    && header.dst_ip@ == dst
            } else {
                r is Drop
            }
        }),
{
    let header = match Ipv4Header::parse(data) {
        Some(h) => h,
        None => return Ipv4Delivery::Drop,
    };
    let is_mine: bool = header.dst_ip[0] == my_ip[0] && header.dst_ip[1] == my_ip[1]
        && header.dst_ip[2] == my_ip[2] && header.dst_ip[3] == my_ip[3];
    let is_bcast: bool = header.dst_ip[0] == 255 && header.dst_ip[1] == 255 && header.dst_ip[2]
        == 255 && header.dst_ip[3] == 255;
    assert(is_mine == (header.dst_ip@ == my_ip@)) by {
        if is_mine {
            assert(header.dst_ip@ =~= my_ip@);
        }
    }
    assert(is_bcast == (header.dst_ip@ == seq![255u8, 255u8, 255u8, 255u8])) by {
        if is_bcast {
            assert(header.dst_ip@ =~= seq![255u8, 255u8, 255u8, 255u8]);
        } else if header.dst_ip@ == seq![255u8, 255u8, 255u8, 255u8] {
            assert(header.dst_ip@[0] == 255u8);
        }
    }
    if !is_mine && !is_bcast {
        return Ipv4Delivery::Drop;
    }
    let total: usize = header.total_length as usize;
    let payload_end: usize = if total < data.len() { total } else { data.len() };
    if payload_end < header.header_len {
        return Ipv4Delivery::Drop;
    }
    if header.protocol == PROTO_CONTROL {
        let start: usize = header.header_len;
        Ipv4Delivery::ControlMessage { header, start, end: payload_end }
    } else {
        Ipv4Delivery::Drop
    }
}

/// The 20 header bytes before the checksum is filled in.
pub open spec fn header_template(protocol: u8, src_ip: Seq<u8>, dst_ip: Seq<u8>, payload_len: int, ident: u16) -> Seq<u8> {
    seq![0x45u8, 0u8] + be16_bytes((20 + payload_len) as u16) + be16_bytes(ident) + seq![0u8, 0u8, 64u8, protocol, 0u8, 0u8] + src_ip + dst_ip
}

/// The finished 20-byte header: the template with its checksum at 10..12.
pub open spec fn header_bytes(protocol: u8, src_ip: Seq<u8>, dst_ip: Seq<u8>, payload_len: int, ident: u16) -> Seq<u8> {
    let t = header_template(protocol, src_ip, dst_ip, payload_len, ident);
    splice(t, 10, be16_bytes(internet_checksum(t)))
}

/// Writes an option-less IPv4 header at the front of `out`.
pub fn build_header(protocol: u8, src_ip: [u8; 4], dst_ip: [u8; 4], payload_len: usize, ident: u16, out: &mut Vec<u8>)
    requires
        MIN_HEADER_LEN <= old(out)@.len(),
        payload_len <= 65535,
    ensures
        final(out)@ == splice(old(out)@, 0, header_bytes(protocol, src_ip@, dst_ip@, payload_len as int, ident)),
{
    let ghost o0 = out@;
    let _n: usize = out.len();
    let mut h: Vec<u8> = zeros(20);
    h.set(0, 0x45);
    h.set(1, 0);
    let total_len: u16 = (MIN_HEADER_LEN + payload_len) as u16;
    put_be16(&mut h, 2, total_len);
    put_be16(&mut h, 4, ident);
    put_be16(&mut h, 6, 0);
    h.set(8, 64);
    h.set(9, protocol);
    put_be16(&mut h, 10, 0);
    write_bytes(&mut h, 12, &src_ip);
    write_bytes(&mut h, 16, &dst_ip);
    assert(h@ =~= header_template(protocol, src_ip@, dst_ip@, payload_len as int, ident));
    proof {
        lemma_raw_sum_bound(h@);
    }
    let csum: u16 = checksum(h.as_slice());
    put_be16(&mut h, 10, csum);
    write_bytes(out, 0, h.as_slice());
}

/// The frame that carries `payload` to `dst_ip` via `dst_mac`.
pub open spec fn packet_frame(my_ip: Seq<u8>, my_mac: Seq<u8>, dst_ip: Seq<u8>, dst_mac: Seq<u8>, protocol: u8, payload: Seq<u8>, ident: u16) -> Seq<u8> {
    eth::frame_bytes(dst_mac, my_mac, eth::ETHERTYPE_IPV4, header_bytes(protocol, my_ip, dst_ip, payload.len() as int, ident) + payload)
}

/// Builds the Ethernet frame for an IPv4 packet from this host; sending it
/// is the caller's job.
pub fn send_packet(my_ip: [u8; 4], my_mac: [u8; 6], dst_ip: [u8; 4], dst_mac: [u8; 6], protocol: u8, payload: &[u8], ident: u16) -> (r: Vec<u8>)
    requires
        payload@.len() <= 1480,
    ensures
        r@ == packet_frame(my_ip@, my_mac@, dst_ip@, dst_mac@, protocol, payload@, ident),
{
    let mut ip_packet: Vec<u8> = zeros(1500);
    build_header(protocol, my_ip, dst_ip, payload.len(), ident, &mut ip_packet);
    write_bytes(&mut ip_packet, MIN_HEADER_LEN, payload);
    let ip_packet_len: usize = MIN_HEADER_LEN + payload.len();
    let ghost hb = header_bytes(protocol, my_ip@, dst_ip@, payload@.len() as int, ident);
    assert(hb.len() == 20);
    assert(ip_packet@.subrange(0, ip_packet_len as int) =~= hb + payload@);
    let mut frame: Vec<u8> = zeros(1600);
    let ip_bytes: Vec<u8> = crate::bytes::copy_range(ip_packet.as_slice(), 0, ip_packet_len);
    let len: usize = eth::build_frame(dst_mac, my_mac, eth::ETHERTYPE_IPV4, ip_bytes.as_slice(), &mut frame);
    let r: Vec<u8> = crate::bytes::copy_range(frame.as_slice(), 0, len);
    r
}

/// Whether `dst_ip` is in this host's /24, in which case ARP asks for it
/// directly rather than for the gateway.
pub fn same_subnet(dst_ip: [u8; 4], my_ip: [u8; 4]) -> (r: bool)
    ensures
        r == (dst_ip@[0] == my_ip@[0] && dst_ip@[1] == my_ip@[1] && dst_ip@[2] == my_ip@[2]),
{
    dst_ip[0] == my_ip[0] && dst_ip[1] == my_ip[1] && dst_ip[2] == my_ip[2]
}

/// The address whose MAC must be resolved to reach `dst_ip`.
pub fn next_hop(dst_ip: [u8; 4], my_ip: [u8; 4], gateway: [u8; 4]) -> (r: [u8; 4])
    ensures
        r == if dst_ip@[0] == my_ip@[0] && dst_ip@[1] == my_ip@[1] && dst_ip@[2] == my_ip@[2] {
            dst_ip
        } else {
            gateway
        },
{
    if same_subnet(dst_ip, my_ip) {
        dst_ip
    } else {
        gateway
    }
}


/// What to put on the wire to send a packet towards `dst_ip`.
pub enum SendStep {
    /// The next hop's MAC is known: the finished frame.
    Frame(Vec<u8>),
    /// It is not: broadcast this ARP request, let the replies fill the
    /// cache, and try again (giving up after the ARP timeout).
    Ask(Vec<u8>),
}

/// Sends towards `dst_ip` through the next hop (`dst_ip` itself in this
/// host's /24, else the gateway), whose MAC the ARP cache must hold.
pub fn send_packet_resolving(my_ip: [u8; 4], gateway: [u8; 4], my_mac: [u8; 6], cache: &ArpCache, dst_ip: [u8; 4], protocol: u8, payload: &[u8], ident: u16) -> (r: SendStep)
    requires
        cache.wf(),
        payload@.len() <= 1480,
    ensures
        ({
            let hop = if dst_ip@[0] == my_ip@[0] && dst_ip@[1] == my_ip@[1] && dst_ip@[2] == my_ip@[2] {
                dst_ip@
            } else {
                gateway@
            };
            match cache.spec_lookup(hop) {
                Some(m) => r matches SendStep::Frame(f) && f@ == packet_frame(my_ip@, my_mac@, dst_ip@, m, protocol, payload@, ident),
                None => r matches SendStep::Ask(f) && f@ == eth::frame_bytes(eth::BROADCAST_MAC@, my_mac@, eth::ETHERTYPE_ARP,
                    arp::arp_bytes(arp::ARP_OP_REQUEST, my_mac@, my_ip@, seq![0u8, 0u8, 0u8, 0u8, 0u8, 0u8], hop)),
            }
        }),
{
    let hop: [u8; 4] = next_hop(dst_ip, my_ip, gateway);
    match arp::resolve(cache, hop, my_ip, my_mac) {
        arp::ArpResolve::Known(mac) => SendStep::Frame(send_packet(my_ip, my_mac, dst_ip, mac, protocol, payload, ident)),
        arp::ArpResolve::Ask(f) => SendStep::Ask(f),
    }
}

} // verus!
