//! Minimal TCP for HTTP: the connection, the queue of received packets,
//! and the segments that send data and close the connection.
use vstd::prelude::*;
use crate::bytes::{be16_bytes, be32_bytes, splice};
use crate::net::checksum::{checksum, internet_checksum};

verus! {

pub const TCP_PROTO: u8 = 6;
pub const FIN: u8 = 0x01;
pub const SYN: u8 = 0x02;
pub const PSH: u8 = 0x08;
pub const ACK: u8 = 0x10;
pub const HEADER_LEN: usize = 20;
/// Longest payload a segment carries here.
pub const MAX_PAYLOAD: usize = 65515;

/// A connection: state (1 established), ports, peer address and the
/// sequence and acknowledgement numbers.
pub struct TcpConn {
    pub state: u8,
    pub sport: u16,
    pub dip: [u8; 4],
    pub dport: u16,
    pub seq: u32,
    pub ack: u32,
}

/// The connection, the next local port, and the received packets not yet
/// taken, oldest first.
pub struct TcpStack {
    pub conn: Option<TcpConn>,
    pub next_port: u16,
    pub rx: Vec<Vec<u8>>,
}

pub open spec fn packet_views(q: Seq<Vec<u8>>) -> Seq<Seq<u8>> {
    q.map_values(|p: Vec<u8>| p@)
}

/// Queues a received TCP packet (from the interrupt handler).
pub fn rx_enqueue(st: &mut TcpStack, pkt: Vec<u8>)
    ensures
        packet_views(final(st).rx@) == packet_views(old(st).rx@).push(pkt@),
        final(st).conn == old(st).conn,
        final(st).next_port == old(st).next_port,
{
    let ghost before = packet_views(st.rx@);
    let ghost p = pkt@;
    st.rx.push(pkt);
    assert(packet_views(st.rx@) =~= before.push(p));
}

/// The oldest queued packet, taken off the queue.
pub fn rx_dequeue(st: &mut TcpStack) -> (r: Option<Vec<u8>>)
    ensures
        old(st).rx@.len() == 0 ==> r is None && packet_views(final(st).rx@) == packet_views(old(st).rx@),
        old(st).rx@.len() > 0 ==> (r matches Some(p) && p@ == old(st).rx@[0]@ && packet_views(final(st).rx@)
            == packet_views(old(st).rx@).drop_first()),
        final(st).conn == old(st).conn,
{
    if st.rx.len() == 0 {
        return None;
    }
    let ghost before = packet_views(st.rx@);
    let p: Vec<u8> = st.rx.remove(0);
    assert(packet_views(st.rx@) =~= before.drop_first());
    Some(p)
}

/// The pseudo-header the checksum covers: source and destination
/// addresses, zero, protocol 6 and the segment length.
pub open spec fn pseudo_header(src: Seq<u8>, dst: Seq<u8>, len: nat) -> Seq<u8> {
    src + dst + seq![0u8, TCP_PROTO] + be16_bytes(len as u16)
}

/// A segment from connection `c` with `flags` and `data`: ports, sequence
/// and acknowledgement numbers, a 20-byte header, window 8192, and the
/// checksum over pseudo-header and segment.
pub open spec fn segment_bytes(my_ip: Seq<u8>, c: TcpConn, flags: u8, data: Seq<u8>) -> Seq<u8> {
    let base = be16_bytes(c.sport) + be16_bytes(c.dport) + be32_bytes(c.seq) + be32_bytes(c.ack) + be16_bytes(
        (0x5000u16 | flags as u16) as u16,
    ) + be16_bytes(8192) + seq![0u8, 0u8, 0u8, 0u8] + data;
    splice(base, 16, be16_bytes(internet_checksum(pseudo_header(my_ip, c.dip@, base.len()) + base)))
}

fn build_segment(my_ip: [u8; 4], c: &TcpConn, flags: u8, data: &[u8]) -> (r: Vec<u8>)
    requires
        data@.len() <= MAX_PAYLOAD,
    ensures
        r@ == segment_bytes(my_ip@, *c, flags, data@),
{
    let mut seg: Vec<u8> = Vec::new();
    let a: Vec<u8> = crate::bytes::be16_vec(c.sport);
    crate::bytes::extend_from(&mut seg, a.as_slice());
    let b: Vec<u8> = crate::bytes::be16_vec(c.dport);
    crate::bytes::extend_from(&mut seg, b.as_slice());
    let s: Vec<u8> = crate::bytes::be32_vec(c.seq);
    crate::bytes::extend_from(&mut seg, s.as_slice());
    let k: Vec<u8> = crate::bytes::be32_vec(c.ack);
    crate::bytes::extend_from(&mut seg, k.as_slice());
    let of: Vec<u8> = crate::bytes::be16_vec(0x5000u16 | flags as u16);
    crate::bytes::extend_from(&mut seg, of.as_slice());
    let w: Vec<u8> = crate::bytes::be16_vec(8192);
    crate::bytes::extend_from(&mut seg, w.as_slice());
    let z: Vec<u8> = crate::bytes::zeros(4);
    crate::bytes::extend_from(&mut seg, z.as_slice());
    crate::bytes::extend_from(&mut seg, data);
    let ghost base = seg@;
    assert(base =~= be16_bytes(c.sport) + be16_bytes(c.dport) + be32_bytes(c.seq) + be32_bytes(c.ack) + be16_bytes(
        (0x5000u16 | flags as u16) as u16,
    ) + be16_bytes(8192) + seq![0u8, 0u8, 0u8, 0u8] + data@);
    let mut all: Vec<u8> = Vec::new();
    crate::bytes::extend_from(&mut all, &my_ip);
    crate::bytes::extend_from(&mut all, &c.dip);
    all.push(0);
    all.push(TCP_PROTO);
    let l: Vec<u8> = crate::bytes::be16_vec(seg.len() as u16);
    crate::bytes::extend_from(&mut all, l.as_slice());
    crate::bytes::extend_from(&mut all, seg.as_slice());
    assert(all@ =~= pseudo_header(my_ip@, c.dip@, base.len()) + base);
    proof {
        crate::net::checksum::lemma_raw_sum_bound(all@);
    }
    let cs: u16 = checksum(all.as_slice());
    crate::bytes::put_be16(&mut seg, 16, cs);
    seg
}

pub open spec fn established(conn: Option<TcpConn>) -> bool {
    conn matches Some(c) && c.state == 1
}

/// The connection with its sequence number moved past `n` bytes.
pub open spec fn advanced(c: TcpConn, n: nat) -> TcpConn {
    TcpConn { seq: (c.seq + n) as u32, ..c }
}

/// Sends `data` on the established connection: the segment (PSH|ACK) to
/// hand to IPv4 for the peer, the sequence number moved past the data.
/// Without an established connection nothing is sent.
pub fn send(st: &mut TcpStack, my_ip: [u8; 4], data: &[u8]) -> (r: Option<([u8; 4], Vec<u8>)>)
    requires
        data@.len() <= MAX_PAYLOAD,
    ensures
        established(old(st).conn) ==> (r matches Some((ip, seg)) && ip == old(st).conn->0.dip && seg@ == segment_bytes(
            my_ip@,
            old(st).conn->0,
            PSH | ACK,
            data@,
        ) && final(st).conn == Some(advanced(old(st).conn->0, data@.len()))),
        !established(old(st).conn) ==> r is None && final(st).conn == old(st).conn,
        final(st).rx == old(st).rx,
        final(st).next_port == old(st).next_port,
{
    match &st.conn {
        Some(c) => {
            if c.state != 1 {
                return None;
            }
            let seg: Vec<u8> = build_segment(my_ip, c, PSH | ACK, data);
            let dip: [u8; 4] = c.dip;
            let old_seq: u32 = c.seq;
            let n: usize = data.len();
            let new_seq: u32 = old_seq.wrapping_add(n as u32);
            let nc = TcpConn { state: c.state, sport: c.sport, dip: c.dip, dport: c.dport, seq: new_seq, ack: c.ack };
            assert(new_seq == (old_seq + n) as u32) by (bit_vector)
                requires
                    new_seq == old_seq.wrapping_add(n as u32),
            ;
            st.conn = Some(nc);
            Some((dip, seg))
        },
        None => None,
    }
}

/// Closes the connection: the FIN|ACK segment to send, if there was one;
/// the connection is gone afterwards.
pub fn close(st: &mut TcpStack, my_ip: [u8; 4]) -> (r: Option<([u8; 4], Vec<u8>)>)
    ensures
        old(st).conn matches Some(c) ==> (r matches Some((ip, seg)) && ip == c.dip && seg@ == segment_bytes(
            my_ip@,
            c,
            FIN | ACK,
            Seq::empty(),
        )),
        old(st).conn is None ==> r is None,
        final(st).conn is None,
        final(st).rx == old(st).rx,
        final(st).next_port == old(st).next_port,
{
    let r = match &st.conn {
        Some(c) => {
            let empty: [u8; 0] = [];
            assert(empty@ =~= Seq::<u8>::empty());
            Some((c.dip, build_segment(my_ip, c, FIN | ACK, &empty)))
        },
        None => None,
    };
    st.conn = None;
    r
}

} // verus!
