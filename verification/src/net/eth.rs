use vstd::prelude::*;
use crate::bytes::{be16, be16_bytes, rd_be16, write_bytes, put_be16};

verus! {

pub const HEADER_LEN: usize = 14;
pub const ETHERTYPE_IPV4: u16 = 0x0800;
pub const ETHERTYPE_ARP: u16 = 0x0806;

pub const BROADCAST_MAC: [u8; 6] = [0xFF, 0xFF, 0xFF, 0xFF, 0xFF, 0xFF];

/// The fixed 14-byte Ethernet II header.
pub struct EthernetHeader {
    pub dst_mac: [u8; 6],
    pub src_mac: [u8; 6],
    pub ethertype: u16,
}

/// Copies `N` bytes starting at `o` into an array.
pub fn take6(b: &[u8], o: usize) -> (r: [u8; 6])
    requires
        o + 6 <= b@.len(),
    ensures
        r@ == b@.subrange(o as int, o + 6),
{
    let r: [u8; 6] = [b[o], b[o + 1], b[o + 2], b[o + 3], b[o + 4], b[o + 5]];
    assert(r@ =~= b@.subrange(o as int, o + 6));
    r
}

pub fn take4(b: &[u8], o: usize) -> (r: [u8; 4])
    requires
        o + 4 <= b@.len(),
    ensures
        r@ == b@.subrange(o as int, o + 4),
{
    let r: [u8; 4] = [b[o], b[o + 1], b[o + 2], b[o + 3]];
    assert(r@ =~= b@.subrange(o as int, o + 4));
    r
}

impl EthernetHeader {
    pub fn parse(frame: &[u8]) -> (r: Option<EthernetHeader>)
        ensures
            frame@.len() < HEADER_LEN ==> r is None,
            frame@.len() >= HEADER_LEN ==> (r matches Some(h) && {
                &&& h.dst_mac@ == frame@.subrange(0, 6)
                &&& h.src_mac@ == frame@.subrange(6, 12)
                &&& h.ethertype == be16(frame@, 12)
            }),
    {
        if frame.len() < HEADER_LEN {
            return None;
        }
        let dst_mac: [u8; 6] = take6(frame, 0);
        let src_mac: [u8; 6] = take6(frame, 6);
        let ethertype: u16 = rd_be16(frame, 12);
        Some(EthernetHeader { dst_mac, src_mac, ethertype })
    }
}

/// The bytes of an Ethernet frame.
pub open spec fn frame_bytes(dst_mac: Seq<u8>, src_mac: Seq<u8>, ethertype: u16, payload: Seq<u8>) -> Seq<u8> {
    dst_mac + src_mac + be16_bytes(ethertype) + payload
}

/// Writes the frame header and payload to the front of `out` and returns
/// the frame length.
pub fn build_frame(dst_mac: [u8; 6], src_mac: [u8; 6], ethertype: u16, payload: &[u8], out: &mut Vec<u8>) -> (r: usize)
    requires
        HEADER_LEN + payload@.len() <= old(out)@.len(),
    ensures
        r == HEADER_LEN + payload@.len(),
        final(out)@.len() == old(out)@.len(),
        final(out)@.subrange(0, r as int) == frame_bytes(dst_mac@, src_mac@, ethertype, payload@),
        final(out)@.subrange(r as int, final(out)@.len() as int) == old(out)@.subrange(r as int, old(out)@.len() as int),
{
    let ghost o0 = out@;
    let _n: usize = out.len();
    write_bytes(out, 0, &dst_mac);
    write_bytes(out, 6, &src_mac);
    put_be16(out, 12, ethertype);
    write_bytes(out, 14, payload);
    let r: usize = HEADER_LEN + payload.len();
    assert(out@.subrange(0, r as int) =~= frame_bytes(dst_mac@, src_mac@, ethertype, payload@));
    assert(out@.subrange(r as int, out@.len() as int) =~= o0.subrange(r as int, o0.len() as int));
    r
}

} // verus!
