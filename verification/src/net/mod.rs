pub mod arp;
pub mod checksum;
pub mod eth;
pub mod http;
pub mod icmp;
pub mod ipv4;
pub mod tcp;

use vstd::prelude::*;
use self::arp::ArpCache;
use self::icmp::{PingState, EchoOutcome};
use self::ipv4::Ipv4Delivery;

verus! {

/// This host's address and its default gateway.
pub struct NetConfig {
    pub ip: [u8; 4],
    pub gateway: [u8; 4],
}

impl NetConfig {
    /// The QEMU user-network defaults.
    pub fn default() -> (r: NetConfig)
        ensures
            r.ip@ == seq![10u8, 0u8, 2u8, 15u8],
            r.gateway@ == seq![10u8, 0u8, 2u8, 2u8],
    {
        let r = NetConfig { ip: [10, 0, 2, 15], gateway: [10, 0, 2, 2] };
        assert(r.ip@ =~= seq![10u8, 0u8, 2u8, 15u8]);
        assert(r.gateway@ =~= seq![10u8, 0u8, 2u8, 2u8]);
        r
    }
}

pub fn my_ip(cfg: &NetConfig) -> (r: [u8; 4])
    ensures
        r == cfg.ip,
{
    cfg.ip
}

pub fn gateway_ip(cfg: &NetConfig) -> (r: [u8; 4])
    ensures
        r == cfg.gateway,
{
    cfg.gateway
}

pub fn set_my_ip(cfg: &mut NetConfig, ip: [u8; 4])
    ensures
        final(cfg).ip == ip,
        final(cfg).gateway == old(cfg).gateway,
{
    cfg.ip = ip;
}

/// Dispatches a received Ethernet frame to the ARP or IPv4 handler and
/// returns the frame to send in answer, if any.
pub fn on_ethernet_frame(cfg: &NetConfig, cache: &mut ArpCache, ping: &mut PingState, my_mac: [u8; 6], frame: &[u8]) -> (r: Option<Vec<u8>>)
    requires
        old(cache).wf(),
        frame@.len() <= 1514,
    ensures
        final(cache).wf(),
        frame@.len() < eth::HEADER_LEN ==> r is None && *final(cache) == *old(cache) && *final(ping) == *old(ping),
        frame@.len() >= eth::HEADER_LEN && crate::bytes::be16(frame@, 12) != eth::ETHERTYPE_ARP
            && crate::bytes::be16(frame@, 12) != eth::ETHERTYPE_IPV4
            ==> r is None && *final(cache) == *old(cache) && *final(ping) == *old(ping),
        frame@.len() >= eth::HEADER_LEN && crate::bytes::be16(frame@, 12) == eth::ETHERTYPE_IPV4
            ==> *final(cache) == *old(cache),
        frame@.len() >= eth::HEADER_LEN + arp::ARP_PACKET_LEN && crate::bytes::be16(frame@, 12) == eth::ETHERTYPE_ARP
            ==> final(cache).spec_lookup(frame@.subrange(28, 32)) == Some(frame@.subrange(22, 28))
                && *final(ping) == *old(ping),
{
    let header = match eth::EthernetHeader::parse(frame) {
        Some(h) => h,
        None => return None,
    };
    let n: usize = frame.len();
    let payload: Vec<u8> = crate::bytes::copy_range(frame, eth::HEADER_LEN, n);
    if header.ethertype == eth::ETHERTYPE_ARP {
        let r = arp::handle_packet(cache, cfg.ip, my_mac, payload.as_slice(), &header);
        if n >= eth::HEADER_LEN + arp::ARP_PACKET_LEN {
            assert(payload@.subrange(14, 18) =~= frame@.subrange(28, 32));
            assert(payload@.subrange(8, 14) =~= frame@.subrange(22, 28));
        }
        r
    } else if header.ethertype == eth::ETHERTYPE_IPV4 {
        match ipv4::handle_packet(payload.as_slice(), cfg.ip) {
            Ipv4Delivery::Drop => None,
            Ipv4Delivery::ControlMessage { header: iph, start, end } => {
                if end - start > 1480 {
                    // An echo request this large cannot be answered within one frame.
                    return None;
                }
                let msg: Vec<u8> = crate::bytes::copy_range(payload.as_slice(), start, end);
                match icmp::handle_packet(ping, cache, cfg.ip, my_mac, msg.as_slice(), &iph) {
                    EchoOutcome::Nothing => None,
                    EchoOutcome::Reply(f) => Some(f),
                }
            },
        }
    } else {
        None
    }
}

} // verus!
