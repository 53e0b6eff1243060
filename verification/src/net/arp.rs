use vstd::prelude::*;
use crate::bytes::{be16, be16_bytes, put_be16, write_bytes, zeros, copy_range};
use crate::net::eth;
use crate::net::eth::{EthernetHeader, take4, take6};

verus! {

pub const ARP_HTYPE_ETHERNET: u16 = 1;
pub const ARP_PTYPE_IPV4: u16 = 0x0800;
pub const ARP_OP_REQUEST: u16 = 1;
pub const ARP_OP_REPLY: u16 = 2;
pub const ARP_PACKET_LEN: usize = 28;
pub const ARP_CACHE_SIZE: usize = 8;

#[derive(Clone, Copy)]
pub struct ArpEntry {
    pub ip: [u8; 4],
    pub mac: [u8; 6],
    pub valid: bool,
}

/// A fixed-size IP-to-MAC cache, refilled round-robin.
pub struct ArpCache {
    pub entries: Vec<ArpEntry>,
    pub next_slot: usize,
}

/// Index of the first valid entry for `ip` at or after `from`, if any.
pub open spec fn first_match(e: Seq<ArpEntry>, ip: Seq<u8>, from: int) -> Option<int>
    decreases e.len() - from,
{
    if from >= e.len() || from < 0 {
        None
    } else if e[from].valid && e[from].ip@ == ip {
        Some(from)
    } else {
        first_match(e, ip, from + 1)
    }
}

/// No two valid entries hold the same IP.
pub open spec fn unique_ips(e: Seq<ArpEntry>) -> bool {
    forall|i: int, j: int|
        0 <= i < j < e.len() && #[trigger] e[i].valid && #[trigger] e[j].valid ==> e[i].ip@ != e[j].ip@
}

/// With no valid entry for `ip` from `from` on, none of them holds it.
proof fn lemma_no_match(e: Seq<ArpEntry>, ip: Seq<u8>, from: int)
    requires
        0 <= from,
        first_match(e, ip, from) is None,
    ensures
        forall|k: int| from <= k < e.len() ==> !(#[trigger] e[k].valid && e[k].ip@ == ip),
    decreases e.len() - from,
{
    if from < e.len() {
        lemma_no_match(e, ip, from + 1);
    }
}

impl ArpCache {
    pub open spec fn wf(&self) -> bool {
        self.entries@.len() == ARP_CACHE_SIZE && self.next_slot < ARP_CACHE_SIZE
    }

    /// The MAC the cache gives for `ip`.
    pub open spec fn spec_lookup(&self, ip: Seq<u8>) -> Option<Seq<u8>> {
        match first_match(self.entries@, ip, 0) {
            Some(i) => Some(self.entries@[i].mac@),
            None => None,
        }
    }

    pub fn new() -> (r: ArpCache)
        ensures
            r.wf(),
            r.next_slot == 0,
            forall|i: int| 0 <= i < ARP_CACHE_SIZE ==> !(#[trigger] r.entries@[i]).valid,
            unique_ips(r.entries@),
    {
        let mut entries: Vec<ArpEntry> = Vec::new();
        let mut i: usize = 0;
        while i < ARP_CACHE_SIZE
            invariant
                i <= ARP_CACHE_SIZE,
                entries@.len() == i,
                forall|j: int| 0 <= j < i ==> !(#[trigger] entries@[j]).valid,
            decreases ARP_CACHE_SIZE - i,
        {
            entries.push(ArpEntry { ip: [0, 0, 0, 0], mac: [0, 0, 0, 0, 0, 0], valid: false });
            i = i + 1;
        }
        ArpCache { entries, next_slot: 0 }
    }

    fn find(&self, ip: [u8; 4]) -> (r: Option<usize>)
        requires
            self.wf(),
        ensures
            r matches Some(i) ==> first_match(self.entries@, ip@, 0) == Some(i as int) && i < self.entries@.len(),
            r is None ==> first_match(self.entries@, ip@, 0) is None,
    {
        let mut i: usize = 0;
        while i < self.entries.len()
            invariant
                i <= self.entries@.len(),
                first_match(self.entries@, ip@, 0) == first_match(self.entries@, ip@, i as int),
            decreases self.entries@.len() - i,
        {
            let e: ArpEntry = self.entries[i];
            let same: bool = e.ip[0] == ip[0] && e.ip[1] == ip[1] && e.ip[2] == ip[2] && e.ip[3]
                == ip[3];
            assert(same == (e.ip@ == ip@)) by {
                if same {
                    assert(e.ip@ =~= ip@);
                }
            }
            if e.valid && same {
                return Some(i);
            }
            i = i + 1;
        }
        None
    }

    pub fn lookup(&self, ip: [u8; 4]) -> (r: Option<[u8; 6]>)
        requires
            self.wf(),
        ensures
            r matches Some(m) ==> self.spec_lookup(ip@) == Some(m@),
            r is None ==> self.spec_lookup(ip@) is None,
    {
        match self.find(ip) {
            Some(i) => Some(self.entries[i].mac),
            None => None,
        }
    }

    /// Records `ip -> mac`: an existing valid entry for `ip` gets the new
    /// MAC; otherwise the slot `next_slot` is overwritten and the round-robin
    /// pointer advances.
    pub fn insert(&mut self, ip: [u8; 4], mac: [u8; 6])
        requires
            old(self).wf(),
        ensures
            final(self).wf(),
            final(self).spec_lookup(ip@) == Some(mac@),
            unique_ips(old(self).entries@) ==> unique_ips(final(self).entries@),
            match first_match(old(self).entries@, ip@, 0) {
                Some(i) => final(self).entries@ == old(self).entries@.update(
                    i,
                    ArpEntry { ip: old(self).entries@[i].ip, mac, valid: true },
                ) && final(self).next_slot == old(self).next_slot,
                None => final(self).entries@ == old(self).entries@.update(
                    old(self).next_slot as int,
                    ArpEntry { ip, mac, valid: true },
                ) && final(self).next_slot == (old(self).next_slot + 1) % (ARP_CACHE_SIZE as int),
            },
    {
        proof {
            lemma_first_match_range(self.entries@, ip@, 0);
        }
        match self.find(ip) {
            Some(i) => {
                let old_ip: [u8; 4] = self.entries[i].ip;
                let ghost before = self.entries@;
                self.entries.set(i, ArpEntry { ip: old_ip, mac, valid: true });
                proof {
                    lemma_first_match_update(before, ip@, i as int, self.entries@[i as int], 0);
                    if unique_ips(before) {
                        let e = self.entries@;
                        assert forall|a: int, b: int| 0 <= a < b < e.len() && #[trigger] e[a].valid && #[trigger] e[b].valid implies e[a].ip@
                            != e[b].ip@ by {
                            if a != i && b != i {
                                assert(e[a] == before[a] && e[b] == before[b]);
                            } else if a == i {
                                assert(e[b] == before[b]);
                                assert(e[a].ip@ == before[a].ip@);
                            } else {
                                assert(e[a] == before[a]);
                                assert(e[b].ip@ == before[b].ip@);
                            }
                        }
                    }
                }
            },
            None => {
                let slot: usize = self.next_slot;
                let ghost before = self.entries@;
                self.entries.set(slot, ArpEntry { ip, mac, valid: true });
                self.next_slot = (self.next_slot + 1) % ARP_CACHE_SIZE;
                proof {
                    lemma_first_match_new(before, ip@, slot as int, self.entries@[slot as int], 0);
                    lemma_no_match(before, ip@, 0);
                    if unique_ips(before) {
                        let e = self.entries@;
                        assert forall|a: int, b: int| 0 <= a < b < e.len() && #[trigger] e[a].valid && #[trigger] e[b].valid implies e[a].ip@
                            != e[b].ip@ by {
                            if a != slot && b != slot {
                                assert(e[a] == before[a] && e[b] == before[b]);
                            } else if a == slot {
                                assert(e[b] == before[b]);
                                assert(e[a].ip@ == ip@);
                            } else {
                                assert(e[a] == before[a]);
                                assert(e[b].ip@ == ip@);
                            }
                        }
                    }
                }
            },
        }
    }
}

pub proof fn lemma_first_match_range(e: Seq<ArpEntry>, ip: Seq<u8>, from: int)
    ensures
        first_match(e, ip, from) matches Some(i) ==> 0 <= from <= i < e.len() && e[i].valid && e[i].ip@ == ip,
    decreases e.len() - from,
{
    if 0 <= from < e.len() {
        lemma_first_match_range(e, ip, from + 1);
    }
}

proof fn lemma_first_match_update(e: Seq<ArpEntry>, ip: Seq<u8>, i: int, ne: ArpEntry, from: int)
    requires
        0 <= from <= i < e.len(),
        first_match(e, ip, from) == Some(i),
        ne.valid,
        ne.ip@ == e[i].ip@,
    ensures
        first_match(e.update(i, ne), ip, from) == Some(i),
    decreases i - from,
{
    lemma_first_match_range(e, ip, from);
    if from < i {
        lemma_first_match_update(e, ip, i, ne, from + 1);
    }
}

proof fn lemma_first_match_new(e: Seq<ArpEntry>, ip: Seq<u8>, s: int, ne: ArpEntry, from: int)
    requires
        0 <= from,
        0 <= s < e.len(),
        first_match(e, ip, from) is None,
        ne.valid,
        ne.ip@ == ip,
        from <= s,
    ensures
        first_match(e.update(s, ne), ip, from) == Some(s),
    decreases s - from,
{
    if from < s {
        lemma_first_match_new(e, ip, s, ne, from + 1);
    }
}

/// Looks `ip` up in the cache.
pub fn cache_lookup(cache: &ArpCache, ip: [u8; 4]) -> (r: Option<[u8; 6]>)
    requires
        cache.wf(),
    ensures
        r matches Some(m) ==> cache.spec_lookup(ip@) == Some(m@),
        r is None ==> cache.spec_lookup(ip@) is None,
{
    cache.lookup(ip)
}

/// Records `ip -> mac` in the cache.
pub fn cache_insert(cache: &mut ArpCache, ip: [u8; 4], mac: [u8; 6])
    requires
        old(cache).wf(),
    ensures
        final(cache).wf(),
        final(cache).spec_lookup(ip@) == Some(mac@),
{
    cache.insert(ip, mac)
}

/// The 28 bytes of an ARP packet for Ethernet/IPv4.
pub open spec fn arp_bytes(op: u16, src_mac: Seq<u8>, src_ip: Seq<u8>, dst_mac: Seq<u8>, dst_ip: Seq<u8>) -> Seq<u8> {
    be16_bytes(ARP_HTYPE_ETHERNET) + be16_bytes(ARP_PTYPE_IPV4) + seq![6u8, 4u8] + be16_bytes(op)
        + src_mac + src_ip + dst_mac + dst_ip
}

pub fn build_arp_packet(op: u16, src_mac: [u8; 6], src_ip: [u8; 4], dst_mac: [u8; 6], dst_ip: [u8; 4], out: &mut Vec<u8>)
    requires
        old(out)@.len() >= ARP_PACKET_LEN,
    ensures
        final(out)@.len() == old(out)@.len(),
        final(out)@.subrange(0, 28) == arp_bytes(op, src_mac@, src_ip@, dst_mac@, dst_ip@),
{
    let _n: usize = out.len();
    put_be16(out, 0, ARP_HTYPE_ETHERNET);
    put_be16(out, 2, ARP_PTYPE_IPV4);
    out.set(4, 6);
    out.set(5, 4);
    put_be16(out, 6, op);
    write_bytes(out, 8, &src_mac);
    write_bytes(out, 14, &src_ip);
    write_bytes(out, 18, &dst_mac);
    write_bytes(out, 24, &dst_ip);
    assert(out@.subrange(0, 28) =~= arp_bytes(op, src_mac@, src_ip@, dst_mac@, dst_ip@));
}

fn arp_frame(op: u16, eth_dst: [u8; 6], src_mac: [u8; 6], src_ip: [u8; 4], dst_mac: [u8; 6], dst_ip: [u8; 4]) -> (r: Vec<u8>)
    ensures
        r@ == eth::frame_bytes(eth_dst@, src_mac@, eth::ETHERTYPE_ARP, arp_bytes(op, src_mac@, src_ip@, dst_mac@, dst_ip@)),
{
    let mut pkt: Vec<u8> = zeros(ARP_PACKET_LEN);
    build_arp_packet(op, src_mac, src_ip, dst_mac, dst_ip, &mut pkt);
    assert(pkt@ =~= pkt@.subrange(0, 28));
    let mut frame: Vec<u8> = zeros(eth::HEADER_LEN + ARP_PACKET_LEN);
    let len: usize = eth::build_frame(eth_dst, src_mac, eth::ETHERTYPE_ARP, pkt.as_slice(), &mut frame);
    assert(frame@ =~= frame@.subrange(0, len as int));
    frame
}

/// Handles a received ARP packet: the sender is always cached, and a
/// request for `my_ip` is answered with the reply frame returned here.
pub fn handle_packet(cache: &mut ArpCache, my_ip: [u8; 4], my_mac: [u8; 6], payload: &[u8], eth_header: &EthernetHeader) -> (r: Option<Vec<u8>>)
    requires
        old(cache).wf(),
    ensures
        final(cache).wf(),
        payload@.len() < ARP_PACKET_LEN ==> r is None && *final(cache) == *old(cache),
        payload@.len() >= ARP_PACKET_LEN ==> {
            &&& final(cache).spec_lookup(payload@.subrange(14, 18)) == Some(payload@.subrange(8, 14))
            &&& if be16(payload@, 6) == ARP_OP_REQUEST && payload@.subrange(24, 28) == my_ip@ {
                r matches Some(f) && f@ == eth::frame_bytes(eth_header.src_mac@, my_mac@, eth::ETHERTYPE_ARP,
                    arp_bytes(ARP_OP_REPLY, my_mac@, my_ip@, payload@.subrange(8, 14), payload@.subrange(14, 18)))
            } else {
                r is None
            }
        },
{
    if payload.len() < ARP_PACKET_LEN {
        return None;
    }
    let op: u16 = crate::bytes::rd_be16(payload, 6);
    let sender_mac: [u8; 6] = take6(payload, 8);
    let sender_ip: [u8; 4] = take4(payload, 14);
    let target_ip: [u8; 4] = take4(payload, 24);
    cache_insert(cache, sender_ip, sender_mac);
    let to_me: bool = target_ip[0] == my_ip[0] && target_ip[1] == my_ip[1] && target_ip[2] == my_ip[2]
        && target_ip[3] == my_ip[3];
    assert(to_me == (target_ip@ == my_ip@)) by {
        if to_me {
            assert(target_ip@ =~= my_ip@);
        }
    }
    if op == ARP_OP_REQUEST && to_me {
        Some(arp_frame(ARP_OP_REPLY, eth_header.src_mac, my_mac, my_ip, sender_mac, sender_ip))
    } else {
        None
    }
}

/// Outcome of trying to resolve an address.
pub enum ArpResolve {
    /// The cache already knows the MAC.
    Known([u8; 6]),
    /// Not cached: broadcast this request frame and wait for the reply.
    Ask(Vec<u8>),
}

/// First step of resolving `ip`: a cache hit, or the broadcast request.
pub fn resolve(cache: &ArpCache, ip: [u8; 4], my_ip: [u8; 4], my_mac: [u8; 6]) -> (r: ArpResolve)
    requires
        cache.wf(),
    ensures
        match cache.spec_lookup(ip@) {
            Some(m) => r matches ArpResolve::Known(x) && x@ == m,
            None => r matches ArpResolve::Ask(f) && f@ == eth::frame_bytes(eth::BROADCAST_MAC@, my_mac@,
                eth::ETHERTYPE_ARP, arp_bytes(ARP_OP_REQUEST, my_mac@, my_ip@, seq![0u8, 0u8, 0u8, 0u8, 0u8, 0u8], ip@)),
        },
{
    match cache_lookup(cache, ip) {
        Some(mac) => ArpResolve::Known(mac),
        None => {
            let zero: [u8; 6] = [0, 0, 0, 0, 0, 0];
            assert(zero@ =~= seq![0u8, 0u8, 0u8, 0u8, 0u8, 0u8]);
            ArpResolve::Ask(arp_frame(ARP_OP_REQUEST, eth::BROADCAST_MAC, my_mac, my_ip, zero, ip))
        },
    }
}

} // verus!
