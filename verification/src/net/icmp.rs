use vstd::prelude::*;
use crate::bytes::{be16, be16_bytes, put_be16, write_bytes, splice, zeros, copy_range};
use crate::net::checksum::{checksum, internet_checksum, lemma_raw_sum_bound};
use crate::net::ipv4;
use crate::net::ipv4::Ipv4Header;
use crate::net::arp::ArpCache;

verus! {

pub const TYPE_ECHO_REPLY: u8 = 0;
pub const TYPE_ECHO_REQUEST: u8 = 8;
pub const ECHO_HEADER_LEN: usize = 8;

/// The echo reply this host is waiting for.
pub struct PingState {
    pub waiting_id: u16,
    pub waiting_seq: u16,
    pub reply_received: bool,
}

/// The reply message for an echo request `msg`: type 0, checksum redone.
pub open spec fn echo_reply_bytes(msg: Seq<u8>) -> Seq<u8> {
    let t = splice(msg.update(0, TYPE_ECHO_REPLY), 2, seq![0u8, 0u8]);
    splice(t, 2, be16_bytes(internet_checksum(t)))
}

/// What a received echo/control message leads to.
pub enum EchoOutcome {
    /// Nothing to send.
    Nothing,
    /// Send this reply to the sender.
    Reply(Vec<u8>),
}

impl PingState {
    pub fn new() -> (r: PingState)
        ensures
            r.waiting_id == 0 && r.waiting_seq == 0 && !r.reply_received,
    {
        PingState { waiting_id: 0, waiting_seq: 0, reply_received: false }
    }

    /// Starts waiting for the reply with this id and sequence number.
    pub fn expect(&mut self, id: u16, seq: u16)
        ensures
            final(self).waiting_id == id,
            final(self).waiting_seq == seq,
            !final(self).reply_received,
    {
        self.waiting_id = id;
        self.waiting_seq = seq;
        self.reply_received = false;
    }
}

/// Handles an echo message carried in an IPv4 packet with header
/// `ip_header`: a request gets a reply frame (to the sender's cached MAC,
/// or broadcast when unknown); a reply matching the awaited id and
/// sequence marks the ping as answered.
pub fn handle_packet(state: &mut PingState, cache: &ArpCache, my_ip: [u8; 4], my_mac: [u8; 6], data: &[u8], ip_header: &Ipv4Header) -> (r: EchoOutcome)
    requires
        cache.wf(),
        data@.len() <= 1480,
    ensures
        data@.len() < ECHO_HEADER_LEN ==> r is Nothing && *final(state) == *old(state),
        data@.len() >= ECHO_HEADER_LEN && data@[0] == TYPE_ECHO_REQUEST ==> *final(state) == *old(state)
            && (r matches EchoOutcome::Reply(f) && f@ == ipv4::packet_frame(my_ip@, my_mac@, ip_header.src_ip@,
                match cache.spec_lookup(ip_header.src_ip@) { Some(m) => m, None => seq![0xFFu8, 0xFFu8, 0xFFu8, 0xFFu8, 0xFFu8, 0xFFu8] },
                ipv4::PROTO_CONTROL, echo_reply_bytes(data@), 0)),
        data@.len() >= ECHO_HEADER_LEN && data@[0] == TYPE_ECHO_REPLY ==> r is Nothing
            && final(state).waiting_id == old(state).waiting_id
            && final(state).waiting_seq == old(state).waiting_seq
            && final(state).reply_received == (old(state).reply_received || (old(state).waiting_id == be16(data@, 4)
                && old(state).waiting_seq == be16(data@, 6))),
        data@.len() >= ECHO_HEADER_LEN && data@[0] != TYPE_ECHO_REQUEST && data@[0] != TYPE_ECHO_REPLY
            ==> r is Nothing && *final(state) == *old(state),
{
    if data.len() < ECHO_HEADER_LEN {
        return EchoOutcome::Nothing;
    }
    let kind: u8 = data[0];
    if kind == TYPE_ECHO_REQUEST {
        let len: usize = data.len();
        let mut reply: Vec<u8> = copy_range(data, 0, len);
        reply.set(0, TYPE_ECHO_REPLY);
        put_be16(&mut reply, 2, 0);
        let ghost t = reply@;
        assert(t =~= splice(data@.update(0, TYPE_ECHO_REPLY), 2, seq![0u8, 0u8]));
        proof {
            lemma_raw_sum_bound(reply@);
        }
        let csum: u16 = checksum(reply.as_slice());
        put_be16(&mut reply, 2, csum);
        let dst_mac: [u8; 6] = match cache.lookup(ip_header.src_ip) {
            Some(m) => m,
            None => [0xff, 0xff, 0xff, 0xff, 0xff, 0xff],
        };
        assert(cache.spec_lookup(ip_header.src_ip@) is None ==> dst_mac@ =~= seq![0xFFu8, 0xFFu8, 0xFFu8, 0xFFu8, 0xFFu8, 0xFFu8]);
        let f: Vec<u8> = ipv4::send_packet(my_ip, my_mac, ip_header.src_ip, dst_mac, ipv4::PROTO_CONTROL, reply.as_slice(), 0);
        EchoOutcome::Reply(f)
    } else if kind == TYPE_ECHO_REPLY {
        let id: u16 = crate::bytes::rd_be16(data, 4);
        let seq: u16 = crate::bytes::rd_be16(data, 6);
        if state.waiting_id == id && state.waiting_seq == seq && !state.reply_received {
            state.reply_received = true;
        }
        EchoOutcome::Nothing
    } else {
        EchoOutcome::Nothing
    }
}

/// The echo request message: header with checksum, then `payload`.
pub open spec fn echo_request_bytes(id: u16, seq: u16, payload: Seq<u8>) -> Seq<u8> {
    let t = seq![TYPE_ECHO_REQUEST, 0u8, 0u8, 0u8] + be16_bytes(id) + be16_bytes(seq) + payload;
    splice(t, 2, be16_bytes(internet_checksum(t)))
}

/// Writes an echo request to the front of `out` and returns its length.
pub fn build_echo_request(id: u16, seq: u16, payload: &[u8], out: &mut Vec<u8>) -> (r: usize)
    requires
        ECHO_HEADER_LEN + payload@.len() <= old(out)@.len(),
        payload@.len() <= 1472,
    ensures
        r == ECHO_HEADER_LEN + payload@.len(),
        final(out)@ == splice(old(out)@, 0, echo_request_bytes(id, seq, payload@)),
{
    let _n: usize = out.len();
    let total_len: usize = ECHO_HEADER_LEN + payload.len();
    let mut m: Vec<u8> = zeros(total_len);
    m.set(0, TYPE_ECHO_REQUEST);
    m.set(1, 0);
    put_be16(&mut m, 2, 0);
    put_be16(&mut m, 4, id);
    put_be16(&mut m, 6, seq);
    write_bytes(&mut m, 8, payload);
    assert(m@ =~= seq![TYPE_ECHO_REQUEST, 0u8, 0u8, 0u8] + be16_bytes(id) + be16_bytes(seq) + payload@);
    proof {
        lemma_raw_sum_bound(m@);
    }
    let csum: u16 = checksum(m.as_slice());
    put_be16(&mut m, 2, csum);
    write_bytes(out, 0, m.as_slice());
    total_len
}

} // verus!
