use deix::net::arp::{self, ArpCache, ArpResolve};
use deix::net::checksum::checksum;
use deix::net::eth::{self, EthernetHeader};
use deix::net::http;
use deix::net::icmp::{self, EchoOutcome, PingState};
use deix::net::ipv4::{self, Ipv4Delivery, Ipv4Header, SendStep};
use deix::net::tcp::{self, TcpConn, TcpStack};
use deix::net::{on_ethernet_frame, NetConfig};

const MY_MAC: [u8; 6] = [0x52, 0x54, 0x00, 0x12, 0x34, 0x56];
const PEER_MAC: [u8; 6] = [0x02, 0x00, 0x00, 0x00, 0x00, 0x02];

fn sums_to_zero(bytes: &[u8]) -> bool {
    checksum(bytes) == 0
}

#[test]
fn checksum_known_header() {
    let h = [
        0x45, 0x00, 0x00, 0x73, 0x00, 0x00, 0x40, 0x00, 0x40, 0x11, 0x00, 0x00, 0xc0, 0xa8, 0x00, 0x01, 0xc0, 0xa8,
        0x00, 0xc7,
    ];
    assert_eq!(checksum(&h), 0xb861);
    let mut full = h;
    full[10] = 0xb8;
    full[11] = 0x61;
    assert!(sums_to_zero(&full));
    assert_eq!(checksum(&[0x01]), !0x0100u16);
    assert_eq!(checksum(&[]), 0xFFFF);
}

#[test]
fn ethernet_frame_build_and_parse() {
    let mut out = vec![0xAAu8; 40];
    let n = eth::build_frame(PEER_MAC, MY_MAC, eth::ETHERTYPE_IPV4, &[1, 2, 3], &mut out);
    assert_eq!(n, 17);
    assert_eq!(&out[..6], &PEER_MAC);
    assert_eq!(&out[6..12], &MY_MAC);
    assert_eq!(&out[12..14], &[0x08, 0x00]);
    assert_eq!(&out[14..17], &[1, 2, 3]);
    assert_eq!(out[17], 0xAA);
    let h = EthernetHeader::parse(&out).unwrap();
    assert_eq!(h.dst_mac, PEER_MAC);
    assert_eq!(h.src_mac, MY_MAC);
    assert_eq!(h.ethertype, 0x0800);
    assert!(EthernetHeader::parse(&out[..13]).is_none());
}

#[test]
fn arp_cache_insert_lookup_and_round_robin() {
    let mut c = ArpCache::new();
    assert_eq!(c.lookup([10, 0, 2, 2]), None);
    arp::cache_insert(&mut c, [10, 0, 2, 2], PEER_MAC);
    assert_eq!(arp::cache_lookup(&c, [10, 0, 2, 2]), Some(PEER_MAC));
    c.insert([10, 0, 2, 2], MY_MAC);
    assert_eq!(c.lookup([10, 0, 2, 2]), Some(MY_MAC));
    assert_eq!(c.next_slot, 1);
    for i in 0..8u8 {
        c.insert([192, 168, 0, i], [i; 6]);
    }
    assert_eq!(c.lookup([10, 0, 2, 2]), None);
    assert_eq!(c.lookup([192, 168, 0, 7]), Some([7; 6]));
    assert_eq!(c.next_slot, 1);
}

#[test]
fn arp_packet_layout() {
    let mut out = vec![0u8; 28];
    arp::build_arp_packet(arp::ARP_OP_REQUEST, MY_MAC, [10, 0, 2, 15], [0; 6], [10, 0, 2, 2], &mut out);
    let mut expected = vec![0x00, 0x01, 0x08, 0x00, 6, 4, 0x00, 0x01];
    expected.extend_from_slice(&MY_MAC);
    expected.extend_from_slice(&[10, 0, 2, 15]);
    expected.extend_from_slice(&[0; 6]);
    expected.extend_from_slice(&[10, 0, 2, 2]);
    assert_eq!(out, expected);
}

#[test]
fn arp_request_for_me_is_answered() {
    let mut c = ArpCache::new();
    let mut req = vec![0u8; 28];
    arp::build_arp_packet(arp::ARP_OP_REQUEST, PEER_MAC, [10, 0, 2, 2], [0; 6], [10, 0, 2, 15], &mut req);
    let eh = EthernetHeader { dst_mac: [0xFF; 6], src_mac: PEER_MAC, ethertype: eth::ETHERTYPE_ARP };
    let reply = arp::handle_packet(&mut c, [10, 0, 2, 15], MY_MAC, &req, &eh).unwrap();
    assert_eq!(reply.len(), 42);
    assert_eq!(&reply[..6], &PEER_MAC);
    assert_eq!(&reply[6..12], &MY_MAC);
    assert_eq!(&reply[12..14], &[0x08, 0x06]);
    assert_eq!(&reply[20..22], &[0x00, 0x02]);
    assert_eq!(&reply[22..28], &MY_MAC);
    assert_eq!(&reply[28..32], &[10, 0, 2, 15]);
    assert_eq!(&reply[32..38], &PEER_MAC);
    assert_eq!(&reply[38..42], &[10, 0, 2, 2]);
    assert_eq!(c.lookup([10, 0, 2, 2]), Some(PEER_MAC));
    let mut other = vec![0u8; 28];
    arp::build_arp_packet(arp::ARP_OP_REQUEST, PEER_MAC, [10, 0, 2, 3], [0; 6], [10, 0, 2, 99], &mut other);
    assert!(arp::handle_packet(&mut c, [10, 0, 2, 15], MY_MAC, &other, &eh).is_none());
    assert_eq!(c.lookup([10, 0, 2, 3]), Some(PEER_MAC));
    assert!(arp::handle_packet(&mut c, [10, 0, 2, 15], MY_MAC, &other[..20], &eh).is_none());
}

#[test]
fn arp_resolve_known_or_ask() {
    let mut c = ArpCache::new();
    match arp::resolve(&c, [10, 0, 2, 2], [10, 0, 2, 15], MY_MAC) {
        ArpResolve::Ask(f) => {
            assert_eq!(&f[..6], &[0xFF; 6]);
            assert_eq!(&f[20..22], &[0x00, 0x01]);
            assert_eq!(&f[38..42], &[10, 0, 2, 2]);
        }
        ArpResolve::Known(_) => panic!("empty cache knows nothing"),
    }
    c.insert([10, 0, 2, 2], PEER_MAC);
    assert!(matches!(arp::resolve(&c, [10, 0, 2, 2], [10, 0, 2, 15], MY_MAC), ArpResolve::Known(m) if m == PEER_MAC));
}

#[test]
fn ipv4_header_and_frame() {
    let mut out = vec![0u8; 20];
    ipv4::build_header(1, [10, 0, 2, 15], [10, 0, 2, 2], 12, 0x1234, &mut out);
    assert_eq!(&out[..10], &[0x45, 0, 0, 32, 0x12, 0x34, 0, 0, 64, 1]);
    assert_eq!(&out[12..16], &[10, 0, 2, 15]);
    assert_eq!(&out[16..20], &[10, 0, 2, 2]);
    assert!(sums_to_zero(&out));
    let f = ipv4::send_packet([10, 0, 2, 15], MY_MAC, [10, 0, 2, 2], PEER_MAC, 17, b"hi", 7);
    assert_eq!(f.len(), 14 + 20 + 2);
    assert_eq!(&f[12..14], &[0x08, 0x00]);
    assert_eq!(&f[34..], b"hi");
    assert!(sums_to_zero(&f[14..34]));
    let h = Ipv4Header::parse(&f[14..]).unwrap();
    assert_eq!(h.header_len, 20);
    assert_eq!(h.total_length, 22);
    assert_eq!(h.protocol, 17);
    assert_eq!(h.src_ip, [10, 0, 2, 15]);
    assert!(Ipv4Header::parse(&f[14..30]).is_none());
}

#[test]
fn ipv4_delivery_decisions() {
    let f = ipv4::send_packet([10, 0, 2, 2], PEER_MAC, [10, 0, 2, 15], MY_MAC, 1, &[8, 0, 0, 0, 0, 1, 0, 1], 0);
    match ipv4::handle_packet(&f[14..], [10, 0, 2, 15]) {
        Ipv4Delivery::ControlMessage { header, start, end } => {
            assert_eq!((start, end), (20, 28));
            assert_eq!(header.src_ip, [10, 0, 2, 2]);
        }
        Ipv4Delivery::Drop => panic!("echo for this host dropped"),
    }
    assert!(matches!(ipv4::handle_packet(&f[14..], [10, 0, 2, 16]), Ipv4Delivery::Drop));
    let udp = ipv4::send_packet([10, 0, 2, 2], PEER_MAC, [10, 0, 2, 15], MY_MAC, 17, &[1, 2], 0);
    assert!(matches!(ipv4::handle_packet(&udp[14..], [10, 0, 2, 15]), Ipv4Delivery::Drop));
    let bc = ipv4::send_packet([10, 0, 2, 2], PEER_MAC, [255, 255, 255, 255], MY_MAC, 1, &[8, 0, 0, 0], 0);
    assert!(matches!(ipv4::handle_packet(&bc[14..], [10, 0, 2, 15]), Ipv4Delivery::ControlMessage { .. }));
}

#[test]
fn routing_next_hop() {
    assert!(ipv4::same_subnet([10, 0, 2, 99], [10, 0, 2, 15]));
    assert!(!ipv4::same_subnet([8, 8, 8, 8], [10, 0, 2, 15]));
    assert_eq!(ipv4::next_hop([10, 0, 2, 99], [10, 0, 2, 15], [10, 0, 2, 2]), [10, 0, 2, 99]);
    assert_eq!(ipv4::next_hop([142, 250, 190, 46], [10, 0, 2, 15], [10, 0, 2, 2]), [10, 0, 2, 2]);
}

#[test]
fn send_resolving_uses_gateway_mac() {
    let mut c = ArpCache::new();
    let me = [10, 0, 2, 15];
    let gw = [10, 0, 2, 2];
    match ipv4::send_packet_resolving(me, gw, MY_MAC, &c, [142, 250, 190, 46], 6, b"x", 1) {
        SendStep::Ask(f) => assert_eq!(&f[38..42], &gw),
        SendStep::Frame(_) => panic!("no MAC known yet"),
    }
    c.insert(gw, PEER_MAC);
    match ipv4::send_packet_resolving(me, gw, MY_MAC, &c, [142, 250, 190, 46], 6, b"x", 1) {
        SendStep::Frame(f) => {
            assert_eq!(&f[..6], &PEER_MAC);
            assert_eq!(&f[30..34], &[142, 250, 190, 46]);
        }
        SendStep::Ask(_) => panic!("gateway MAC is cached"),
    }
}

#[test]
fn icmp_echo_request_and_reply() {
    let mut out = vec![0u8; 12];
    let n = icmp::build_echo_request(0x0102, 3, b"ping", &mut out);
    assert_eq!(n, 12);
    assert_eq!(&out[..2], &[8, 0]);
    assert_eq!(&out[4..8], &[0x01, 0x02, 0, 3]);
    assert!(sums_to_zero(&out));

    let mut st = PingState::new();
    let c = ArpCache::new();
    let iph = Ipv4Header { version_ihl: 0x45, total_length: 32, protocol: 1, src_ip: [10, 0, 2, 2], dst_ip: [10, 0, 2, 15], header_len: 20 };
    match icmp::handle_packet(&mut st, &c, [10, 0, 2, 15], MY_MAC, &out, &iph) {
        EchoOutcome::Reply(f) => {
            assert_eq!(&f[..6], &[0xFF; 6]);
            let msg = &f[34..];
            assert_eq!(msg[0], 0);
            assert_eq!(&msg[4..], &out[4..]);
            assert!(sums_to_zero(msg));
        }
        EchoOutcome::Nothing => panic!("request must be answered"),
    }
    st.expect(0x0102, 3);
    let mut reply = out.clone();
    reply[0] = 0;
    assert!(matches!(icmp::handle_packet(&mut st, &c, [10, 0, 2, 15], MY_MAC, &reply, &iph), EchoOutcome::Nothing));
    assert!(st.reply_received);
    let mut st2 = PingState::new();
    st2.expect(9, 9);
    icmp::handle_packet(&mut st2, &c, [10, 0, 2, 15], MY_MAC, &reply, &iph);
    assert!(!st2.reply_received);
}

#[test]
fn frames_dispatch_to_handlers() {
    let cfg = NetConfig::default();
    assert_eq!(deix::net::my_ip(&cfg), [10, 0, 2, 15]);
    assert_eq!(deix::net::gateway_ip(&cfg), [10, 0, 2, 2]);
    let mut cache = ArpCache::new();
    let mut ping = PingState::new();
    let mut req = vec![0u8; 28];
    arp::build_arp_packet(arp::ARP_OP_REQUEST, PEER_MAC, [10, 0, 2, 2], [0; 6], [10, 0, 2, 15], &mut req);
    let mut frame = vec![0u8; 42];
    eth::build_frame([0xFF; 6], PEER_MAC, eth::ETHERTYPE_ARP, &req, &mut frame);
    let answer = on_ethernet_frame(&cfg, &mut cache, &mut ping, MY_MAC, &frame).unwrap();
    assert_eq!(&answer[..6], &PEER_MAC);
    assert_eq!(cache.lookup([10, 0, 2, 2]), Some(PEER_MAC));

    let mut echo = vec![0u8; 8];
    icmp::build_echo_request(1, 1, &[], &mut echo);
    let ping_frame = ipv4::send_packet([10, 0, 2, 2], PEER_MAC, [10, 0, 2, 15], MY_MAC, 1, &echo, 0);
    let pong = on_ethernet_frame(&cfg, &mut cache, &mut ping, MY_MAC, &ping_frame).unwrap();
    assert_eq!(&pong[..6], &PEER_MAC);
    assert_eq!(pong[34], 0);
    assert!(on_ethernet_frame(&cfg, &mut cache, &mut ping, MY_MAC, &[0u8; 10]).is_none());
    let mut ipv6 = frame.clone();
    ipv6[12] = 0x86;
    ipv6[13] = 0xDD;
    assert!(on_ethernet_frame(&cfg, &mut cache, &mut ping, MY_MAC, &ipv6).is_none());

    let mut cfg2 = NetConfig::default();
    deix::net::set_my_ip(&mut cfg2, [192, 168, 1, 5]);
    assert_eq!(cfg2.ip, [192, 168, 1, 5]);
    assert_eq!(cfg2.gateway, [10, 0, 2, 2]);
}

#[test]
fn url_parsing() {
    assert_eq!(http::parse_url("http://example.com/index.html"), Some(("example.com".to_string(), 80, "/index.html".to_string())));
    assert_eq!(http::parse_url("  http://10.0.2.2:8080/TEST.OTA "), Some(("10.0.2.2".to_string(), 8080, "/TEST.OTA".to_string())));
    assert_eq!(http::parse_url("example.com"), Some(("example.com".to_string(), 80, "/".to_string())));
    assert_eq!(http::parse_url("https://host:notaport/x"), Some(("host".to_string(), 80, "/x".to_string())));
    assert_eq!(http::parse_url("http:///path"), None);
    assert_eq!(http::parse_url(""), None);
}

#[test]
fn host_resolution_table() {
    assert_eq!(http::resolve("192.168.1.20"), Some([192, 168, 1, 20]));
    assert_eq!(http::resolve("  Google.COM "), Some([142, 250, 190, 46]));
    assert_eq!(http::resolve("localhost"), Some([10, 0, 2, 15]));
    assert_eq!(http::resolve("router"), Some([10, 0, 2, 2]));
    assert_eq!(http::resolve("www.wikipedia.org"), Some([185, 15, 58, 224]));
    assert_eq!(http::resolve("github.com"), Some([140, 82, 121, 4]));
    assert_eq!(http::resolve("unknown.example"), Some([10, 0, 2, 2]));
    assert_eq!(http::resolve("1.2.3.256"), Some([10, 0, 2, 2]));
}

#[test]
fn header_end_and_content_length() {
    let raw = b"HTTP/1.0 200 OK\r\nContent-Length: 5\r\n\r\nhello";
    assert_eq!(http::find_header_end(raw), Some(38));
    assert_eq!(http::find_header_end(b"HTTP/1.0 200 OK\r\n"), None);
    assert_eq!(http::content_length(b"HTTP/1.0 200 OK\r\ncontent-LENGTH:   42  \r\n\r\n"), Some(42));
    assert_eq!(http::content_length(b"HTTP/1.0 200 OK\r\nServer: x\r\n\r\n"), None);
    assert_eq!(http::content_length(b"Content-Length: abc\r\n"), None);
    assert_eq!(http::content_length(&[0xFF, 0xFE]), None);
}

#[test]
fn requests_text() {
    assert_eq!(
        http::text_request("/", "deix.os"),
        "GET / HTTP/1.0\r\nHost: deix.os\r\nUser-Agent: DeiX-Browser/2.0 (DeiX OS x86_64)\r\nAccept: text/html,text/plain\r\nConnection: close\r\n\r\n"
    );
    assert_eq!(
        http::binary_request("/TEST.OTA", "10.0.2.2"),
        "GET /TEST.OTA HTTP/1.0\r\nHost: 10.0.2.2\r\nUser-Agent: DeiX-OTA/1.0\r\nConnection: close\r\n\r\n"
    );
}

#[test]
fn download_stop_rules() {
    let full = b"HTTP/1.0 200 OK\r\nContent-Length: 5\r\n\r\nhello";
    let partial = b"HTTP/1.0 200 OK\r\nContent-Length: 5\r\n\r\nhel";
    assert!(http::fetch_text_done(full, true, 10));
    assert!(!http::fetch_text_done(partial, true, 10));
    assert!(http::fetch_text_done(partial, false, 1600));
    assert!(!http::fetch_text_done(b"", false, 1600));
    assert!(http::fetch_text_done(b"", false, 4001));
    let big = vec![b'a'; http::TEXT_LIMIT + 1];
    assert!(http::fetch_text_done(&big, true, 0));

    assert!(http::get_binary_done(full, true, 100, 0));
    assert!(!http::get_binary_done(partial, true, 100, 0));
    assert!(http::get_binary_done(b"HTTP/1.0 200 OK\r\n\r\nx", true, 100, 0));
    assert!(!http::get_binary_done(b"HTTP/1.0 200 OK\r\n\r\n", true, 100, 0));
    assert!(http::get_binary_done(b"", false, 100, 15001));
    let huge = vec![0u8; 100 + 8193];
    assert!(http::get_binary_done(&huge, true, 100, 0));
}

#[test]
fn response_bodies() {
    assert_eq!(http::text_body(b"HTTP/1.0 200 OK\r\n\r\n<p>hi</p>"), Ok("<p>hi</p>".to_string()));
    assert_eq!(http::text_body(b"no header at all"), Ok("no header at all".to_string()));
    assert_eq!(http::text_body(b"H\r\n\r\nok\xFF"), Ok("ok\u{FFFD}".to_string()));
    assert_eq!(http::text_body(b""), Err("Сервер не прислал ответа".to_string()));
    assert_eq!(http::binary_body(b"HTTP/1.0 200 OK\r\n\r\n\x00\x01"), Ok(vec![0, 1]));
    assert_eq!(http::binary_body(b""), Err("No response".to_string()));
    assert_eq!(http::binary_body(b"garbage"), Err("No header terminator".to_string()));
}

fn stack_with_conn() -> TcpStack {
    TcpStack {
        conn: Some(TcpConn { state: 1, sport: 49152, dip: [10, 0, 2, 2], dport: 80, seq: 1000, ack: 5000 }),
        next_port: 49153,
        rx: Vec::new(),
    }
}

#[test]
fn tcp_send_builds_segment_and_advances() {
    let mut st = stack_with_conn();
    let (ip, seg) = tcp::send(&mut st, [10, 0, 2, 15], b"GET /").unwrap();
    assert_eq!(ip, [10, 0, 2, 2]);
    assert_eq!(seg.len(), 25);
    assert_eq!(&seg[..4], &[0xC0, 0x00, 0x00, 0x50]);
    assert_eq!(&seg[4..8], &1000u32.to_be_bytes());
    assert_eq!(&seg[8..12], &5000u32.to_be_bytes());
    assert_eq!(&seg[12..14], &[0x50, 0x18]);
    assert_eq!(&seg[14..16], &[0x20, 0x00]);
    assert_eq!(&seg[20..], b"GET /");
    let mut pseudo = vec![10, 0, 2, 15, 10, 0, 2, 2, 0, 6, 0, 25];
    pseudo.extend_from_slice(&seg);
    assert!(sums_to_zero(&pseudo));
    assert_eq!(st.conn.as_ref().unwrap().seq, 1005);
    assert_eq!(st.next_port, 49153);
}

#[test]
fn tcp_send_without_connection() {
    let mut st = TcpStack { conn: None, next_port: 49152, rx: Vec::new() };
    assert!(tcp::send(&mut st, [10, 0, 2, 15], b"x").is_none());
    let mut half = stack_with_conn();
    half.conn.as_mut().unwrap().state = 0;
    assert!(tcp::send(&mut half, [10, 0, 2, 15], b"x").is_none());
    assert_eq!(half.conn.as_ref().unwrap().seq, 1000);
}

#[test]
fn tcp_close_sends_fin() {
    let mut st = stack_with_conn();
    let (ip, seg) = tcp::close(&mut st, [10, 0, 2, 15]).unwrap();
    assert_eq!(ip, [10, 0, 2, 2]);
    assert_eq!(seg.len(), 20);
    assert_eq!(&seg[12..14], &[0x50, 0x11]);
    assert!(st.conn.is_none());
    assert!(tcp::close(&mut st, [10, 0, 2, 15]).is_none());
}

#[test]
fn tcp_rx_queue_is_fifo() {
    let mut st = stack_with_conn();
    assert!(tcp::rx_dequeue(&mut st).is_none());
    tcp::rx_enqueue(&mut st, vec![1]);
    tcp::rx_enqueue(&mut st, vec![2, 2]);
    tcp::rx_enqueue(&mut st, vec![3]);
    assert_eq!(tcp::rx_dequeue(&mut st), Some(vec![1]));
    assert_eq!(tcp::rx_dequeue(&mut st), Some(vec![2, 2]));
    tcp::rx_enqueue(&mut st, vec![4]);
    assert_eq!(tcp::rx_dequeue(&mut st), Some(vec![3]));
    assert_eq!(tcp::rx_dequeue(&mut st), Some(vec![4]));
    assert!(tcp::rx_dequeue(&mut st).is_none());
}
