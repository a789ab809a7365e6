use bytes::BytesMut;
use uip::state::AddressKind;
use uip::state::DeliverOutcome;
use uip::state::InterfaceAddress;
use uip::state::InterfaceReport;
use uip::state::PeerInformationBase;
use uip::state::PeerRecord;
use uip::state::SendOutcome;
use uip::state::SocketAddress;
use uip::state::State;
use uip::transport::SendStatus;
use uip::transport::Transport;

fn payload(bytes: &[u8]) -> BytesMut {
    let mut b = BytesMut::new();
    b.extend_from_slice(bytes);
    b
}

fn empty_state() -> State {
    State::from_configuration("local".to_string(), Vec::new(), PeerInformationBase::new())
}

fn addr(ip: &[u8], port: u16) -> SocketAddress {
    SocketAddress::new(ip.to_vec(), port)
}

#[test]
fn register_then_deliver_forwards_exact_payload() {
    let mut s = empty_state();
    s.register_route("A".to_string(), 3);
    let r = s.deliver_frame("A".to_string(), 3, payload(b"hi there"));
    assert_eq!(r, DeliverOutcome::Delivered);
    let got = s.pop_route_payload("A".to_string(), 3).expect("queued payload");
    assert_eq!(&got[..], b"hi there");
    assert!(s.pop_route_payload("A".to_string(), 3).is_none());
}

#[test]
fn deliver_without_registration_is_a_noop() {
    let mut s = empty_state();
    s.register_route("A".to_string(), 3);
    let r = s.deliver_frame("A".to_string(), 4, payload(b"dropped"));
    assert_eq!(r, DeliverOutcome::NoRoute);
    assert!(s.pop_route_payload("A".to_string(), 4).is_none());
    assert!(s.pop_route_payload("A".to_string(), 3).is_none());
}

#[test]
fn delivery_queue_is_fifo_and_bounded() {
    let mut s = empty_state();
    s.register_route("A".to_string(), 1);
    for i in 0..10u8 {
        assert_eq!(s.deliver_frame("A".to_string(), 1, payload(&[i])), DeliverOutcome::Delivered);
    }
    assert_eq!(s.deliver_frame("A".to_string(), 1, payload(b"x")), DeliverOutcome::ChannelFull);
    for i in 0..10u8 {
        let got = s.pop_route_payload("A".to_string(), 1).expect("payload");
        assert_eq!(&got[..], &[i]);
    }
}

#[test]
fn send_frame_without_transport_returns_at_once() {
    let mut s = empty_state();
    let r = s.send_frame("nobody".to_string(), 1, payload(b"hello"));
    assert_eq!(r, SendOutcome::NoTransport);
}

#[test]
fn distinct_registrations_yield_exactly_n_routes() {
    let mut s = empty_state();
    s.register_route("A".to_string(), 1);
    s.register_route("A".to_string(), 2);
    s.register_route("B".to_string(), 1);
    assert_eq!(s.route_count(), 3);
    s.register_route("A".to_string(), 1);
    assert_eq!(s.route_count(), 3);
}

#[test]
fn reregistration_starts_with_a_fresh_queue() {
    let mut s = empty_state();
    s.register_route("A".to_string(), 1);
    assert_eq!(s.deliver_frame("A".to_string(), 1, payload(b"old")), DeliverOutcome::Delivered);
    s.register_route("A".to_string(), 1);
    assert!(s.pop_route_payload("A".to_string(), 1).is_none());
}

#[test]
fn transport_queue_backpressure_and_wire_bytes() {
    let mut s = empty_state();
    let (_, idx) = s.add_connection("A".to_string(), Transport::new("A".to_string()));
    assert_eq!(idx, 0);
    for _ in 0..10 {
        assert_eq!(s.send_frame("A".to_string(), 1, payload(b"hello")), SendOutcome::Enqueued);
    }
    assert_eq!(s.send_frame("A".to_string(), 1, payload(b"hello")), SendOutcome::QueueFull);
    let host = "A".to_string();
    let wire = s.pop_outbound(&host, 0).expect("queued frame");
    assert_eq!(&wire[..], &[0x03, 0x00, 0x01, 0x00, 0x05, 0x68, 0x65, 0x6c, 0x6c, 0x6f]);
}

#[test]
fn outbound_frames_leave_in_order() {
    let mut s = empty_state();
    s.add_connection("A".to_string(), Transport::new("A".to_string()));
    s.send_frame("A".to_string(), 1, payload(b"first"));
    s.send_frame("A".to_string(), 2, payload(b"second"));
    let host = "A".to_string();
    let first = s.pop_outbound(&host, 0).expect("first frame");
    assert_eq!(&first[..], &[3, 0, 1, 0, 5, b'f', b'i', b'r', b's', b't']);
    let second = s.pop_outbound(&host, 0).expect("second frame");
    assert_eq!(&second[..], &[3, 0, 2, 0, 6, b's', b'e', b'c', b'o', b'n', b'd']);
    assert!(s.pop_outbound(&host, 0).is_none());
}

#[test]
fn transport_read_dispatches_frames() {
    let mut s = empty_state();
    s.add_connection("A".to_string(), Transport::new("A".to_string()));
    s.register_route("A".to_string(), 1);
    let host = "A".to_string();
    let frames = s.transport_read(&host, 0, &[3, 0, 1, 0, 2, 0xaa, 0xbb, 1]);
    assert_eq!(frames.len(), 2);
    for f in frames {
        if let uip::codec::Frame::Data(ch, data) = f {
            assert_eq!(ch, 1);
            assert_eq!(s.deliver_frame(host.clone(), ch, data), DeliverOutcome::Delivered);
        }
    }
    let got = s.pop_route_payload("A".to_string(), 1).expect("delivered payload");
    assert_eq!(&got[..], &[0xaa, 0xbb]);
}

#[test]
fn unknown_tag_kills_the_transport() {
    let mut s = empty_state();
    s.add_connection("A".to_string(), Transport::new("A".to_string()));
    let host = "A".to_string();
    let frames = s.transport_read(&host, 0, &[3, 0, 1, 0, 1, 0xcc, 9]);
    assert_eq!(frames.len(), 1);
    assert!(s.transport_read(&host, 0, &[1]).is_empty());
    assert_eq!(s.send_frame("A".to_string(), 1, payload(b"x")), SendOutcome::TransportClosed);
}

#[test]
fn dead_transport_send_status() {
    let mut t = Transport::new("A".to_string());
    assert!(t.is_alive());
    t.close();
    assert!(!t.is_alive());
    assert_eq!(t.send_frame(1, payload(b"x")), SendStatus::Closed);
}

#[test]
fn reconnect_appends_instead_of_replacing() {
    let mut s = empty_state();
    let (e0, i0) = s.add_connection("A".to_string(), Transport::new("A".to_string()));
    let (e1, i1) = s.add_connection("A".to_string(), Transport::new("A".to_string()));
    assert_eq!((e0, i0), (0, 0));
    assert_eq!((e1, i1), (0, 1));
    let host = "A".to_string();
    assert_eq!(s.transport_count(&host), 2);
    s.send_frame("A".to_string(), 1, payload(b"primary"));
    assert!(s.pop_outbound(&host, 1).is_none(), "second transport stays idle");
    assert!(s.pop_outbound(&host, 0).is_some(), "first transport is the primary route");
}

#[test]
fn relay_plan_uses_first_address_and_pinned_certificate() {
    let mut pib = PeerInformationBase::new();
    pib.add_peer(
        "relay1".to_string(),
        PeerRecord {
            addresses: vec![addr(&[127, 0, 0, 1], 9000), addr(&[10, 0, 0, 1], 9001)],
            certificate: vec![0xde, 0xad],
        },
    );
    pib.add_peer(
        "relay2".to_string(),
        PeerRecord { addresses: Vec::new(), certificate: vec![1] },
    );
    let relays =
        vec!["relay1".to_string(), "relay2".to_string(), "missing".to_string()];
    let s = State::from_configuration("local".to_string(), relays, pib);
    let plan = s.connect_to_relays();
    assert_eq!(plan.len(), 1, "unresolvable and address-less relays are skipped");
    assert_eq!(plan[0].peer, "relay1");
    assert_eq!(plan[0].address.ip, vec![127, 0, 0, 1]);
    assert_eq!(plan[0].address.port, 9000);
    assert_eq!(plan[0].certificate, vec![0xde, 0xad]);
}

#[test]
fn directory_overwrites_per_peer() {
    let mut pib = PeerInformationBase::new();
    pib.add_peer(
        "p".to_string(),
        PeerRecord { addresses: vec![addr(&[1, 1, 1, 1], 1)], certificate: vec![1] },
    );
    pib.add_peer(
        "p".to_string(),
        PeerRecord { addresses: vec![addr(&[2, 2, 2, 2], 2)], certificate: vec![2] },
    );
    let rec = pib.get_peer(&"p".to_string()).expect("record");
    assert_eq!(rec.addresses.len(), 1);
    assert_eq!(rec.addresses[0].ip, vec![2, 2, 2, 2]);
    assert!(pib.get_peer(&"q".to_string()).is_none());
}

#[test]
fn discover_addresses_filters_interfaces() {
    let mut s = empty_state();
    let scan = vec![
        InterfaceReport {
            name: "lo".to_string(),
            loopback: true,
            up: true,
            addresses: vec![InterfaceAddress {
                kind: AddressKind::Ipv4,
                address: Some(addr(&[127, 0, 0, 1], 0)),
            }],
        },
        InterfaceReport {
            name: "eth0".to_string(),
            loopback: false,
            up: true,
            addresses: vec![
                InterfaceAddress {
                    kind: AddressKind::Ipv4,
                    address: Some(addr(&[192, 168, 0, 2], 0)),
                },
                InterfaceAddress { kind: AddressKind::Other, address: Some(addr(&[9], 0)) },
                InterfaceAddress { kind: AddressKind::Ipv6, address: None },
            ],
        },
        InterfaceReport {
            name: "eth1".to_string(),
            loopback: false,
            up: false,
            addresses: vec![InterfaceAddress {
                kind: AddressKind::Ipv4,
                address: Some(addr(&[10, 0, 0, 5], 0)),
            }],
        },
    ];
    s.discover_addresses(Some(scan));
    let cached = s.local_addresses();
    assert_eq!(cached.len(), 1);
    assert_eq!(cached[0].interface, "eth0");
    assert_eq!(cached[0].internal_address.ip, vec![192, 168, 0, 2]);
    assert!(cached[0].external_address.is_none());
    s.discover_addresses(None);
    assert_eq!(s.local_addresses().len(), 1, "a failed scan keeps the previous list");
}

#[test]
fn tick_opens_the_control_socket_once() {
    let mut s = empty_state();
    let (plan, open_ctl) = s.tick(None);
    assert!(plan.is_empty());
    assert!(open_ctl, "first tick must open the control socket");
    s.ctl_socket_opened();
    let (_, open_again) = s.tick(None);
    assert!(!open_again, "an open socket is not opened again");
}

#[test]
fn add_relay_extends_the_plan() {
    let mut pib = PeerInformationBase::new();
    pib.add_peer(
        "r".to_string(),
        PeerRecord { addresses: vec![addr(&[8, 8, 8, 8], 443)], certificate: vec![7] },
    );
    let mut s = State::from_configuration("local".to_string(), Vec::new(), pib);
    assert!(s.connect_to_relays().is_empty());
    s.add_relay("r".to_string());
    let plan = s.connect_to_relays();
    assert_eq!(plan.len(), 1);
    assert_eq!(plan[0].peer, "r");
}

#[test]
fn end_to_end_wire_bytes_for_a_registered_route() {
    // A control client registers ("/tmp/a.sock", "relay1", 1); the
    // directory maps relay1 to 127.0.0.1:9000 with a pinned certificate.
    let mut pib = PeerInformationBase::new();
    pib.add_peer(
        "relay1".to_string(),
        PeerRecord { addresses: vec![addr(&[127, 0, 0, 1], 9000)], certificate: vec![0xc0] },
    );
    let mut s = State::from_configuration(
        "local".to_string(),
        vec!["relay1".to_string()],
        pib,
    );
    let (plan, open_ctl) = s.tick(None);
    assert!(open_ctl);
    assert_eq!(plan.len(), 1);
    assert_eq!(plan[0].address.port, 9000);
    assert_eq!(plan[0].certificate, vec![0xc0]);
    s.add_connection(plan[0].peer.clone(), Transport::new(plan[0].peer.clone()));
    s.register_route("relay1".to_string(), 1);
    // Bytes written to /tmp/a.sock become one Data frame on the wire.
    assert_eq!(s.send_frame("relay1".to_string(), 1, payload(b"hello")), SendOutcome::Enqueued);
    let host = "relay1".to_string();
    let wire = s.pop_outbound(&host, 0).expect("the forwarding task's next write");
    assert_eq!(&wire[..], &[0x03, 0x00, 0x01, 0x00, 0x05, 0x68, 0x65, 0x6c, 0x6c, 0x6f]);
}
