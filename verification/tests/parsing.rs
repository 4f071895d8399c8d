use portforwarder_rs::addr::Ipv4;
use portforwarder_rs::cli::{
    parse_interface, parse_ipv4, parse_mapping, parse_octet, parse_u16, AttemptOutcome, Batch,
    InterfaceChoice, MappingRequest, ParseError,
};
use portforwarder_rs::addr::GatewayAddr;
use portforwarder_rs::port_forwarder::{Forwarder, Locator, Port, Protocol};
use portforwarder_rs::query_interfaces::{select_interfaces, RawInterface};

#[test]
fn mapping_token_parses_exactly() {
    assert_eq!(
        parse_mapping(&b"tcp/8080/8080".to_vec()),
        Ok(MappingRequest { proto: Protocol::Tcp, internal_port: 8080, external_port: 8080 })
    );
    assert_eq!(
        parse_mapping(&b"udp/5000/5001".to_vec()),
        Ok(MappingRequest { proto: Protocol::Udp, internal_port: 5000, external_port: 5001 })
    );
}

#[test]
fn protocol_field_is_case_insensitive() {
    assert_eq!(
        parse_mapping(&b"TCP/1/2".to_vec()),
        Ok(MappingRequest { proto: Protocol::Tcp, internal_port: 1, external_port: 2 })
    );
    assert_eq!(
        parse_mapping(&b"Udp/1/2".to_vec()),
        Ok(MappingRequest { proto: Protocol::Udp, internal_port: 1, external_port: 2 })
    );
}

#[test]
fn mapping_token_shape_errors() {
    assert_eq!(parse_mapping(&b"tcp/8080".to_vec()), Err(ParseError::BadShape));
    assert_eq!(parse_mapping(&b"tcp/1/2/3".to_vec()), Err(ParseError::BadShape));
    assert_eq!(parse_mapping(&b"".to_vec()), Err(ParseError::BadShape));
    assert_eq!(parse_mapping(&b"tcp".to_vec()), Err(ParseError::BadShape));
}

#[test]
fn mapping_token_field_errors() {
    assert_eq!(parse_mapping(&b"icmp/1/2".to_vec()), Err(ParseError::BadProtocol));
    assert_eq!(parse_mapping(&b"//2".to_vec()), Err(ParseError::BadProtocol));
    assert_eq!(parse_mapping(&b"tcp/abc/2".to_vec()), Err(ParseError::BadInternalPort));
    assert_eq!(parse_mapping(&b"tcp//2".to_vec()), Err(ParseError::BadInternalPort));
    assert_eq!(parse_mapping(&b"tcp/70000/2".to_vec()), Err(ParseError::BadInternalPort));
    assert_eq!(parse_mapping(&b"tcp/1/99999".to_vec()), Err(ParseError::BadExternalPort));
    assert_eq!(parse_mapping(&b"tcp/1/".to_vec()), Err(ParseError::BadExternalPort));
}

#[test]
fn port_number_bounds() {
    assert_eq!(parse_u16(&b"65535".to_vec()), Some(65535));
    assert_eq!(parse_u16(&b"65536".to_vec()), None);
    assert_eq!(parse_u16(&b"0".to_vec()), Some(0));
    assert_eq!(parse_u16(&b"007".to_vec()), Some(7));
    assert_eq!(parse_u16(&b"".to_vec()), None);
    assert_eq!(parse_u16(&b"1a2".to_vec()), None);
    assert_eq!(parse_u16(&b"99999999999999999999".to_vec()), None);
}

#[test]
fn octet_bounds() {
    assert_eq!(parse_octet(&b"255".to_vec()), Some(255));
    assert_eq!(parse_octet(&b"256".to_vec()), None);
    assert_eq!(parse_octet(&b"0".to_vec()), Some(0));
    assert_eq!(parse_octet(&b"01".to_vec()), None);
    assert_eq!(parse_octet(&b"".to_vec()), None);
}

#[test]
fn dotted_quad_parses_exactly() {
    assert_eq!(parse_ipv4(&b"10.0.0.5".to_vec()), Some(Ipv4::new(10, 0, 0, 5)));
    assert_eq!(parse_ipv4(&b"127.0.0.1".to_vec()), Some(Ipv4::new(127, 0, 0, 1)));
    assert_eq!(parse_ipv4(&b"0.0.0.0".to_vec()), Some(Ipv4::new(0, 0, 0, 0)));
    assert_eq!(parse_ipv4(&b"10.0.0".to_vec()), None);
    assert_eq!(parse_ipv4(&b"10.0.0.0.1".to_vec()), None);
    assert_eq!(parse_ipv4(&b"256.0.0.1".to_vec()), None);
    assert_eq!(parse_ipv4(&b"01.2.3.4".to_vec()), None);
    assert_eq!(parse_ipv4(&b"a.b.c.d".to_vec()), None);
}

#[test]
fn interface_argument_any_or_address() {
    assert_eq!(parse_interface(&b"any".to_vec()), Some(InterfaceChoice::Any));
    assert_eq!(
        parse_interface(&b"10.0.0.5".to_vec()),
        Some(InterfaceChoice::Explicit(Ipv4::new(10, 0, 0, 5)))
    );
    assert_eq!(parse_interface(&b"ANY".to_vec()), None);
    assert_eq!(parse_interface(&b"gateway".to_vec()), None);
}

#[test]
fn interface_selection_keeps_non_loopback_ipv4_in_order() {
    let raw = vec![
        RawInterface { name: "lo".to_string(), addr: Some(Ipv4::new(127, 0, 0, 1)) },
        RawInterface { name: "eth0".to_string(), addr: Some(Ipv4::new(192, 168, 1, 10)) },
        RawInterface { name: "wg0".to_string(), addr: None },
        RawInterface { name: "eth1".to_string(), addr: Some(Ipv4::new(172, 16, 0, 2)) },
    ];
    let picked = select_interfaces(raw);
    assert_eq!(picked.len(), 2);
    assert_eq!(picked[0].name, "eth0");
    assert_eq!(picked[0].addr, Ipv4::new(192, 168, 1, 10));
    assert_eq!(picked[1].name, "eth1");
    assert_eq!(picked[1].addr, Ipv4::new(172, 16, 0, 2));
}

#[test]
fn end_to_end_explicit_interface_flow() {
    // Interface 10.0.0.5 with requests TCP/8080/8080 and UDP/5000/5001: both
    // accepted by the gateway, then an interrupt tears both down.
    let interface = match parse_interface(&b"10.0.0.5".to_vec()) {
        Some(InterfaceChoice::Explicit(ip)) => ip,
        other => panic!("expected an explicit interface, got {:?}", other),
    };
    let requests = vec![
        parse_mapping(&b"tcp/8080/8080".to_vec()).unwrap(),
        parse_mapping(&b"udp/5000/5001".to_vec()).unwrap(),
    ];
    let mut session = Forwarder::new(GatewayAddr::new(Ipv4::new(192, 168, 1, 1), 1900), interface);
    let mut batch = Batch::new(requests);
    while let Some(req) = batch.next_request() {
        session.record_opened(req.proto, req.external_port);
        batch.record_outcome(AttemptOutcome::Mapped);
    }
    assert_eq!(
        session.open_ports,
        vec![
            Port { proto: Protocol::Tcp, num: 8080 },
            Port { proto: Protocol::Udp, num: 5001 },
        ]
    );
    let removed = session.close();
    assert_eq!(removed.len(), 2);
    assert_eq!(session.open_ports, Vec::<Port>::new());
    assert!(session.closed);
}

#[test]
fn end_to_end_any_interface_all_discovery_failures() {
    // Interface token `any` with candidates 192.168.1.10 and 172.16.0.2,
    // discovery failing on both: startup is fatal, with one diagnostic per
    // candidate and no session to wait on.
    assert_eq!(parse_interface(&b"any".to_vec()), Some(InterfaceChoice::Any));
    let candidates = vec![Ipv4::new(192, 168, 1, 10), Ipv4::new(172, 16, 0, 2)];
    let mut locator = Locator::new(candidates.clone());
    while let Some(_ip) = locator.pending() {
        locator.on_failure("no gateway answered".to_string());
    }
    assert_eq!(locator.found, None);
    assert_eq!(locator.failures.len(), 2);
    assert_eq!(locator.failures[0].interface, candidates[0]);
    assert_eq!(locator.failures[1].interface, candidates[1]);
}

#[test]
fn batch_continues_past_a_failed_request() {
    // Three requests; the second fails; the first and third are still
    // attempted and each outcome is recorded independently.
    let r1 = MappingRequest { proto: Protocol::Tcp, internal_port: 1, external_port: 1 };
    let r2 = MappingRequest { proto: Protocol::Tcp, internal_port: 2, external_port: 2 };
    let r3 = MappingRequest { proto: Protocol::Udp, internal_port: 3, external_port: 3 };
    let mut batch = Batch::new(vec![r1, r2, r3]);

    assert_eq!(batch.next_request(), Some(r1));
    batch.record_outcome(AttemptOutcome::Mapped);
    assert_eq!(batch.next_request(), Some(r2));
    batch.record_outcome(AttemptOutcome::Failed { reason: "gateway said no".to_string() });
    assert_eq!(batch.next_request(), Some(r3));
    batch.record_outcome(AttemptOutcome::Mapped);
    assert_eq!(batch.next_request(), None);

    assert_eq!(batch.outcomes.len(), 3);
    assert!(matches!(batch.outcomes[0], AttemptOutcome::Mapped));
    assert!(matches!(batch.outcomes[1], AttemptOutcome::Failed { .. }));
    assert!(matches!(batch.outcomes[2], AttemptOutcome::Mapped));
}
