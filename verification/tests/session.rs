use portforwarder_rs::addr::{GatewayAddr, Ipv4};
use portforwarder_rs::port_forwarder::{Forwarder, Port, Protocol};

fn session() -> Forwarder {
    Forwarder::new(
        GatewayAddr::new(Ipv4::new(192, 168, 1, 1), 1900),
        Ipv4::new(10, 0, 0, 5),
    )
}

#[test]
fn new_session_is_active_and_empty() {
    let f = session();
    assert!(!f.closed);
    assert_eq!(f.open_ports, Vec::<Port>::new());
    assert_eq!(f.network_interface, Ipv4::new(10, 0, 0, 5));
    assert_eq!(f.gateway_addr.ip, Ipv4::new(192, 168, 1, 1));
    assert_eq!(f.gateway_addr.port, 1900);
}

#[test]
fn explicit_open_and_teardown() {
    // Explicit interface 10.0.0.5, requests TCP/8080/8080 and UDP/5000/5001:
    // both accepted, then teardown removes both and empties the record.
    let mut f = session();
    f.record_opened(Protocol::Tcp, 8080);
    f.record_opened(Protocol::Udp, 5001);
    assert_eq!(
        f.open_ports,
        vec![
            Port { proto: Protocol::Tcp, num: 8080 },
            Port { proto: Protocol::Udp, num: 5001 },
        ]
    );
    let removed = f.close();
    assert_eq!(
        removed,
        vec![
            Port { proto: Protocol::Tcp, num: 8080 },
            Port { proto: Protocol::Udp, num: 5001 },
        ]
    );
    assert!(f.closed);
    assert_eq!(f.open_ports, Vec::<Port>::new());
}

#[test]
fn close_twice_hands_out_nothing_the_second_time() {
    let mut f = session();
    f.record_opened(Protocol::Tcp, 8080);
    let first = f.close();
    assert_eq!(first, vec![Port { proto: Protocol::Tcp, num: 8080 }]);
    let second = f.close();
    assert_eq!(second, Vec::<Port>::new());
    assert!(f.closed);
}

#[test]
fn remove_of_unknown_mapping_still_directs_gateway_removal() {
    let mut f = session();
    f.record_opened(Protocol::Tcp, 8080);
    let directive = f.remove_port(9999, Protocol::Udp);
    // The removal is directed at the gateway even though the session never
    // opened this mapping; the record is untouched.
    assert_eq!(directive.port, Port { proto: Protocol::Udp, num: 9999 });
    assert!(!directive.known);
    assert_eq!(f.open_ports, vec![Port { proto: Protocol::Tcp, num: 8080 }]);
}

#[test]
fn remove_of_known_mapping_deregisters_it() {
    let mut f = session();
    f.record_opened(Protocol::Tcp, 8080);
    f.record_opened(Protocol::Udp, 5001);
    let directive = f.remove_port(8080, Protocol::Tcp);
    assert_eq!(directive.port, Port { proto: Protocol::Tcp, num: 8080 });
    assert!(directive.known);
    assert_eq!(f.open_ports, vec![Port { proto: Protocol::Udp, num: 5001 }]);
}

#[test]
fn record_is_opened_minus_removed() {
    let mut f = session();
    f.record_opened(Protocol::Tcp, 1000);
    f.record_opened(Protocol::Udp, 2000);
    let directive = f.remove_port(1000, Protocol::Tcp);
    assert!(directive.known);
    f.record_opened(Protocol::Tcp, 3000);
    assert_eq!(
        f.open_ports,
        vec![
            Port { proto: Protocol::Udp, num: 2000 },
            Port { proto: Protocol::Tcp, num: 3000 },
        ]
    );
}

#[test]
fn same_mapping_is_never_recorded_twice() {
    let mut f = session();
    f.record_opened(Protocol::Tcp, 8080);
    f.record_opened(Protocol::Tcp, 8080);
    assert_eq!(f.open_ports, vec![Port { proto: Protocol::Tcp, num: 8080 }]);
}

#[test]
fn mapping_identity_ignores_internal_port() {
    // Two mappings are the same iff protocol and external port match.
    assert_eq!(
        Port { proto: Protocol::Tcp, num: 8080 },
        Port { proto: Protocol::Tcp, num: 8080 }
    );
    assert_ne!(
        Port { proto: Protocol::Tcp, num: 8080 },
        Port { proto: Protocol::Udp, num: 8080 }
    );
    assert_ne!(
        Port { proto: Protocol::Tcp, num: 8080 },
        Port { proto: Protocol::Tcp, num: 8081 }
    );
}

#[test]
fn removed_mapping_is_not_torn_down_again_on_close() {
    let mut f = session();
    f.record_opened(Protocol::Tcp, 8080);
    f.record_opened(Protocol::Udp, 5001);
    f.remove_port(8080, Protocol::Tcp);
    let removed = f.close();
    assert_eq!(removed, vec![Port { proto: Protocol::Udp, num: 5001 }]);
}
