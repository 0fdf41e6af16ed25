use streaming_quotes::address::SocketAddress;
use streaming_quotes::keepalive::ping_message;
use streaming_quotes::keepalive::ServerDiscovery;
use streaming_quotes::keepalive::PING_INTERVAL_MILLIS;
use streaming_quotes::registry::is_ping;

#[test]
fn no_ping_before_a_datagram() {
    let d = ServerDiscovery::new();
    assert_eq!(d.ping_target(), None);
}

#[test]
fn first_sender_becomes_the_server() {
    let mut d = ServerDiscovery::new();
    let server = SocketAddress::v4(127, 0, 0, 1, 40000);
    assert!(d.on_datagram(server));
    assert_eq!(d.ping_target(), Some(server));
}

#[test]
fn later_senders_do_not_move_the_server() {
    let mut d = ServerDiscovery::new();
    let server = SocketAddress::v4(10, 0, 0, 7, 5000);
    assert!(d.on_datagram(server));
    assert!(!d.on_datagram(SocketAddress::v4(10, 0, 0, 8, 5001)));
    assert!(!d.on_datagram(server));
    assert_eq!(d.ping_target(), Some(server));
}

#[test]
fn the_keep_alive_is_a_ping() {
    assert_eq!(ping_message(), "PING");
    assert!(is_ping(ping_message()));
    assert_eq!(PING_INTERVAL_MILLIS, 2000);
}
