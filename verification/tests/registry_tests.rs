use streaming_quotes::address::SocketAddress;
use streaming_quotes::command::ClientSubscription;
use streaming_quotes::registry::is_ping;
use streaming_quotes::registry::Registry;
use streaming_quotes::registry::PING_TIMEOUT_NANOS;

fn sub(port: u16, tickers: &[&str]) -> ClientSubscription {
    ClientSubscription {
        udp_addr: SocketAddress::v4(127, 0, 0, 1, port),
        tickers: tickers.iter().map(|t| t.to_string()).collect(),
    }
}

#[test]
fn ping_messages() {
    assert!(is_ping("PING"));
    assert!(is_ping(" PING\n"));
    assert!(!is_ping("PONG"));
    assert!(!is_ping("ping"));
    assert!(!is_ping("PING PING"));
}

#[test]
fn pings_are_recorded_and_replaced() {
    let mut r = Registry::new();
    let a = SocketAddress::v4(10, 0, 0, 1, 1);
    assert_eq!(r.last_ping(&a), None);
    r.record_ping(a, 5);
    assert_eq!(r.last_ping(&a), Some(5));
    r.record_ping(a, 9);
    assert_eq!(r.last_ping(&a), Some(9));
}

#[test]
fn recipients_are_the_subscribers_of_a_ticker() {
    let mut r = Registry::new();
    r.subscribe(sub(1, &["AAPL", "TSLA"]));
    r.subscribe(sub(2, &["GOOGL"]));
    r.subscribe(sub(3, &["AAPL"]));
    let to: Vec<u16> = r
        .recipients("AAPL")
        .iter()
        .map(|a| match a {
            SocketAddress::V4 { port, .. } => *port,
            _ => 0,
        })
        .collect();
    assert_eq!(to, vec![1, 3]);
    assert!(r.recipients("MSFT").is_empty());
}

#[test]
fn silent_clients_are_dropped() {
    let mut r = Registry::new();
    r.subscribe(sub(1, &["AAPL"]));
    r.touch_last(100);
    r.subscribe(sub(2, &["AAPL"]));
    r.touch_last(200);
    r.subscribe(sub(3, &["AAPL"])); // never pinged: kept
    let now = 100 + PING_TIMEOUT_NANOS;
    r.drop_silent(now - 1);
    assert_eq!(r.subscriptions().len(), 3);
    r.drop_silent(now);
    assert_eq!(r.subscriptions().len(), 2);
    assert_eq!(r.last_ping(&SocketAddress::v4(127, 0, 0, 1, 1)), None);
    r.drop_silent(now);
    assert_eq!(r.subscriptions().len(), 2);
    r.record_ping(SocketAddress::v4(127, 0, 0, 1, 2), now);
    r.drop_silent(now + PING_TIMEOUT_NANOS - 1);
    assert_eq!(r.subscriptions().len(), 2);
}

#[test]
fn a_later_duplicate_address_outlives_the_dropped_one() {
    let mut r = Registry::new();
    r.subscribe(sub(1, &["AAPL"]));
    r.subscribe(sub(1, &["TSLA"]));
    r.touch_last(0);
    r.drop_silent(PING_TIMEOUT_NANOS);
    assert_eq!(r.subscriptions().len(), 1);
    assert_eq!(r.subscriptions()[0].tickers, vec!["TSLA".to_string()]);
}

#[test]
fn touch_last_without_subscriptions_does_nothing() {
    let mut r = Registry::new();
    r.touch_last(7);
    assert!(r.subscriptions().is_empty());
}
