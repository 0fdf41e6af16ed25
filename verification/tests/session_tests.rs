use streaming_quotes::address::SocketAddress;
use streaming_quotes::registry::Registry;
use streaming_quotes::session::serve_session;
use streaming_quotes::session::Reply;

fn lines(ls: &[&str]) -> Vec<String> {
    ls.iter().map(|l| l.to_string()).collect()
}

#[test]
fn rejections_then_one_acceptance() {
    let mut registry = Registry::new();
    let input = lines(&[
        "",
        "HELLO",
        "   ",
        "STREAM 127.0.0.1:9000 AAPL",
        "STREAM udp://127.0.0.1:9000 aapl,tsla",
        "STREAM udp://127.0.0.1:9001 MSFT",
    ]);
    let (replies, read) = serve_session(&mut registry, &input);
    assert_eq!(replies, vec![Reply::Rejected, Reply::Rejected, Reply::Accepted]);
    assert_eq!(read, 5);
    let subs = registry.subscriptions();
    assert_eq!(subs.len(), 1);
    assert_eq!(subs[0].udp_addr, SocketAddress::v4(127, 0, 0, 1, 9000));
    assert_eq!(subs[0].tickers, vec!["AAPL", "TSLA"]);
}

#[test]
fn no_acceptance_registers_nobody() {
    let mut registry = Registry::new();
    let input = lines(&["GET /", "", "STREAM udp://0.0.0.0:9000 AAPL"]);
    let (replies, read) = serve_session(&mut registry, &input);
    assert_eq!(replies, vec![Reply::Rejected, Reply::Rejected]);
    assert_eq!(read, 3);
    assert!(registry.subscriptions().is_empty());
}

#[test]
fn blank_lines_change_nothing() {
    let mut a = Registry::new();
    let mut b = Registry::new();
    let with_blanks = lines(&["\t", "x", "", "STREAM udp://10.0.0.1:80 GOOGL", ""]);
    let without = lines(&["x", "STREAM udp://10.0.0.1:80 GOOGL"]);
    let (ra, _) = serve_session(&mut a, &with_blanks);
    let (rb, _) = serve_session(&mut b, &without);
    assert_eq!(ra, rb);
    assert_eq!(a.subscriptions()[0].tickers, b.subscriptions()[0].tickers);
    assert_eq!(a.subscriptions()[0].udp_addr, b.subscriptions()[0].udp_addr);
}

#[test]
fn reply_texts() {
    assert_eq!(Reply::Accepted.text(), "OK: streaming started\n");
    assert_eq!(
        Reply::Rejected.text(),
        "ERROR: usage STREAM udp://<host>:<port> TICK1,TICK2\n"
    );
}

#[test]
fn empty_connection() {
    let mut registry = Registry::new();
    let (replies, read) = serve_session(&mut registry, &Vec::new());
    assert!(replies.is_empty());
    assert_eq!(read, 0);
}
