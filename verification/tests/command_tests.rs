use streaming_quotes::command::handle_line;
use streaming_quotes::command::parse_stream_command;
use streaming_quotes::command::LineOutcome;
use streaming_quotes::command::ERROR_REPLY;
use streaming_quotes::command::OK_REPLY;

#[test]
fn test_parse_valid_command() {
    let (addr, tickers) =
        parse_stream_command("STREAM udp://127.0.0.1:34254 AAPL,TSLA").unwrap();
    assert_eq!(addr.to_text(), "127.0.0.1:34254");
    assert!(tickers.contains(&"AAPL".to_string()));
    assert!(tickers.contains(&"TSLA".to_string()));
}

#[test]
fn test_parse_single_ticker() {
    let (addr, tickers) = parse_stream_command("STREAM udp://127.0.0.1:9000 GOOGL").unwrap();
    assert_eq!(addr.to_text(), "127.0.0.1:9000");
    assert!(tickers.contains(&"GOOGL".to_string()));
    assert_eq!(tickers.len(), 1);
}

#[test]
fn test_parse_invalid() {
    assert!(parse_stream_command("GET something").is_none());
    assert!(parse_stream_command("STREAM 127.0.0.1:9000 AAPL").is_none());
    assert!(parse_stream_command("STREAM").is_none());
    assert!(parse_stream_command("STREAM udp://0.0.0.0:9000 AAPL").is_none());
}

#[test]
fn tickers_are_trimmed_upper_cased_and_deduplicated() {
    let (_, tickers) =
        parse_stream_command("STREAM udp://10.0.0.2:80 aapl, tsla ,AAPL,Msft").unwrap();
    // The list is the third word: "aapl," only; the rest are further words.
    assert_eq!(tickers, vec!["AAPL".to_string(), "".to_string()]);
    let (_, tickers) = parse_stream_command("STREAM udp://10.0.0.2:80 aapl,tsla,AAPL,Msft").unwrap();
    assert_eq!(
        tickers,
        vec!["AAPL".to_string(), "TSLA".to_string(), "MSFT".to_string()]
    );
}

#[test]
fn missing_ticker_list_is_rejected() {
    assert!(parse_stream_command("STREAM udp://127.0.0.1:9000").is_none());
    assert!(parse_stream_command("STREAM udp://127.0.0.1:9000   ").is_none());
}

#[test]
fn extra_words_are_ignored() {
    let (addr, tickers) =
        parse_stream_command("  STREAM\tudp://127.0.0.1:9000  AMZN  trailing words").unwrap();
    assert_eq!(addr.to_text(), "127.0.0.1:9000");
    assert_eq!(tickers, vec!["AMZN".to_string()]);
}

#[test]
fn keyword_is_case_sensitive() {
    assert!(parse_stream_command("stream udp://127.0.0.1:9000 AAPL").is_none());
    assert!(parse_stream_command("STREAM UDP://127.0.0.1:9000 AAPL").is_none());
}

#[test]
fn ipv6_targets_are_accepted_unless_unspecified() {
    let (addr, _) = parse_stream_command("STREAM udp://[::1]:9000 AAPL").unwrap();
    assert_eq!(addr.to_text(), "[::1]:9000");
    assert!(parse_stream_command("STREAM udp://[::]:9000 AAPL").is_none());
}

#[test]
fn bad_addresses_are_rejected() {
    assert!(parse_stream_command("STREAM udp://127.0.0.1 AAPL").is_none());
    assert!(parse_stream_command("STREAM udp://127.0.0.1:70000 AAPL").is_none());
    assert!(parse_stream_command("STREAM udp://localhost:9000 AAPL").is_none());
    assert!(parse_stream_command("STREAM udp://127.0.0.01:9000 AAPL").is_none());
}

#[test]
fn lines_are_skipped_rejected_or_subscribe() {
    assert!(matches!(handle_line("   \r\n"), LineOutcome::Skip));
    assert!(matches!(handle_line(""), LineOutcome::Skip));
    assert!(matches!(handle_line("HELLO\n"), LineOutcome::Reject));
    match handle_line("STREAM udp://127.0.0.1:34254 AAPL,TSLA\n") {
        LineOutcome::Subscribe(sub) => {
            assert_eq!(sub.udp_addr.to_text(), "127.0.0.1:34254");
            assert_eq!(sub.tickers, vec!["AAPL".to_string(), "TSLA".to_string()]);
        }
        _ => panic!("expected a subscription"),
    }
}

#[test]
fn replies_are_the_protocol_texts() {
    assert_eq!(OK_REPLY, "OK: streaming started\n");
    assert_eq!(
        ERROR_REPLY,
        "ERROR: usage STREAM udp://<host>:<port> TICK1,TICK2\n"
    );
}

#[test]
fn accepted_tickers_are_their_own_upper_case() {
    let (_, tickers) =
        parse_stream_command("STREAM udp://127.0.0.1:9000 aApl,,brk.b,msft,x-1,AAPL").unwrap();
    assert_eq!(tickers, vec!["AAPL", "", "BRK.B", "MSFT", "X-1"]);
    for t in &tickers {
        assert_eq!(*t, t.to_uppercase());
        assert!(!t.contains(char::is_whitespace));
        assert!(!t.contains(','));
    }
}
