use streaming_quotes::client::parse_tickers;
use streaming_quotes::client::server_accepted;
use streaming_quotes::client::stream_command;
use streaming_quotes::client::Args;
use streaming_quotes::command::handle_line;
use streaming_quotes::command::LineOutcome;

#[test]
fn default_args() {
    let a = Args::default();
    assert_eq!(a.server, "127.0.0.1:7878");
    assert_eq!(a.udp_port, 34254);
    assert_eq!(a.tickers_file, "tickers.txt");
}

#[test]
fn tickers_file_lines() {
    assert_eq!(
        parse_tickers("aapl\n GOOGL \r\ntsla"),
        vec!["AAPL".to_string(), "GOOGL".to_string(), "TSLA".to_string()]
    );
    assert_eq!(parse_tickers("aapl\n"), vec!["AAPL".to_string()]);
    assert_eq!(parse_tickers(""), Vec::<String>::new());
    assert_eq!(parse_tickers("\n"), vec!["".to_string()]);
    assert_eq!(parse_tickers("a\n\nb\n\n"), vec!["A", "", "B", ""]);
}

#[test]
fn builds_the_stream_command() {
    let t = vec!["AAPL".to_string(), "TSLA".to_string()];
    assert_eq!(stream_command(34254, &t), "STREAM udp://127.0.0.1:34254 AAPL,TSLA\n");
    assert_eq!(stream_command(0, &[]), "STREAM udp://127.0.0.1:0 \n");
}

#[test]
fn server_accepts_the_client_command() {
    let t = vec!["aapl".to_string(), "TSLA".to_string(), "AAPL".to_string()];
    match handle_line(&stream_command(9000, &t)) {
        LineOutcome::Subscribe(sub) => {
            assert_eq!(sub.udp_addr.to_text(), "127.0.0.1:9000");
            assert_eq!(sub.tickers, vec!["AAPL".to_string(), "TSLA".to_string()]);
        }
        _ => panic!("the server should accept the command"),
    }
}

#[test]
fn response_check() {
    assert!(server_accepted("OK: streaming started\n"));
    assert!(server_accepted("  OK"));
    assert!(!server_accepted("ERROR: usage STREAM udp://<host>:<port> TICK1,TICK2\n"));
    assert!(!server_accepted("O"));
    assert!(!server_accepted("ok"));
}
