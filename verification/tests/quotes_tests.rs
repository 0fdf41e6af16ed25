use streaming_quotes::quotes::draw_volume;
use streaming_quotes::quotes::popular;
use streaming_quotes::quotes::quote_line;
use streaming_quotes::quotes::seeded_generator;
use streaming_quotes::quotes::volume_bounds;
use streaming_quotes::quotes::split_quote_line;
use streaming_quotes::quotes::QuoteGenerator;

#[test]
fn test_generator_creates_all_tickers() {
    let quote_gen = QuoteGenerator::new();
    let tickers = quote_gen.tickers();
    assert_eq!(tickers.len(), 5);
    assert!(tickers.contains(&"AAPL".to_string()));
    assert!(tickers.contains(&"GOOGL".to_string()));
    assert!(tickers.contains(&"TSLA".to_string()));
    assert!(tickers.contains(&"MSFT".to_string()));
    assert!(tickers.contains(&"AMZN".to_string()));
}

#[test]
fn test_generate_quote_known_ticker() {
    let quote_gen = QuoteGenerator::new();
    let mut rng = seeded_generator().unwrap();
    let quote = quote_gen.generate_quote("AAPL", &mut rng);
    assert!(quote.is_some());
    let quote = quote.unwrap();
    assert_eq!(quote.ticker, "AAPL");
    assert_eq!(quote.index, 0);
    assert!(quote.volume >= 1000);
}

#[test]
fn test_generate_quote_unknown_ticker() {
    let quote_gen = QuoteGenerator::new();
    let mut rng = seeded_generator().unwrap();
    assert!(quote_gen.generate_quote("FAKE", &mut rng).is_none());
}

#[test]
fn test_volume_ranges() {
    let quote_gen = QuoteGenerator::new();
    let mut rng = seeded_generator().unwrap();
    for _ in 0..100 {
        let popular = quote_gen.generate_quote("AAPL", &mut rng).unwrap();
        assert!(popular.volume >= 1000 && popular.volume < 6000);

        let regular = quote_gen.generate_quote("GOOGL", &mut rng).unwrap();
        assert!(regular.volume >= 100 && regular.volume < 1100);
    }
}

#[test]
fn generator_order_and_positions() {
    let quote_gen = QuoteGenerator::new();
    let mut rng = seeded_generator().unwrap();
    let names: Vec<&str> = quote_gen.tickers().iter().map(|s| s.as_str()).collect();
    assert_eq!(names, vec!["AAPL", "GOOGL", "TSLA", "MSFT", "AMZN"]);
    assert_eq!(quote_gen.generate_quote("AMZN", &mut rng).unwrap().index, 4);
    assert_eq!(quote_gen.position("MSFT"), Some(3));
    assert_eq!(quote_gen.position("aapl"), None);
}

#[test]
fn popular_tickers() {
    assert!(popular("AAPL") && popular("MSFT") && popular("TSLA"));
    assert!(!popular("GOOGL") && !popular("AMZN") && !popular("aapl") && !popular(""));
    assert_eq!(volume_bounds("MSFT"), (1000, 6000));
    assert_eq!(volume_bounds("AMZN"), (100, 1100));
    let mut rng = seeded_generator().unwrap();
    for _ in 0..200 {
        let v = draw_volume("TSLA", &mut rng);
        assert!((1000..6000).contains(&v));
        let v = draw_volume("XYZ", &mut rng);
        assert!((100..1100).contains(&v));
    }
}

#[test]
fn quote_line_format() {
    assert_eq!(quote_line("AAPL", "182.35", 3200, 1711027200000), "AAPL|182.35|3200|1711027200000");
    assert_eq!(quote_line("X", "0.10", 0, 0), "X|0.10|0|0");
}

#[test]
fn quote_line_reads_back() {
    let line = quote_line("MSFT", "420.00", 5999, u64::MAX);
    let f = split_quote_line(&line).unwrap();
    assert_eq!(f.ticker, "MSFT");
    assert_eq!(f.price, "420.00");
    assert_eq!(f.volume, 5999);
    assert_eq!(f.timestamp, u64::MAX);
}

#[test]
fn malformed_quote_lines() {
    assert!(split_quote_line("AAPL|1.0|2").is_none());
    assert!(split_quote_line("AAPL|1.0|2|3|4").is_none());
    assert!(split_quote_line("AAPL|1.0|-2|3").is_none());
    assert!(split_quote_line("AAPL|1.0|4294967296|3").is_none());
    assert!(split_quote_line("AAPL|1.0||3").is_none());
    assert!(split_quote_line("AAPL|1.0|2|18446744073709551616").is_none());
    let f = split_quote_line("|x|+7|007").unwrap();
    assert_eq!((f.ticker.as_str(), f.price.as_str(), f.volume, f.timestamp), ("", "x", 7, 7));
}
