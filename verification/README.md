# streaming-quotes

A stock-quote streaming system: a server generates quotes and streams them over
UDP to clients that subscribe over TCP with

```
STREAM udp://<host>:<port> TICKER1,TICKER2,...
```

and keep their stream alive by sending `PING` over UDP; quotes travel as
`TICKER|PRICE|VOLUME|TIMESTAMP`.

## Layout

- `src/` — the verified library (Verus):
  - `text.rs`: whitespace, trimming, words, splitting, numerals;
  - `address.rs`: socket addresses, parsed and displayed as `SocketAddr` does;
  - `command.rs`: the `STREAM` command and what the server does with a line;
  - `client.rs`: the client's settings, tickers file, command and answer check;
  - `keepalive.rs`: how the client learns the server's UDP address and pings it;
  - `registry.rs`: subscriptions, pings, dropping silent clients, recipients;
  - `session.rs`: a client's connection as a whole: replies, the one
    subscription, and where reading stops;
  - `quotes.rs`: quoted tickers, volumes drawn from a seeded generator, and
    the quote line;
  - `readback.rs`: laws that numerals and addresses read back as written.
- `app/` — the two programs (`server` and `client` subcommands): sockets,
  threads, the clock, and the floating-point prices.
- `tests/` — tests of the library.

## Running

The server and the client are two subcommands of one program:
`streaming-quotes server`, and
`streaming-quotes client [--server ADDR] [--udp-port PORT] [--tickers-file PATH]`.
