//! The client's side of the protocol: its settings, the tickers file, the
//! `STREAM` command it sends, and how it reads the server's answer.
use vstd::prelude::*;

use vstd::string::*;

use crate::address::socket_text;
use crate::address::Ipv4Address;
use crate::address::SocketAddress;
use crate::command::dedup;
use crate::command::line_request;
use crate::command::stream_keyword;
use crate::command::ticker_set;
use crate::command::ticker_of;
use crate::command::udp_scheme;
use crate::command::udp_target;
use crate::command::string_from;
use crate::command::texts;
use crate::command::ascii_uppercase;
use crate::command::is_ascii_text;
use crate::command::lemma_ascii_subrange;
use crate::command::to_uppercase;
use crate::command::uppercase;
use crate::text::chars_of;
use crate::text::decimal;
use crate::text::decimal_text;
use crate::text::find_separator;
use crate::text::lemma_find_char;
use crate::text::push_char;
use crate::text::split;
use crate::text::is_space;
use crate::text::nth_word;
use crate::text::split_from;
use crate::text::word_from;
use crate::text::trim;
use crate::text::trim_bounds;

verus! {

/// The client's settings: the server's TCP address, the local UDP port that
/// quotes arrive on, and the file that lists the tickers.
pub struct Args {
    pub server: String,
    pub udp_port: u16,
    pub tickers_file: String,
}

impl Default for Args {
    /// `127.0.0.1:7878`, port 34254 and `tickers.txt`.
    fn default() -> (r: Args)
        ensures
            r.server@ == "127.0.0.1:7878"@,
            r.udp_port == 34254,
            r.tickers_file@ == "tickers.txt"@,
    {
        Args {
            server: "127.0.0.1:7878".to_owned(),
            udp_port: 34254,
            tickers_file: "tickers.txt".to_owned(),
        }
    }
}

// ---------------------------------------------------------------------------
// The tickers file
// ---------------------------------------------------------------------------
/// The lines of `s` as `str::lines` gives them once each is trimmed: the
/// pieces between line feeds, without the empty piece after a final line
/// feed. (`lines` also drops a `\r` before each line feed; trimming removes
/// it anyway.)
pub open spec fn raw_lines(s: Seq<char>) -> Seq<Seq<char>> {
    let pieces = split(s, '\n');
    if pieces.last().len() == 0 {
        pieces.drop_last()
    } else {
        pieces
    }
}

/// The tickers a tickers file lists: each line trimmed and upper-cased, in
/// order, repeats and empty lines included.
pub open spec fn tickers_in(content: Seq<char>) -> Seq<Seq<char>> {
    raw_lines(content).map_values(|l: Seq<char>| uppercase(trim(l)))
}

/// [`tickers_in`] for a file of ASCII text, where upper-casing is the ASCII
/// one.
pub open spec fn ascii_tickers_in(content: Seq<char>) -> Seq<Seq<char>> {
    raw_lines(content).map_values(|l: Seq<char>| ascii_uppercase(trim(l)))
}

/// The tickers listed in the contents of a tickers file, per [`tickers_in`]
/// (per [`ascii_tickers_in`] when the contents are ASCII text).
pub fn parse_tickers(content: &str) -> (r: Vec<String>)
    ensures
        texts(r@) == tickers_in(content@),
        is_ascii_text(content@) ==> texts(r@) == ascii_tickers_in(content@),
{
    let chars = chars_of(content);
    let s = chars.as_slice();
    let ghost w = s@;
    let mut out: Vec<String> = Vec::new();
    let mut i: usize = 0;
    let mut more = true;
    let ghost mut done: Seq<Seq<char>> = seq![];
    while more
        invariant
            w == s@,
            w == content@,
            i <= w.len(),
            split_from(w, 0, '\n') == done + split_from(w, i as int, '\n'),
            texts(out@) == done.map_values(|l: Seq<char>| uppercase(trim(l))),
            is_ascii_text(w) ==> texts(out@) == done.map_values(
                |l: Seq<char>| ascii_uppercase(trim(l)),
            ),
            !more ==> crate::text::find_char(w, i as int, '\n') >= w.len(),
        decreases w.len() - i + (if more {
            1int
        } else {
            0int
        }),
    {
        let j = find_separator(s, i, '\n');
        proof {
            lemma_find_char(w, i as int, '\n');
        }
        if j >= s.len() {
            more = false;
        } else {
            let ghost piece = w.subrange(i as int, j as int);
            let ghost before = done;
            let line = &s[i..j];
            let (x, y) = trim_bounds(line);
            let t = string_from(line, x, y);
            proof {
                if is_ascii_text(w) {
                    lemma_ascii_subrange(w, i as int, j as int);
                    lemma_ascii_subrange(line@, x as int, y as int);
                }
            }
            let u = to_uppercase(t.as_str());
            let ghost old_out = out@;
            out.push(u);
            proof {
                if is_ascii_text(w) {
                    assert(done.push(piece).map_values(|l: Seq<char>| ascii_uppercase(trim(l)))
                        =~= done.map_values(|l: Seq<char>| ascii_uppercase(trim(l))).push(u@));
                }
                done = done.push(piece);
                assert(texts(out@) =~= texts(old_out).push(u@));
                assert(done.map_values(|l: Seq<char>| uppercase(trim(l))) =~= before.map_values(
                    |l: Seq<char>| uppercase(trim(l)),
                ).push(u@));
                assert(split_from(w, i as int, '\n') =~= seq![piece] + split_from(w, j + 1, '\n'));
                assert(before + (seq![piece] + split_from(w, j + 1, '\n')) =~= done + split_from(
                    w,
                    j + 1,
                    '\n',
                ));
            }
            i = j + 1;
        }
    }
    let ghost last = w.subrange(i as int, w.len() as int);
    assert(split_from(w, i as int, '\n') =~= seq![last]);
    assert(split(w, '\n') =~= done.push(last));
    if i < s.len() {
        let line = &s[i..s.len()];
        let (x, y) = trim_bounds(line);
        let t = string_from(line, x, y);
        proof {
            if is_ascii_text(w) {
                lemma_ascii_subrange(w, i as int, w.len() as int);
                lemma_ascii_subrange(line@, x as int, y as int);
            }
        }
        let u = to_uppercase(t.as_str());
        let ghost old_out = out@;
        out.push(u);
        assert(texts(out@) =~= texts(old_out).push(u@));
        proof {
            if is_ascii_text(w) {
                assert(done.push(last).map_values(|l: Seq<char>| ascii_uppercase(trim(l)))
                    =~= done.map_values(|l: Seq<char>| ascii_uppercase(trim(l))).push(u@));
            }
        }
        assert(done.push(last).map_values(|l: Seq<char>| uppercase(trim(l))) =~= done.map_values(
            |l: Seq<char>| uppercase(trim(l)),
        ).push(u@));
    } else {
        assert(done.push(last).drop_last() =~= done);
    }
    out
}

// ---------------------------------------------------------------------------
// The STREAM command and the server's answer
// ---------------------------------------------------------------------------
/// Texts joined with `sep` between them, as `[String]::join` gives them.
pub open spec fn join(ts: Seq<Seq<char>>, sep: char) -> Seq<char>
    decreases ts.len(),
{
    if ts.len() == 0 {
        seq![]
    } else if ts.len() == 1 {
        ts[0]
    } else {
        join(ts.drop_last(), sep) + seq![sep] + ts.last()
    }
}

/// `STREAM udp://127.0.0.1:`, the part of the command before the port.
pub open spec fn command_prefix() -> Seq<char> {
    seq![
        'S',
        'T',
        'R',
        'E',
        'A',
        'M',
        ' ',
        'u',
        'd',
        'p',
        ':',
        '/',
        '/',
        '1',
        '2',
        '7',
        '.',
        '0',
        '.',
        '0',
        '.',
        '1',
        ':',
    ]
}

/// The command line the client sends to subscribe:
/// `STREAM udp://127.0.0.1:<port> <T1>,<T2>,...` and a line feed.
pub open spec fn stream_command_text(udp_port: u16, tickers: Seq<Seq<char>>) -> Seq<char> {
    command_prefix() + decimal(udp_port as nat) + seq![' '] + join(tickers, ',') + seq!['\n']
}

/// The command line the client sends to subscribe to `tickers`, with
/// quotes to be sent to `udp_port` on the local host.
pub fn stream_command(udp_port: u16, tickers: &[String]) -> (r: String)
    ensures
        r@ == stream_command_text(udp_port, texts(tickers@)),
{
    let prefix: [char; 23] = [
        'S',
        'T',
        'R',
        'E',
        'A',
        'M',
        ' ',
        'u',
        'd',
        'p',
        ':',
        '/',
        '/',
        '1',
        '2',
        '7',
        '.',
        '0',
        '.',
        '0',
        '.',
        '1',
        ':',
    ];
    assert(prefix@ =~= command_prefix());
    let mut r = string_from(prefix.as_slice(), 0, 23);
    assert(prefix@.subrange(0, 23) =~= prefix@);
    r.append(decimal_text(udp_port as u64).as_str());
    push_char(&mut r, ' ');
    let ghost head = r@;
    let mut k: usize = 0;
    while k < tickers.len()
        invariant
            k <= tickers@.len(),
            r@ == head + join(texts(tickers@).take(k as int), ','),
        decreases tickers@.len() - k,
    {
        let ghost before = r@;
        if k > 0 {
            push_char(&mut r, ',');
        }
        r.append(tickers[k].as_str());
        let ghost ts = texts(tickers@).take(k + 1);
        assert(ts.drop_last() =~= texts(tickers@).take(k as int));
        assert(ts.last() == tickers@[k as int]@);
        proof {
            if k == 0 {
                assert(join(texts(tickers@).take(0), ',') =~= Seq::<char>::empty());
            }
        }
        assert(r@ =~= head + join(ts, ','));
        k = k + 1;
    }
    assert(texts(tickers@).take(tickers@.len() as int) =~= texts(tickers@));
    push_char(&mut r, '\n');
    assert(r@ =~= stream_command_text(udp_port, texts(tickers@)));
    r
}

/// Whether the server's answer, trimmed, begins with `OK`.
pub open spec fn accepted(response: Seq<char>) -> bool {
    trim(response).len() >= 2 && trim(response)[0] == 'O' && trim(response)[1] == 'K'
}

/// Whether the server's answer to a `STREAM` command accepts it: the
/// answer, trimmed, begins with `OK`.
pub fn server_accepted(response: &str) -> (b: bool)
    ensures
        b == accepted(response@),
{
    let chars = chars_of(response);
    let (a, z) = trim_bounds(chars.as_slice());
    z - a >= 2 && chars[a] == 'O' && chars[a + 1] == 'K'
}

// ---------------------------------------------------------------------------
// The server accepts what the client sends
// ---------------------------------------------------------------------------
/// No character of the texts is whitespace.
pub open spec fn free_of_space(ts: Seq<Seq<char>>) -> bool {
    forall|i: int, k: int| 0 <= i < ts.len() && 0 <= k < ts[i].len() ==> !is_space(#[trigger] ts[i][k])
}

/// No text holds `c`.
pub open spec fn free_of(ts: Seq<Seq<char>>, c: char) -> bool {
    forall|i: int, k: int| 0 <= i < ts.len() && 0 <= k < ts[i].len() ==> #[trigger] ts[i][k] != c
}

pub proof fn lemma_join_no_space(ts: Seq<Seq<char>>)
    requires
        free_of_space(ts),
    ensures
        forall|k: int| 0 <= k < join(ts, ',').len() ==> !is_space(#[trigger] join(ts, ',')[k]),
    decreases ts.len(),
{
    if ts.len() == 1 {
        assert forall|k: int| 0 <= k < join(ts, ',').len() implies !is_space(
            #[trigger] join(ts, ',')[k],
        ) by {
            assert(ts[0][k] == join(ts, ',')[k]);
        }
    } else if ts.len() > 1 {
        let init = ts.drop_last();
        assert forall|i: int, k: int| 0 <= i < init.len() && 0 <= k < init[i].len() implies !is_space(
            #[trigger] init[i][k],
        ) by {
            assert(init[i] == ts[i]);
        }
        lemma_join_no_space(init);
        let x = join(init, ',');
        let j = join(ts, ',');
        assert(j == x + seq![','] + ts.last());
        assert forall|k: int| 0 <= k < j.len() implies !is_space(#[trigger] j[k]) by {
            if k < x.len() {
                assert(j[k] == x[k]);
            } else if k > x.len() {
                assert(j[k] == ts.last()[k - x.len() - 1]);
                assert(ts.last() == ts[ts.len() - 1]);
            }
        }
    }
}

/// Splitting joined texts at the separator gives them back, when none of
/// them holds the separator.
pub proof fn lemma_split_join(ts: Seq<Seq<char>>)
    requires
        ts.len() >= 1,
        free_of(ts, ','),
    ensures
        split(join(ts, ','), ',') == ts,
    decreases ts.len(),
{
    if ts.len() == 1 {
        assert forall|k: int| 0 <= k < ts[0].len() implies #[trigger] ts[0][k] != ',' by {
            assert(ts[0][k] != ',');
        }
        crate::text::lemma_split_no_sep(ts[0], 0, ',');
        assert(ts[0].subrange(0, ts[0].len() as int) =~= ts[0]);
        assert(seq![ts[0]] =~= ts);
    } else {
        let init = ts.drop_last();
        assert forall|i: int, k: int| 0 <= i < init.len() && 0 <= k < init[i].len() implies #[trigger] init[i][k]
            != ',' by {
            assert(init[i] == ts[i]);
        }
        lemma_split_join(init);
        let x = join(init, ',');
        let y = ts.last();
        let s = x + seq![','] + y;
        assert(join(ts, ',') == s);
        crate::text::lemma_split_prefix(x, y, ',', 0);
        assert forall|k: int| x.len() + 1 <= k < s.len() implies #[trigger] s[k] != ',' by {
            assert(s[k] == y[k - x.len() - 1]);
            assert(y == ts[ts.len() - 1]);
        }
        crate::text::lemma_split_no_sep(s, x.len() + 1int, ',');
        assert(s.subrange(x.len() + 1int, s.len() as int) =~= y);
        assert(ts =~= init.push(y));
    }
}

/// The address the client asks quotes to be sent to: 127.0.0.1 and its
/// UDP port.
pub open spec fn local_address(udp_port: u16) -> SocketAddress {
    SocketAddress::V4 { ip: Ipv4Address { a: 127, b: 0, c: 0, d: 1 }, port: udp_port }
}

/// The command without its final line feed.
pub open spec fn command_body(udp_port: u16, tickers: Seq<Seq<char>>) -> Seq<char> {
    command_prefix() + decimal(udp_port as nat) + seq![' '] + join(tickers, ',')
}

/// Where the address word of the command ends.
pub open spec fn address_end(udp_port: u16) -> int {
    23int + decimal(udp_port as nat).len()
}

/// The command's body holds no whitespace but the two spaces after the
/// first and second words.
proof fn lemma_body_spaces(udp_port: u16, tickers: Seq<Seq<char>>)
    requires
        free_of_space(tickers),
    ensures
        forall|k: int|
            0 <= k < command_body(udp_port, tickers).len() && k != 6 && k != address_end(udp_port)
                ==> !is_space(#[trigger] command_body(udp_port, tickers)[k]),
        command_body(udp_port, tickers)[6] == ' ',
        command_body(udp_port, tickers)[address_end(udp_port)] == ' ',
        command_body(udp_port, tickers).len() == address_end(udp_port) + 1 + join(tickers, ',').len(),
{
    let dp = decimal(udp_port as nat);
    let jn = join(tickers, ',');
    let pre = command_prefix();
    let body = command_body(udp_port, tickers);
    let e1 = address_end(udp_port);
    lemma_join_no_space(tickers);
    crate::text::lemma_decimal_digits(udp_port as nat);
    assert forall|k: int| 0 <= k < body.len() && k != 6 && k != e1 implies !is_space(
        #[trigger] body[k],
    ) by {
        if k < 23 {
            assert(body[k] == pre[k]);
        } else if k < e1 {
            assert(body[k] == dp[k - 23]);
        } else {
            assert(body[k] == jn[k - e1 - 1]);
        }
    }
}

/// Trimming the command drops just the final line feed.
proof fn lemma_command_trim(udp_port: u16, tickers: Seq<Seq<char>>)
    requires
        join(tickers, ',').len() > 0,
        free_of_space(tickers),
    ensures
        trim(stream_command_text(udp_port, tickers)) == command_body(udp_port, tickers),
{
    let body = command_body(udp_port, tickers);
    let cmd = stream_command_text(udp_port, tickers);
    lemma_body_spaces(udp_port, tickers);
    assert(cmd =~= body.push('\n'));
    assert(!is_space(cmd[0]));
    assert(cmd[cmd.len() - 1] == '\n');
    assert(cmd[cmd.len() - 2] == body[body.len() - 1]);
    assert(crate::text::back_space(cmd, 0, cmd.len() - 1) == cmd.len() - 1);
    assert(trim(cmd) =~= body);
}

/// The three words of the command: `STREAM`, the address, the list.
proof fn lemma_command_words(udp_port: u16, tickers: Seq<Seq<char>>)
    requires
        join(tickers, ',').len() > 0,
        free_of_space(tickers),
    ensures
        nth_word(command_body(udp_port, tickers), 0) == Some(stream_keyword()),
        nth_word(command_body(udp_port, tickers), 1) == Some(
            command_body(udp_port, tickers).subrange(7, address_end(udp_port)),
        ),
        nth_word(command_body(udp_port, tickers), 2) == Some(join(tickers, ',')),
{
    let body = command_body(udp_port, tickers);
    let e1 = address_end(udp_port);
    lemma_body_spaces(udp_port, tickers);
    crate::text::lemma_word_end_at(body, 0, 6);
    assert(body.subrange(0, 6) =~= stream_keyword());
    assert(crate::text::skip_space(body, 7) == 7);
    assert(crate::text::skip_space(body, 6) == 7);
    crate::text::lemma_word_end_at(body, 7, e1);
    assert(word_from(body, 0, 1) == word_from(body, 6, 0));
    assert(crate::text::skip_space(body, e1 + 1) == e1 + 1);
    assert(crate::text::skip_space(body, e1) == e1 + 1);
    crate::text::lemma_word_end_at(body, e1 + 1, body.len() as int);
    assert(word_from(body, 0, 2) == word_from(body, 6, 1));
    assert(word_from(body, 6, 1) == word_from(body, e1, 0));
    assert(body.subrange(e1 + 1, body.len() as int) =~= join(tickers, ','));
}

/// The address word is `udp://` and the text of the local address.
proof fn lemma_command_target(udp_port: u16, tickers: Seq<Seq<char>>)
    ensures
        udp_target(command_body(udp_port, tickers).subrange(7, address_end(udp_port))) == Some(
            local_address(udp_port),
        ),
{
    let body = command_body(udp_port, tickers);
    let target = body.subrange(7, address_end(udp_port));
    assert(target.subrange(0, 6) =~= udp_scheme());
    let addr_text = target.subrange(6, target.len() as int);
    let ip = Ipv4Address { a: 127, b: 0, c: 0, d: 1 };
    assert(decimal(1) == seq!['1']);
    assert(decimal(0) == seq!['0']);
    assert(decimal(12) == decimal(1).push('2'));
    assert(decimal(127) == decimal(12).push('7'));
    assert(addr_text =~= socket_text(local_address(udp_port)));
    crate::readback::lemma_ipv4_text_round_trip(ip, udp_port);
}

/// The list names the tickers, upper-cased, each once.
proof fn lemma_command_tickers(tickers: Seq<Seq<char>>)
    requires
        tickers.len() >= 1,
        free_of_space(tickers),
        free_of(tickers, ','),
    ensures
        ticker_set(join(tickers, ',')) == dedup(tickers.map_values(|t: Seq<char>| uppercase(t))),
        ticker_set(join(tickers, ',')).len() > 0,
{
    lemma_split_join(tickers);
    assert forall|i: int| 0 <= i < tickers.len() implies trim(#[trigger] tickers[i]) == tickers[i] by {
        assert forall|k: int| 0 <= k < tickers[i].len() implies !is_space(#[trigger] tickers[i][k]) by {
        }
        crate::text::lemma_trim_no_space(tickers[i]);
    }
    assert(split(join(tickers, ','), ',').map_values(|p: Seq<char>| ticker_of(p)) =~= tickers.map_values(
        |t: Seq<char>| uppercase(t),
    ));
    crate::command::lemma_dedup(tickers.map_values(|t: Seq<char>| uppercase(t)));
}

/// Law: the server accepts the `STREAM` command the client builds, as a
/// subscription for 127.0.0.1 at the client's UDP port to the client's
/// tickers, upper-cased, each once. This holds whenever the joined ticker
/// list is not empty and no ticker holds whitespace or a comma (either
/// would change how the server splits the line).
pub proof fn lemma_stream_command_accepted(udp_port: u16, tickers: Seq<Seq<char>>)
    requires
        join(tickers, ',').len() > 0,
        free_of_space(tickers),
        free_of(tickers, ','),
    ensures
        line_request(stream_command_text(udp_port, tickers)) == Some(
            Some((local_address(udp_port), dedup(tickers.map_values(|t: Seq<char>| uppercase(t))))),
        ),
{
    let body = command_body(udp_port, tickers);
    lemma_command_trim(udp_port, tickers);
    lemma_command_words(udp_port, tickers);
    lemma_command_target(udp_port, tickers);
    lemma_body_spaces(udp_port, tickers);
    if tickers.len() == 0 {
        assert(join(tickers, ',').len() == 0);
    }
    lemma_command_tickers(tickers);
    assert(!local_address(udp_port).spec_is_unspecified());
}

} // verus!
