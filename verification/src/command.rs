//! The `STREAM` command that a client sends over TCP to subscribe, and what
//! the server makes of each line it receives:
//!
//! ```text
//! STREAM udp://<host>:<port> TICKER1,TICKER2,...
//! ```
use vstd::prelude::*;

use crate::address::socket_address_of;
use crate::address::parse_socket_chars;
use crate::address::SocketAddress;
use crate::text::chars_of;
use crate::text::find_separator;
use crate::text::find_word;
use crate::text::lemma_find_char;
use crate::text::lemma_word_from;
use crate::text::nth_word;
use crate::text::push_char;
use crate::text::split;
use crate::text::split_from;
use crate::text::trim;
use crate::text::trim_bounds;

verus! {

// ---------------------------------------------------------------------------
// Upper case
// ---------------------------------------------------------------------------
/// What `str::to_uppercase` gives for the characters `s`: each character
/// replaced by its Unicode upper-case mapping, which for some characters is
/// more than one character.
pub uninterp spec fn uppercase(s: Seq<char>) -> Seq<char>;

/// Whether `c` is an ASCII character.
pub open spec fn is_ascii_char(c: char) -> bool {
    (c as u32) < 128
}

/// Whether `c` is an ASCII lower-case letter, `a` to `z`.
pub open spec fn is_ascii_lower(c: char) -> bool {
    'a' <= c && c <= 'z'
}

/// The ASCII upper case of `c`: `a` to `z` become `A` to `Z`; every other
/// character stays as it is.
pub open spec fn ascii_upper(c: char) -> char {
    if is_ascii_lower(c) {
        ((c as u32) - 32) as char
    } else {
        c
    }
}

/// Every character of `s` is ASCII.
pub open spec fn is_ascii_text(s: Seq<char>) -> bool {
    forall|k: int| 0 <= k < s.len() ==> is_ascii_char(#[trigger] s[k])
}

/// `s` with each character replaced by its ASCII upper case.
pub open spec fn ascii_uppercase(s: Seq<char>) -> Seq<char> {
    s.map_values(|c: char| ascii_upper(c))
}

/// A piece of ASCII text is ASCII text.
pub proof fn lemma_ascii_subrange(s: Seq<char>, a: int, b: int)
    requires
        is_ascii_text(s),
        0 <= a <= b <= s.len(),
    ensures
        is_ascii_text(s.subrange(a, b)),
{
    assert forall|k: int| 0 <= k < b - a implies is_ascii_char(#[trigger] s.subrange(a, b)[k]) by {
        assert(s.subrange(a, b)[k] == s[a + k]);
    }
}

/// `str::to_uppercase`: the result is the upper-case mapping of `s`, whose
/// value this crate leaves to the name [`uppercase`]. Of ASCII text more is
/// stated: the Unicode mapping that the documentation names maps each ASCII
/// character to one character, `a` to `z` to `A` to `Z` and every other
/// ASCII character to itself (the mapping `to_ascii_uppercase` documents).
/// Of other text nothing more is stated.
#[verifier::external_body]
pub(crate) fn to_uppercase(s: &str) -> (r: String)
    ensures
        r@ == uppercase(s@),
        is_ascii_text(s@) ==> r@ == ascii_uppercase(s@),
{
    s.to_uppercase()
}

/// A character that an accepted command's ticker may hold when the command
/// is ASCII text: ASCII, and neither a lower-case letter, whitespace nor a
/// comma.
pub open spec fn is_ticker_char(c: char) -> bool {
    is_ascii_char(c) && !is_ascii_lower(c) && !crate::text::is_space(c) && c != ','
}

/// Every character of `t` is a [`is_ticker_char`].
pub open spec fn is_clean_ticker(t: Seq<char>) -> bool {
    forall|k: int| 0 <= k < t.len() ==> is_ticker_char(#[trigger] t[k])
}

/// Upper-casing ASCII characters that are neither whitespace nor a comma
/// gives a clean ticker.
pub proof fn lemma_ascii_uppercase_clean(p: Seq<char>)
    requires
        forall|k: int|
            0 <= k < p.len() ==> is_ascii_char(#[trigger] p[k]) && !crate::text::is_space(p[k])
                && p[k] != ',',
    ensures
        is_clean_ticker(ascii_uppercase(p)),
{
    let u = ascii_uppercase(p);
    assert forall|k: int| 0 <= k < u.len() implies is_ticker_char(#[trigger] u[k]) by {
        let c = p[k];
        assert(u[k] == ascii_upper(c));
        if is_ascii_lower(c) {
            let x = (c as u32) - 32;
            assert(65 <= x <= 90);
            assert((x as char) as u32 == x);
        }
    }
}

/// Law: a clean ticker is its own ASCII upper case, so upper-casing it again
/// ([`to_uppercase`]) gives it back.
pub proof fn lemma_clean_ticker_upper(t: Seq<char>)
    requires
        is_clean_ticker(t),
    ensures
        is_ascii_text(t),
        ascii_uppercase(t) == t,
{
    assert forall|k: int| 0 <= k < t.len() implies is_ascii_char(#[trigger] t[k]) by {
        assert(is_ticker_char(t[k]));
    }
    assert forall|k: int| 0 <= k < t.len() implies #[trigger] ascii_uppercase(t)[k] == t[k] by {
        assert(is_ticker_char(t[k]));
    }
    assert(ascii_uppercase(t) =~= t);
}

// ---------------------------------------------------------------------------
// Lists of texts
// ---------------------------------------------------------------------------
/// The texts held by a list of strings.
pub open spec fn texts(v: Seq<String>) -> Seq<Seq<char>> {
    v.map_values(|x: String| x@)
}

/// `s` with every text after its first occurrence removed; the order of
/// first occurrences is kept.
pub open spec fn dedup(s: Seq<Seq<char>>) -> Seq<Seq<char>>
    decreases s.len(),
{
    if s.len() == 0 {
        seq![]
    } else {
        let d = dedup(s.drop_last());
        if d.contains(s.last()) {
            d
        } else {
            d.push(s.last())
        }
    }
}

/// No text occurs twice in `s`.
pub open spec fn no_duplicates(s: Seq<Seq<char>>) -> bool {
    forall|i: int, j: int| 0 <= i < j < s.len() ==> s[i] != s[j]
}

pub proof fn lemma_dedup(s: Seq<Seq<char>>)
    ensures
        no_duplicates(dedup(s)),
        forall|t: Seq<char>| dedup(s).contains(t) <==> s.contains(t),
        s.len() > 0 ==> dedup(s).len() > 0,
    decreases s.len(),
{
    if s.len() > 0 {
        let sl = s.drop_last();
        let x = s.last();
        lemma_dedup(sl);
        let d = dedup(sl);
        assert forall|t: Seq<char>| dedup(s).contains(t) <==> s.contains(t) by {
            if s.contains(t) {
                let k = choose|k: int| 0 <= k < s.len() && s[k] == t;
                if k < s.len() - 1 {
                    assert(sl[k] == t);
                }
            }
            if sl.contains(t) {
                let k = choose|k: int| 0 <= k < sl.len() && sl[k] == t;
                assert(s[k] == t);
            }
            if t == x {
                assert(s[s.len() - 1] == t);
            }
            if !d.contains(x) {
                if d.push(x).contains(t) {
                    let k = choose|k: int| 0 <= k < d.push(x).len() && d.push(x)[k] == t;
                    if k < d.len() {
                        assert(d[k] == t);
                    }
                }
                if d.contains(t) {
                    let k = choose|k: int| 0 <= k < d.len() && d[k] == t;
                    assert(d.push(x)[k] == t);
                }
                if t == x {
                    assert(d.push(x)[d.len() as int] == t);
                }
            }
        }
        if !d.contains(x) {
            assert forall|i: int, j: int| 0 <= i < j < d.push(x).len() implies d.push(x)[i] != d.push(
                x,
            )[j] by {
                if j == d.len() {
                    assert(d[i] == d.push(x)[i]);
                }
            }
            assert(d.push(x)[d.len() as int] == x);
        }
    }
}

/// Whether `t` is the text of one of the strings in `v`.
pub fn contains_text(v: &Vec<String>, t: &String) -> (b: bool)
    ensures
        b == texts(v@).contains(t@),
{
    let mut i: usize = 0;
    while i < v.len()
        invariant
            i <= v@.len(),
            forall|k: int| 0 <= k < i ==> v@[k]@ != t@,
        decreases v@.len() - i,
    {
        if v[i] == *t {
            assert(texts(v@)[i as int] == t@);
            return true;
        }
        i = i + 1;
    }
    proof {
        if texts(v@).contains(t@) {
            let k = choose|k: int| 0 <= k < texts(v@).len() && texts(v@)[k] == t@;
            assert(v@[k]@ == t@);
        }
    }
    false
}

/// A string with the characters `s[a..b)`.
pub fn string_from(s: &[char], a: usize, b: usize) -> (r: String)
    requires
        a <= b <= s@.len(),
    ensures
        r@ == s@.subrange(a as int, b as int),
{
    let mut r = String::new();
    let mut k = a;
    while k < b
        invariant
            a <= k <= b <= s@.len(),
            r@ == s@.subrange(a as int, k as int),
        decreases b - k,
    {
        push_char(&mut r, s[k]);
        assert(s@.subrange(a as int, k + 1) =~= s@.subrange(a as int, k as int).push(s@[k as int]));
        k = k + 1;
    }
    r
}

/// `s[a..b)` with its leading and trailing whitespace removed, upper-cased.
/// When `s[a..b)` is made of ASCII characters that are neither whitespace
/// nor a comma, the result is a clean ticker.
fn trimmed_upper(s: &[char], a: usize, b: usize) -> (r: String)
    requires
        a <= b <= s@.len(),
    ensures
        r@ == uppercase(trim(s@.subrange(a as int, b as int))),
        is_ascii_text(s@.subrange(a as int, b as int)) ==> r@ == ascii_uppercase(
            trim(s@.subrange(a as int, b as int)),
        ),
        (forall|k: int|
            a <= k < b ==> is_ascii_char(#[trigger] s@[k]) && !crate::text::is_space(s@[k])
                && s@[k] != ',') ==> is_clean_ticker(r@),
{
    let piece = &s[a..b];
    let (x, y) = trim_bounds(piece);
    let t = string_from(piece, x, y);
    proof {
        if is_ascii_text(piece@) {
            lemma_ascii_subrange(piece@, x as int, y as int);
        }
    }
    let r = to_uppercase(t.as_str());
    proof {
        if forall|k: int|
            a <= k < b ==> is_ascii_char(#[trigger] s@[k]) && !crate::text::is_space(s@[k])
                && s@[k] != ',' {
            assert forall|k: int| 0 <= k < t@.len() implies is_ascii_char(#[trigger] t@[k])
                && !crate::text::is_space(t@[k]) && t@[k] != ',' by {
                assert(t@[k] == s@[a + x + k]);
            }
            lemma_ascii_uppercase_clean(t@);
        }
    }
    r
}

// ---------------------------------------------------------------------------
// The STREAM command
// ---------------------------------------------------------------------------
/// The command word, `STREAM`.
pub open spec fn stream_keyword() -> Seq<char> {
    seq!['S', 'T', 'R', 'E', 'A', 'M']
}

/// The scheme before the address, `udp://`.
pub open spec fn udp_scheme() -> Seq<char> {
    seq!['u', 'd', 'p', ':', '/', '/']
}

/// The ticker a piece of the ticker list names: trimmed and upper-cased.
pub open spec fn ticker_of(piece: Seq<char>) -> Seq<char> {
    uppercase(trim(piece))
}

/// The tickers a comma-separated list names, each once, in the order of
/// their first occurrence.
pub open spec fn ticker_set(list: Seq<char>) -> Seq<Seq<char>> {
    dedup(split(list, ',').map_values(|p: Seq<char>| ticker_of(p)))
}

/// [`ticker_set`] for a list of ASCII text, where upper-casing is the ASCII
/// one ([`ascii_uppercase`]).
pub open spec fn ascii_ticker_set(list: Seq<char>) -> Seq<Seq<char>> {
    dedup(split(list, ',').map_values(|p: Seq<char>| ascii_uppercase(trim(p))))
}

/// The socket address of a `udp://<address>` word; `None` when the word
/// lacks the scheme or the rest is not a socket address.
pub open spec fn udp_target(word: Seq<char>) -> Option<SocketAddress> {
    if word.len() >= 6 && word.subrange(0, 6) == udp_scheme() {
        socket_address_of(word.subrange(6, word.len() as int))
    } else {
        None
    }
}

/// What a `STREAM` command asks for: the first word is `STREAM`; the second
/// is `udp://` followed by a socket address that is not the unspecified
/// address; the third is a comma-separated ticker list. Words after the
/// third are ignored. `None` when the text is not such a command.
pub open spec fn stream_request(input: Seq<char>) -> Option<(SocketAddress, Seq<Seq<char>>)> {
    if nth_word(input, 0) != Some(stream_keyword()) {
        None
    } else {
        match nth_word(input, 1) {
            None => None,
            Some(target) => match udp_target(target) {
                None => None,
                Some(addr) => if addr.spec_is_unspecified() {
                    None
                } else {
                    match nth_word(input, 2) {
                        None => None,
                        Some(list) => if ticker_set(list).len() == 0 {
                            None
                        } else {
                            Some((addr, ticker_set(list)))
                        },
                    }
                },
            },
        }
    }
}

/// What a `STREAM` command of ASCII text asks for: [`stream_request`], with
/// the tickers upper-cased the ASCII way ([`ascii_ticker_set`] of the third
/// word).
pub open spec fn ascii_stream_request(input: Seq<char>) -> Option<(SocketAddress, Seq<Seq<char>>)> {
    match stream_request(input) {
        None => None,
        Some((addr, _)) => match nth_word(input, 2) {
            None => None,
            Some(list) => Some((addr, ascii_ticker_set(list))),
        },
    }
}

/// Law: an accepted `STREAM` command names an address that is not the
/// unspecified one and at least one ticker, none of them twice.
pub proof fn lemma_stream_request_shape(input: Seq<char>)
    ensures
        stream_request(input) matches Some((addr, tickers)) ==> !addr.spec_is_unspecified()
            && tickers.len() > 0 && no_duplicates(tickers),
{
    if let Some(list) = nth_word(input, 2) {
        lemma_dedup(split(list, ',').map_values(|p: Seq<char>| ticker_of(p)));
    }
}

/// Every character of `w` is ASCII and none is whitespace.
pub open spec fn word_chars(w: Seq<char>) -> bool {
    forall|k: int| 0 <= k < w.len() ==> is_ascii_char(#[trigger] w[k]) && !crate::text::is_space(w[k])
}

/// The tickers of a comma-separated list `s[a..b)`, per [`ticker_set`].
fn parse_ticker_list(s: &[char], a: usize, b: usize) -> (r: Vec<String>)
    requires
        a <= b <= s@.len(),
    ensures
        texts(r@) == ticker_set(s@.subrange(a as int, b as int)),
        is_ascii_text(s@.subrange(a as int, b as int)) ==> texts(r@) == ascii_ticker_set(
            s@.subrange(a as int, b as int),
        ),
        (forall|k: int| a <= k < b ==> is_ascii_char(#[trigger] s@[k]) && !crate::text::is_space(
            s@[k],
        )) ==> forall|i: int| 0 <= i < r@.len() ==> is_clean_ticker(#[trigger] r@[i]@),
{
    let list = &s[a..b];
    let ghost w = list@;
    let mut out: Vec<String> = Vec::new();
    let mut i: usize = 0;
    let mut more = true;
    let ghost mut done: Seq<Seq<char>> = seq![];
    while more
        invariant
            w == list@,
            i <= w.len(),
            more ==> split_from(w, 0, ',') == done + split_from(w, i as int, ','),
            !more ==> split_from(w, 0, ',') == done,
            texts(out@) == dedup(done.map_values(|p: Seq<char>| ticker_of(p))),
            is_ascii_text(w) ==> texts(out@) == dedup(
                done.map_values(|p: Seq<char>| ascii_uppercase(trim(p))),
            ),
            word_chars(w) ==> forall|m: int| 0 <= m < out@.len() ==> is_clean_ticker(
                #[trigger] out@[m]@,
            ),
        decreases w.len() - i + (if more {
            1int
        } else {
            0int
        }),
    {
        let j = find_separator(list, i, ',');
        proof {
            lemma_find_char(w, i as int, ',');
        }
        let t = trimmed_upper(list, i, j);
        proof {
            if word_chars(w) {
                assert forall|k: int| i <= k < j implies is_ascii_char(#[trigger] list@[k])
                    && !crate::text::is_space(list@[k]) && list@[k] != ',' by {
                    assert(w[k] != ',');
                }
                assert(is_clean_ticker(t@));
            }
        }
        let ghost piece = w.subrange(i as int, j as int);
        let ghost before = done.map_values(|p: Seq<char>| ticker_of(p));
        let ghost before_ascii = done.map_values(|p: Seq<char>| ascii_uppercase(trim(p)));
        proof {
            if is_ascii_text(w) {
                lemma_ascii_subrange(w, i as int, j as int);
                assert(w.subrange(i as int, j as int) =~= list@.subrange(i as int, j as int));
                let da = done.push(piece).map_values(|p: Seq<char>| ascii_uppercase(trim(p)));
                assert(da =~= before_ascii.push(t@));
                assert(da.drop_last() =~= before_ascii);
            }
            done = done.push(piece);
            assert(done.map_values(|p: Seq<char>| ticker_of(p)) =~= before.push(t@));
            assert(done.map_values(|p: Seq<char>| ticker_of(p)).drop_last() =~= before);
        }
        if !contains_text(&out, &t) {
            let ghost old_out = out@;
            out.push(t);
            assert(texts(out@) =~= texts(old_out).push(t@));
            assert(forall|m: int| 0 <= m < old_out.len() ==> out@[m] == old_out[m]);
        }
        if j >= list.len() {
            more = false;
            assert(split_from(w, i as int, ',') =~= seq![piece]);
        } else {
            assert(split_from(w, i as int, ',') =~= seq![piece] + split_from(w, j + 1, ','));
            i = j + 1;
        }
    }
    out
}

/// Whether `s[a..b)` holds exactly the characters `t`.
pub fn chars_equal(s: &[char], a: usize, b: usize, t: &[char]) -> (r: bool)
    requires
        a <= b <= s@.len(),
    ensures
        r == (s@.subrange(a as int, b as int) == t@),
{
    if b - a != t.len() {
        return false;
    }
    let mut k: usize = 0;
    while k < t.len()
        invariant
            b - a == t@.len(),
            a <= b <= s@.len(),
            k <= t@.len(),
            forall|m: int| 0 <= m < k ==> s@[a + m] == t@[m],
        decreases t@.len() - k,
    {
        if s[a + k] != t[k] {
            assert(s@.subrange(a as int, b as int)[k as int] != t@[k as int]);
            return false;
        }
        k = k + 1;
    }
    assert(s@.subrange(a as int, b as int) =~= t@);
    true
}

/// The socket address of the word `s[a..b)`, per [`udp_target`].
fn parse_udp_target(s: &[char], a: usize, b: usize) -> (r: Option<SocketAddress>)
    requires
        a <= b <= s@.len(),
    ensures
        r == udp_target(s@.subrange(a as int, b as int)),
{
    let scheme: [char; 6] = ['u', 'd', 'p', ':', '/', '/'];
    assert(scheme@ =~= udp_scheme());
    let ghost word = s@.subrange(a as int, b as int);
    if b - a < 6 {
        return None;
    }
    assert(word.subrange(0, 6) =~= s@.subrange(a as int, a + 6));
    assert(word.subrange(6, word.len() as int) =~= s@.subrange(a + 6, b as int));
    if !chars_equal(s, a, a + 6, scheme.as_slice()) {
        return None;
    }
    parse_socket_chars(&s[a + 6..b])
}

/// Reads a `STREAM` command from its characters, per [`stream_request`].
pub fn parse_stream_chars(s: &[char]) -> (r: Option<(SocketAddress, Vec<String>)>)
    ensures
        match r {
            None => stream_request(s@) is None,
            Some((addr, tickers)) => stream_request(s@) == Some((addr, texts(tickers@))),
        },
        is_ascii_text(s@) ==> match r {
            None => ascii_stream_request(s@) is None,
            Some((addr, tickers)) => ascii_stream_request(s@) == Some((addr, texts(tickers@))),
        },
        is_ascii_text(s@) ==> (r matches Some((_, tickers)) ==> forall|i: int|
            0 <= i < tickers@.len() ==> is_clean_ticker(#[trigger] tickers@[i]@)),
{
    let keyword: [char; 6] = ['S', 'T', 'R', 'E', 'A', 'M'];
    assert(keyword@ =~= stream_keyword());
    let (a0, b0) = match find_word(s, 0, 0) {
        Some(x) => x,
        None => return None,
    };
    proof {
        lemma_word_from(s@, 0, 0);
    }
    if !chars_equal(s, a0, b0, keyword.as_slice()) {
        return None;
    }
    let (a1, b1) = match find_word(s, 0, 1) {
        Some(x) => x,
        None => return None,
    };
    proof {
        lemma_word_from(s@, 0, 1);
    }
    let addr = match parse_udp_target(s, a1, b1) {
        Some(x) => x,
        None => return None,
    };
    if addr.is_unspecified() {
        return None;
    }
    let (a2, b2) = match find_word(s, 0, 2) {
        Some(x) => x,
        None => return None,
    };
    proof {
        lemma_word_from(s@, 0, 2);
        crate::text::lemma_word_end(s@, a2 as int);
    }
    proof {
        if is_ascii_text(s@) {
            lemma_ascii_subrange(s@, a2 as int, b2 as int);
        }
    }
    let tickers = parse_ticker_list(s, a2, b2);
    if tickers.len() == 0 {
        return None;
    }
    Some((addr, tickers))
}

/// Reads a `STREAM` command, per [`stream_request`]: the socket address to
/// stream to and the requested tickers, each once, in the order of their
/// first mention. `None` when `input` is not such a command.
///
/// When `input` is ASCII text, every ticker is clean ([`is_clean_ticker`]):
/// it holds no lower-case letter, no whitespace and no comma, so it is its
/// own upper case ([`lemma_clean_ticker_upper`]).
pub fn parse_stream_command(input: &str) -> (r: Option<(SocketAddress, Vec<String>)>)
    ensures
        match r {
            None => stream_request(input@) is None,
            Some((addr, tickers)) => stream_request(input@) == Some((addr, texts(tickers@))),
        },
        is_ascii_text(input@) ==> match r {
            None => ascii_stream_request(input@) is None,
            Some((addr, tickers)) => ascii_stream_request(input@) == Some((addr, texts(tickers@))),
        },
        is_ascii_text(input@) ==> (r matches Some((_, tickers)) ==> forall|i: int|
            0 <= i < tickers@.len() ==> is_clean_ticker(#[trigger] tickers@[i]@)),
{
    let chars = chars_of(input);
    parse_stream_chars(chars.as_slice())
}

// ---------------------------------------------------------------------------
// A client's line, as the server handles it
// ---------------------------------------------------------------------------
/// The answer to an accepted `STREAM` command.
pub const OK_REPLY: &'static str = "OK: streaming started\n";

/// The answer to a line that is not a `STREAM` command.
pub const ERROR_REPLY: &'static str = "ERROR: usage STREAM udp://<host>:<port> TICK1,TICK2\n";

/// A client that streams: where its quotes go and which tickers it wants,
/// each once.
#[derive(Clone, Debug)]
pub struct ClientSubscription {
    pub udp_addr: SocketAddress,
    pub tickers: Vec<String>,
}

impl ClientSubscription {
    /// The address and the tickers' texts.
    pub open spec fn view(&self) -> (SocketAddress, Seq<Seq<char>>) {
        (self.udp_addr, texts(self.tickers@))
    }
}

/// What the server does with one line from a client.
#[derive(Debug)]
pub enum LineOutcome {
    /// The line is blank: read the next one.
    Skip,
    /// The line is a `STREAM` command: answer [`OK_REPLY`], register the
    /// subscription and stop reading.
    Subscribe(ClientSubscription),
    /// Anything else: answer [`ERROR_REPLY`] and read the next line.
    Reject,
}

/// What the server does with a line, as a spec: a line blank once trimmed
/// is skipped; otherwise the trimmed line is read as a `STREAM` command,
/// which either subscribes the client or is rejected.
pub open spec fn line_request(line: Seq<char>) -> Option<Option<(SocketAddress, Seq<Seq<char>>)>> {
    if trim(line).len() == 0 {
        None
    } else {
        Some(stream_request(trim(line)))
    }
}

/// Decides what to do with one line received from a client, per
/// [`line_request`]: `Skip` for a blank line, `Subscribe` with the requested
/// address and tickers for a `STREAM` command, `Reject` otherwise.
pub fn handle_line(line: &str) -> (r: LineOutcome)
    ensures
        match r {
            LineOutcome::Skip => line_request(line@) is None,
            LineOutcome::Reject => line_request(line@) == Some(
                None::<(SocketAddress, Seq<Seq<char>>)>,
            ),
            LineOutcome::Subscribe(sub) => {
                &&& line_request(line@) == Some(Some(sub.view()))
                &&& is_ascii_text(line@) ==> ascii_stream_request(trim(line@)) == Some(
                    sub.view(),
                )
                &&& is_ascii_text(line@) ==> forall|i: int|
                    0 <= i < sub.tickers@.len() ==> is_clean_ticker(#[trigger] sub.tickers@[i]@)
            },
        },
{
    let chars = chars_of(line);
    let (a, b) = trim_bounds(chars.as_slice());
    if a == b {
        return LineOutcome::Skip;
    }
    let ghost w = chars@.subrange(a as int, b as int);
    assert(is_ascii_text(chars@) ==> is_ascii_text(w)) by {
        if is_ascii_text(chars@) {
            assert forall|k: int| 0 <= k < w.len() implies is_ascii_char(#[trigger] w[k]) by {
                assert(w[k] == chars@[a + k]);
            }
        }
    }
    match parse_stream_chars(&chars.as_slice()[a..b]) {
        Some((udp_addr, tickers)) => LineOutcome::Subscribe(ClientSubscription { udp_addr, tickers }),
        None => LineOutcome::Reject,
    }
}

} // verus!
