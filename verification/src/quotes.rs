//! Quotes: which tickers the server quotes, the trading volume drawn for
//! each quote, and the `TICKER|PRICE|VOLUME|TIMESTAMP` line a quote travels
//! as.
//!
//! Prices are floating-point numbers and stay with the caller: this module
//! handles a price only as the text it is written as.
use vstd::prelude::*;

use rand::Rng;
use rand::SeedableRng;

use crate::address::read_number;
use crate::address::parse_number;
use crate::command::chars_equal;
use crate::command::no_duplicates;
use crate::command::string_from;
use crate::command::texts;
use crate::text::chars_of;
use crate::text::decimal;
use crate::text::decimal_text;
use crate::text::find_separator;
use crate::text::lemma_find_char;
use crate::text::push_char;
use crate::text::split;
use crate::text::split_from;

verus! {

// ---------------------------------------------------------------------------
// Tickers and volumes
// ---------------------------------------------------------------------------
pub open spec fn aapl() -> Seq<char> {
    seq!['A', 'A', 'P', 'L']
}

pub open spec fn googl() -> Seq<char> {
    seq!['G', 'O', 'O', 'G', 'L']
}

pub open spec fn tsla() -> Seq<char> {
    seq!['T', 'S', 'L', 'A']
}

pub open spec fn msft() -> Seq<char> {
    seq!['M', 'S', 'F', 'T']
}

pub open spec fn amzn() -> Seq<char> {
    seq!['A', 'M', 'Z', 'N']
}

/// The tickers the server quotes, in the order it quotes them.
pub open spec fn quoted_tickers() -> Seq<Seq<char>> {
    seq![aapl(), googl(), tsla(), msft(), amzn()]
}

/// The heavily traded tickers, whose volumes are larger.
pub open spec fn is_popular(ticker: Seq<char>) -> bool {
    ticker == aapl() || ticker == msft() || ticker == tsla()
}

/// The range `[low, high)` a quote's volume is drawn from: `[1000, 6000)`
/// for a popular ticker, `[100, 1100)` for any other.
pub open spec fn volume_range(ticker: Seq<char>) -> (u32, u32) {
    if is_popular(ticker) {
        (1000, 6000)
    } else {
        (100, 1100)
    }
}

/// How often the server quotes every ticker: every 500 milliseconds.
pub const QUOTE_INTERVAL_MILLIS: u64 = 500;

/// The standard random number generator of `rand` (a ChaCha generator that
/// is seeded once and never reseeds).
#[verifier::external_type_specification]
#[verifier::external_body]
pub struct ExStdRng(rand::rngs::StdRng);

/// The error `rand` reports when a generator cannot be seeded.
#[verifier::external_type_specification]
#[verifier::external_body]
pub struct ExRandError(rand::Error);

/// `StdRng::from_rng(OsRng)`: a generator seeded with bytes from the
/// operating system, or the error the system reported. Which of the two
/// comes out depends on the system, so nothing is stated of it; the call
/// reports a failure as an error and does not panic.
#[verifier::external_body]
fn std_rng_from_os() -> Result<rand::rngs::StdRng, rand::Error> {
    rand::rngs::StdRng::from_rng(rand::rngs::OsRng)
}

/// `Rng::gen_range(low..high)` on a `StdRng`, for `u32`: the number drawn
/// lies in `[low, high)`. Which number comes out is left open (it is
/// random), and so is the generator's state afterwards. `gen_range` panics
/// only on an empty range, which `low < high` rules out; a `StdRng` never
/// reseeds, so drawing from it does not fail.
#[verifier::external_body]
fn gen_range(rng: &mut rand::rngs::StdRng, low: u32, high: u32) -> (r: u32)
    requires
        low < high,
    ensures
        low <= r < high,
{
    rng.gen_range(low..high)
}

/// A random number generator seeded from the operating system; `None` when
/// the system cannot supply a seed.
pub fn seeded_generator() -> (r: Option<rand::rngs::StdRng>) {
    match std_rng_from_os() {
        Ok(rng) => Some(rng),
        Err(_) => None,
    }
}

/// Whether `ticker` is one of the popular tickers, per [`is_popular`].
pub fn popular(ticker: &str) -> (b: bool)
    ensures
        b == is_popular(ticker@),
{
    let chars = chars_of(ticker);
    let s = chars.as_slice();
    let n = s.len();
    let a: [char; 4] = ['A', 'A', 'P', 'L'];
    let m: [char; 4] = ['M', 'S', 'F', 'T'];
    let t: [char; 4] = ['T', 'S', 'L', 'A'];
    assert(a@ =~= aapl());
    assert(m@ =~= msft());
    assert(t@ =~= tsla());
    assert(s@.subrange(0, n as int) =~= s@);
    chars_equal(s, 0, n, a.as_slice()) || chars_equal(s, 0, n, m.as_slice()) || chars_equal(
        s,
        0,
        n,
        t.as_slice(),
    )
}

/// The range a quote's volume for `ticker` is drawn from, per
/// [`volume_range`].
pub fn volume_bounds(ticker: &str) -> (r: (u32, u32))
    ensures
        r == volume_range(ticker@),
{
    if popular(ticker) {
        (1000, 6000)
    } else {
        (100, 1100)
    }
}

/// Draws the trading volume of a quote for `ticker` with `rng`, from the
/// ticker's [`volume_bounds`].
pub fn draw_volume(ticker: &str, rng: &mut rand::rngs::StdRng) -> (v: u32)
    ensures
        volume_range(ticker@).0 <= v < volume_range(ticker@).1,
{
    let (low, high) = volume_bounds(ticker);
    gen_range(rng, low, high)
}

/// The parts of a quote that do not depend on the price: which of the
/// generator's tickers it is for (its position), the ticker, and the volume.
pub struct QuoteDraw {
    pub index: usize,
    pub ticker: String,
    pub volume: u32,
}

/// The tickers the server quotes. The prices that go with them are kept by
/// the caller, position by position.
pub struct QuoteGenerator {
    tickers: Vec<String>,
}

impl QuoteGenerator {
    /// The tickers, as texts.
    pub closed spec fn ticker_texts(&self) -> Seq<Seq<char>> {
        texts(self.tickers@)
    }

    /// The generator for AAPL, GOOGL, TSLA, MSFT and AMZN, in that order.
    pub fn new() -> (r: QuoteGenerator)
        ensures
            r.ticker_texts() == quoted_tickers(),
    {
        let a: [char; 4] = ['A', 'A', 'P', 'L'];
        let g: [char; 5] = ['G', 'O', 'O', 'G', 'L'];
        let t: [char; 4] = ['T', 'S', 'L', 'A'];
        let m: [char; 4] = ['M', 'S', 'F', 'T'];
        let z: [char; 4] = ['A', 'M', 'Z', 'N'];
        let mut tickers: Vec<String> = Vec::new();
        tickers.push(string_from(a.as_slice(), 0, 4));
        tickers.push(string_from(g.as_slice(), 0, 5));
        tickers.push(string_from(t.as_slice(), 0, 4));
        tickers.push(string_from(m.as_slice(), 0, 4));
        tickers.push(string_from(z.as_slice(), 0, 4));
        assert(a@.subrange(0, 4) =~= aapl());
        assert(g@.subrange(0, 5) =~= googl());
        assert(t@.subrange(0, 4) =~= tsla());
        assert(m@.subrange(0, 4) =~= msft());
        assert(z@.subrange(0, 4) =~= amzn());
        let r = QuoteGenerator { tickers };
        assert(r.ticker_texts() =~= quoted_tickers());
        r
    }

    /// The tickers, in the order they are quoted.
    pub fn tickers(&self) -> (r: &[String])
        ensures
            texts(r@) == self.ticker_texts(),
    {
        self.tickers.as_slice()
    }

    /// Where `ticker` stands among the generator's tickers, if it is one.
    pub fn position(&self, ticker: &str) -> (r: Option<usize>)
        ensures
            match r {
                Some(k) => k < self.ticker_texts().len() && self.ticker_texts()[k as int]
                    == ticker@ && forall|j: int| 0 <= j < k ==> self.ticker_texts()[j] != ticker@,
                None => !self.ticker_texts().contains(ticker@),
            },
    {
        let t: String = ticker.to_owned();
        let mut k: usize = 0;
        while k < self.tickers.len()
            invariant
                k <= self.tickers@.len(),
                t@ == ticker@,
                forall|j: int| 0 <= j < k ==> self.ticker_texts()[j] != ticker@,
            decreases self.tickers@.len() - k,
        {
            if self.tickers[k] == t {
                return Some(k);
            }
            k = k + 1;
        }
        proof {
            if self.ticker_texts().contains(ticker@) {
                let j = choose|j: int|
                    0 <= j < self.ticker_texts().len() && self.ticker_texts()[j] == ticker@;
                assert(self.ticker_texts()[j] != ticker@);
            }
        }
        None
    }

    /// The price-independent part of a quote for `ticker`: `None` when the
    /// generator does not quote it; otherwise its position, the ticker, and
    /// a volume drawn with `rng` from the ticker's [`volume_range`].
    pub fn generate_quote(&self, ticker: &str, rng: &mut rand::rngs::StdRng) -> (r: Option<QuoteDraw>)
        ensures
            match r {
                None => !self.ticker_texts().contains(ticker@),
                Some(d) => {
                    &&& d.index < self.ticker_texts().len()
                    &&& self.ticker_texts()[d.index as int] == ticker@
                    &&& forall|j: int| 0 <= j < d.index ==> self.ticker_texts()[j] != ticker@
                    &&& d.ticker@ == ticker@
                    &&& volume_range(ticker@).0 <= d.volume < volume_range(ticker@).1
                },
            },
    {
        let index = match self.position(ticker) {
            Some(k) => k,
            None => return None,
        };
        let volume = draw_volume(ticker, rng);
        Some(QuoteDraw { index, ticker: ticker.to_owned(), volume })
    }
}

/// The quoted tickers are distinct, so a ticker's position is its only one.
pub proof fn lemma_quoted_tickers_distinct()
    ensures
        no_duplicates(quoted_tickers()),
{
    let q = quoted_tickers();
    assert forall|i: int, j: int| 0 <= i < j < q.len() implies q[i] != q[j] by {
        assert(q[i].len() != q[j].len() || q[i][0] != q[j][0] || q[i][1] != q[j][1]);
    }
}

// ---------------------------------------------------------------------------
// The quote line
// ---------------------------------------------------------------------------
/// `TICKER|PRICE|VOLUME|TIMESTAMP`, the price as the text given.
pub open spec fn quote_text(ticker: Seq<char>, price: Seq<char>, volume: u32, timestamp: u64) -> Seq<
    char,
> {
    ticker + seq!['|'] + price + seq!['|'] + decimal(volume as nat) + seq!['|'] + decimal(
        timestamp as nat,
    )
}

/// The line a quote travels as: `TICKER|PRICE|VOLUME|TIMESTAMP`, with the
/// price given as its text and the volume and timestamp in decimal.
pub fn quote_line(ticker: &str, price: &str, volume: u32, timestamp: u64) -> (r: String)
    ensures
        r@ == quote_text(ticker@, price@, volume, timestamp),
{
    let mut r: String = ticker.to_owned();
    push_char(&mut r, '|');
    r.append(price);
    push_char(&mut r, '|');
    r.append(decimal_text(volume as u64).as_str());
    push_char(&mut r, '|');
    r.append(decimal_text(timestamp).as_str());
    r
}

/// The unsigned number that the whole of `t` spells, as `u32::from_str` and
/// `u64::from_str` read it: an optional `+`, then one or more ASCII digits,
/// the value no greater than `bound`.
pub open spec fn unsigned_value(t: Seq<char>, bound: nat) -> Option<nat> {
    let p = if t.len() > 0 && t[0] == '+' {
        1int
    } else {
        0int
    };
    match read_number(t, p, 10, None, true, bound) {
        Some((v, q)) => if q == t.len() {
            Some(v)
        } else {
            None
        },
        None => None,
    }
}

/// What a quote line holds: the ticker, the price's text, the volume and the
/// timestamp. `None` unless there are exactly four `|`-separated fields and
/// the last two are a `u32` and a `u64`. (Reading the price as a number is
/// left to the caller.)
pub open spec fn quote_fields(s: Seq<char>) -> Option<(Seq<char>, Seq<char>, u32, u64)> {
    let parts = split(s, '|');
    if parts.len() != 4 {
        None
    } else {
        match (unsigned_value(parts[2], u32::MAX as nat), unsigned_value(parts[3], u64::MAX as nat)) {
            (Some(v), Some(t)) => Some((parts[0], parts[1], v as u32, t as u64)),
            _ => None,
        }
    }
}

/// The fields of a quote line, per [`quote_fields`].
pub struct QuoteFields {
    pub ticker: String,
    pub price: String,
    pub volume: u32,
    pub timestamp: u64,
}

/// Reads the unsigned number in `s[a..b)`, per [`unsigned_value`].
fn parse_unsigned(s: &[char], a: usize, b: usize, bound: u64) -> (r: Option<u64>)
    requires
        a <= b <= s@.len(),
    ensures
        match r {
            Some(v) => unsigned_value(s@.subrange(a as int, b as int), bound as nat) == Some(
                v as nat,
            ),
            None => unsigned_value(s@.subrange(a as int, b as int), bound as nat) is None,
        },
{
    let t = &s[a..b];
    let p: usize = if t.len() > 0 && t[0] == '+' {
        1
    } else {
        0
    };
    match parse_number(t, p, 10, None, true, bound) {
        Some((v, q)) => if q == t.len() {
            Some(v)
        } else {
            None
        },
        None => None,
    }
}

/// Reads a quote line, per [`quote_fields`].
pub fn split_quote_line(line: &str) -> (r: Option<QuoteFields>)
    ensures
        match r {
            None => quote_fields(line@) is None,
            Some(f) => quote_fields(line@) == Some((f.ticker@, f.price@, f.volume, f.timestamp)),
        },
{
    let chars = chars_of(line);
    let s = chars.as_slice();
    let ghost w = s@;
    let n = s.len();
    proof {
        lemma_find_char(w, 0, '|');
    }
    let j1 = find_separator(s, 0, '|');
    if j1 >= n {
        assert(split(w, '|') =~= seq![w.subrange(0, n as int)]);
        return None;
    }
    proof {
        lemma_find_char(w, j1 + 1, '|');
    }
    let j2 = find_separator(s, j1 + 1, '|');
    assert(split(w, '|') =~= seq![w.subrange(0, j1 as int)] + split_from(w, j1 + 1, '|'));
    if j2 >= n {
        assert(split_from(w, j1 + 1, '|') =~= seq![w.subrange(j1 + 1, n as int)]);
        assert(split(w, '|').len() == 2);
        return None;
    }
    proof {
        lemma_find_char(w, j2 + 1, '|');
    }
    let j3 = find_separator(s, j2 + 1, '|');
    assert(split_from(w, j1 + 1, '|') =~= seq![w.subrange(j1 + 1, j2 as int)] + split_from(
        w,
        j2 + 1,
        '|',
    ));
    if j3 >= n {
        assert(split_from(w, j2 + 1, '|') =~= seq![w.subrange(j2 + 1, n as int)]);
        assert(split(w, '|').len() == 3);
        return None;
    }
    proof {
        lemma_find_char(w, j3 + 1, '|');
    }
    let j4 = find_separator(s, j3 + 1, '|');
    assert(split_from(w, j2 + 1, '|') =~= seq![w.subrange(j2 + 1, j3 as int)] + split_from(
        w,
        j3 + 1,
        '|',
    ));
    let ghost parts = split(w, '|');
    if j4 < n {
        proof {
            crate::text::lemma_split_nonempty(w, j4 + 1, '|');
            assert(split_from(w, j3 + 1, '|') =~= seq![w.subrange(j3 + 1, j4 as int)]
                + split_from(w, j4 + 1, '|'));
        }
        assert(parts.len() >= 5);
        return None;
    }
    assert(split_from(w, j3 + 1, '|') =~= seq![w.subrange(j3 + 1, n as int)]);
    assert(parts =~= seq![
        w.subrange(0, j1 as int),
        w.subrange(j1 + 1, j2 as int),
        w.subrange(j2 + 1, j3 as int),
        w.subrange(j3 + 1, n as int),
    ]);
    let volume = match parse_unsigned(s, j2 + 1, j3, u32::MAX as u64) {
        Some(v) => v as u32,
        None => return None,
    };
    let timestamp = match parse_unsigned(s, j3 + 1, n, u64::MAX) {
        Some(v) => v,
        None => return None,
    };
    Some(
        QuoteFields {
            ticker: string_from(s, 0, j1),
            price: string_from(s, j1 + 1, j2),
            volume,
            timestamp,
        },
    )
}

/// A decimal numeral, as the whole text, reads back as an unsigned number.
pub proof fn lemma_unsigned_decimal(n: nat, bound: nat)
    requires
        n <= bound,
    ensures
        unsigned_value(decimal(n), bound) == Some(n),
{
    let d = decimal(n);
    crate::text::lemma_decimal_digits(n);
    assert(d[0] != '+');
    assert(d.subrange(0, d.len() as int) =~= d);
    crate::readback::lemma_read_numeral(d, 0, n, 10, None, true, bound);
}

/// Law: a quote line reads back as the fields it was written from, when
/// neither the ticker nor the price text holds `|`.
pub proof fn lemma_quote_line_round_trip(
    ticker: Seq<char>,
    price: Seq<char>,
    volume: u32,
    timestamp: u64,
)
    requires
        forall|k: int| 0 <= k < ticker.len() ==> #[trigger] ticker[k] != '|',
        forall|k: int| 0 <= k < price.len() ==> #[trigger] price[k] != '|',
    ensures
        quote_fields(quote_text(ticker, price, volume, timestamp)) == Some(
            (ticker, price, volume, timestamp),
        ),
{
    let dv = decimal(volume as nat);
    let dt = decimal(timestamp as nat);
    crate::text::lemma_decimal_digits(volume as nat);
    crate::text::lemma_decimal_digits(timestamp as nat);
    let s = quote_text(ticker, price, volume, timestamp);
    let x1 = ticker;
    let x2 = ticker + seq!['|'] + price;
    let x3 = x2 + seq!['|'] + dv;
    assert(s =~= x1 + seq!['|'] + (price + seq!['|'] + dv + seq!['|'] + dt));
    assert(s =~= x2 + seq!['|'] + (dv + seq!['|'] + dt));
    assert(s =~= x3 + seq!['|'] + dt);
    crate::text::lemma_split_prefix(x1, price + seq!['|'] + dv + seq!['|'] + dt, '|', 0);
    crate::text::lemma_split_no_sep(x1, 0, '|');
    assert(x1.subrange(0, x1.len() as int) =~= ticker);
    crate::text::lemma_split_prefix(x2, dv + seq!['|'] + dt, '|', x1.len() + 1int);
    assert forall|k: int| x1.len() + 1 <= k < x2.len() implies #[trigger] x2[k] != '|' by {
        assert(x2[k] == price[k - x1.len() - 1]);
    }
    crate::text::lemma_split_no_sep(x2, x1.len() + 1int, '|');
    assert(x2.subrange(x1.len() + 1int, x2.len() as int) =~= price);
    crate::text::lemma_split_prefix(x3, dt, '|', x2.len() + 1int);
    assert forall|k: int| x2.len() + 1 <= k < x3.len() implies #[trigger] x3[k] != '|' by {
        assert(x3[k] == dv[k - x2.len() - 1]);
    }
    crate::text::lemma_split_no_sep(x3, x2.len() + 1int, '|');
    assert(x3.subrange(x2.len() + 1int, x3.len() as int) =~= dv);
    assert forall|k: int| x3.len() + 1 <= k < s.len() implies #[trigger] s[k] != '|' by {
        assert(s[k] == dt[k - x3.len() - 1]);
    }
    crate::text::lemma_split_no_sep(s, x3.len() + 1int, '|');
    assert(s.subrange(x3.len() + 1int, s.len() as int) =~= dt);
    assert(split(s, '|') =~= seq![ticker, price, dv, dt]);
    lemma_unsigned_decimal(volume as nat, u32::MAX as nat);
    lemma_unsigned_decimal(timestamp as nat, u64::MAX as nat);
}

} // verus!
