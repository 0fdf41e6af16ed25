//! Character-level text handling: whitespace, trimming, whitespace-separated
//! words, splitting at a separator, and decimal numerals.
//!
//! Everything here works on sequences of `char`, the view Verus gives to `str`
//! and `String`. Positions are character positions, not byte offsets.
use vstd::prelude::*;

verus! {

/// The characters of `s`, in order.
pub fn chars_of(s: &str) -> (v: Vec<char>)
    ensures
        v@ == s@,
{
    let mut v: Vec<char> = Vec::new();
    for c in it: s.chars()
        invariant
            v@ == it.seq().take(it.index() as int),
    {
        v.push(c);
    }
    v
}

// ---------------------------------------------------------------------------
// Whitespace
// ---------------------------------------------------------------------------
/// The characters with the Unicode `White_Space` property, which is what
/// `char::is_whitespace` tests.
pub open spec fn is_space(c: char) -> bool {
    ||| ('\t' <= c && c <= '\r')
    ||| c == ' '
    ||| c == '\u{85}'
    ||| c == '\u{a0}'
    ||| c == '\u{1680}'
    ||| ('\u{2000}' <= c && c <= '\u{200a}')
    ||| c == '\u{2028}'
    ||| c == '\u{2029}'
    ||| c == '\u{202f}'
    ||| c == '\u{205f}'
    ||| c == '\u{3000}'
}

/// Executable form of [`is_space`].
pub fn is_whitespace(c: char) -> (b: bool)
    ensures
        b == is_space(c),
{
    ('\t' <= c && c <= '\r') || c == ' ' || c == '\u{85}' || c == '\u{a0}' || c == '\u{1680}' || (
    '\u{2000}' <= c && c <= '\u{200a}') || c == '\u{2028}' || c == '\u{2029}' || c == '\u{202f}'
        || c == '\u{205f}' || c == '\u{3000}'
}

/// First position at or after `i` that does not hold whitespace
/// (`s.len()` when there is none).
pub open spec fn skip_space(s: Seq<char>, i: int) -> int
    decreases s.len() - i,
{
    if 0 <= i < s.len() && is_space(s[i]) {
        skip_space(s, i + 1)
    } else {
        i
    }
}

/// First position at or after `i` that holds whitespace (`s.len()` when
/// there is none).
pub open spec fn word_end(s: Seq<char>, i: int) -> int
    decreases s.len() - i,
{
    if 0 <= i < s.len() && !is_space(s[i]) {
        word_end(s, i + 1)
    } else {
        i
    }
}

/// Going down from `j`, the position just after the last character in
/// `[lo, j)` that is not whitespace (`lo` when there is none).
pub open spec fn back_space(s: Seq<char>, lo: int, j: int) -> int
    decreases j - lo,
{
    if lo < j && is_space(s[j - 1]) {
        back_space(s, lo, j - 1)
    } else {
        j
    }
}

/// Where `str::trim` cuts: the range left once leading and trailing
/// whitespace are removed.
pub open spec fn trim_start(s: Seq<char>) -> int {
    skip_space(s, 0)
}

pub open spec fn trim_end(s: Seq<char>) -> int {
    back_space(s, skip_space(s, 0), s.len() as int)
}

/// `s` without its leading and trailing whitespace, as `str::trim` gives it.
pub open spec fn trim(s: Seq<char>) -> Seq<char> {
    s.subrange(trim_start(s), trim_end(s))
}

pub proof fn lemma_skip_space(s: Seq<char>, i: int)
    requires
        0 <= i <= s.len(),
    ensures
        i <= skip_space(s, i) <= s.len(),
        forall|k: int| i <= k < skip_space(s, i) ==> is_space(#[trigger] s[k]),
        skip_space(s, i) < s.len() ==> !is_space(s[skip_space(s, i)]),
    decreases s.len() - i,
{
    if i < s.len() && is_space(s[i]) {
        lemma_skip_space(s, i + 1);
    }
}

pub proof fn lemma_word_end(s: Seq<char>, i: int)
    requires
        0 <= i <= s.len(),
    ensures
        i <= word_end(s, i) <= s.len(),
        forall|k: int| i <= k < word_end(s, i) ==> !is_space(#[trigger] s[k]),
        word_end(s, i) < s.len() ==> is_space(s[word_end(s, i)]),
    decreases s.len() - i,
{
    if i < s.len() && !is_space(s[i]) {
        lemma_word_end(s, i + 1);
    }
}

/// Executable [`skip_space`].
pub fn skip_whitespace(s: &[char], i: usize) -> (r: usize)
    requires
        i <= s@.len(),
    ensures
        r == skip_space(s@, i as int),
{
    let mut k = i;
    while k < s.len() && is_whitespace(s[k])
        invariant
            i <= k <= s@.len(),
            skip_space(s@, i as int) == skip_space(s@, k as int),
        decreases s@.len() - k,
    {
        k = k + 1;
    }
    k
}

/// Executable [`word_end`].
pub fn find_word_end(s: &[char], i: usize) -> (r: usize)
    requires
        i <= s@.len(),
    ensures
        r == word_end(s@, i as int),
{
    let mut k = i;
    while k < s.len() && !is_whitespace(s[k])
        invariant
            i <= k <= s@.len(),
            word_end(s@, i as int) == word_end(s@, k as int),
        decreases s@.len() - k,
    {
        k = k + 1;
    }
    k
}

/// The range `[trim_start, trim_end)` of `s`.
pub fn trim_bounds(s: &[char]) -> (r: (usize, usize))
    ensures
        r.0 == trim_start(s@),
        r.1 == trim_end(s@),
        r.0 <= r.1 <= s@.len(),
{
    let a = skip_whitespace(s, 0);
    proof {
        lemma_skip_space(s@, 0);
    }
    let mut j = s.len();
    while j > a && is_whitespace(s[j - 1])
        invariant
            a <= j <= s@.len(),
            a == skip_space(s@, 0),
            back_space(s@, a as int, s@.len() as int) == back_space(s@, a as int, j as int),
        decreases j,
    {
        j = j - 1;
    }
    (a, j)
}

// ---------------------------------------------------------------------------
// Whitespace-separated words (`str::split_whitespace`)
// ---------------------------------------------------------------------------
/// The range of the `k`-th whitespace-separated word of `s` found from
/// position `i` on, as `split_whitespace().nth(k)` finds it; `None` when
/// there are not that many words.
pub open spec fn word_from(s: Seq<char>, i: int, k: nat) -> Option<(int, int)>
    decreases s.len() - i, k,
{
    let a = skip_space(s, i);
    if !(0 <= i <= s.len()) || a >= s.len() {
        None
    } else {
        let b = word_end(s, a);
        if k == 0 {
            Some((a, b))
        } else if i < b <= s.len() {
            word_from(s, b, (k - 1) as nat)
        } else {
            None
        }
    }
}

/// The `k`-th whitespace-separated word of `s`.
pub open spec fn nth_word(s: Seq<char>, k: nat) -> Option<Seq<char>> {
    match word_from(s, 0, k) {
        Some((a, b)) => Some(s.subrange(a, b)),
        None => None,
    }
}

pub proof fn lemma_word_from(s: Seq<char>, i: int, k: nat)
    requires
        0 <= i <= s.len(),
    ensures
        word_from(s, i, k) matches Some((a, b)) ==> i <= a < b <= s.len() && a == skip_space(
            s,
            a,
        ) && b == word_end(s, a),
    decreases s.len() - i, k,
{
    lemma_skip_space(s, i);
    let a = skip_space(s, i);
    if a < s.len() {
        lemma_word_end(s, a);
        lemma_skip_space(s, a);
        let b = word_end(s, a);
        if k > 0 {
            lemma_word_from(s, b, (k - 1) as nat);
        }
    }
}

/// Executable [`word_from`].
pub fn find_word(s: &[char], i: usize, k: usize) -> (r: Option<(usize, usize)>)
    requires
        i <= s@.len(),
    ensures
        match r {
            Some((a, b)) => word_from(s@, i as int, k as nat) == Some((a as int, b as int)),
            None => word_from(s@, i as int, k as nat) is None,
        },
    decreases k,
{
    let a = skip_whitespace(s, i);
    proof {
        lemma_skip_space(s@, i as int);
    }
    if a >= s.len() {
        return None;
    }
    let b = find_word_end(s, a);
    proof {
        lemma_word_end(s@, a as int);
    }
    if k == 0 {
        Some((a, b))
    } else {
        find_word(s, b, k - 1)
    }
}

// ---------------------------------------------------------------------------
// Splitting at a separator (`str::split` with a `char` pattern)
// ---------------------------------------------------------------------------
/// First position at or after `i` that holds `sep` (`s.len()` when none).
pub open spec fn find_char(s: Seq<char>, i: int, sep: char) -> int
    decreases s.len() - i,
{
    if 0 <= i < s.len() && s[i] != sep {
        find_char(s, i + 1, sep)
    } else {
        i
    }
}

pub proof fn lemma_find_char(s: Seq<char>, i: int, sep: char)
    requires
        0 <= i <= s.len(),
    ensures
        i <= find_char(s, i, sep) <= s.len(),
        forall|k: int| i <= k < find_char(s, i, sep) ==> #[trigger] s[k] != sep,
        find_char(s, i, sep) < s.len() ==> s[find_char(s, i, sep)] == sep,
    decreases s.len() - i,
{
    if i < s.len() && s[i] != sep {
        lemma_find_char(s, i + 1, sep);
    }
}

/// The pieces of `s[i..]` between occurrences of `sep`, as `str::split`
/// yields them: there is always at least one piece, and pieces may be empty.
pub open spec fn split_from(s: Seq<char>, i: int, sep: char) -> Seq<Seq<char>>
    decreases s.len() - i,
{
    let j = find_char(s, i, sep);
    if !(0 <= i <= s.len()) || j >= s.len() || j < i {
        seq![s.subrange(i, s.len() as int)]
    } else {
        seq![s.subrange(i, j)].add(split_from(s, j + 1, sep))
    }
}

/// The pieces of `s` between occurrences of `sep`.
pub open spec fn split(s: Seq<char>, sep: char) -> Seq<Seq<char>> {
    split_from(s, 0, sep)
}

pub proof fn lemma_split_nonempty(s: Seq<char>, i: int, sep: char)
    ensures
        split_from(s, i, sep).len() >= 1,
    decreases s.len() - i,
{
    let j = find_char(s, i, sep);
    if 0 <= i <= s.len() && i <= j < s.len() {
        lemma_split_nonempty(s, j + 1, sep);
    }
}

/// Executable [`find_char`].
pub fn find_separator(s: &[char], i: usize, sep: char) -> (r: usize)
    requires
        i <= s@.len(),
    ensures
        r == find_char(s@, i as int, sep),
{
    let mut k = i;
    while k < s.len() && s[k] != sep
        invariant
            i <= k <= s@.len(),
            find_char(s@, i as int, sep) == find_char(s@, k as int, sep),
        decreases s@.len() - k,
    {
        k = k + 1;
    }
    k
}

/// Where a run of non-whitespace stops.
pub proof fn lemma_word_end_at(s: Seq<char>, a: int, b: int)
    requires
        0 <= a <= b <= s.len(),
        forall|k: int| a <= k < b ==> !is_space(#[trigger] s[k]),
        b == s.len() || is_space(s[b]),
    ensures
        word_end(s, a) == b,
    decreases b - a,
{
    if a < b {
        lemma_word_end_at(s, a + 1, b);
    }
}

/// Text without whitespace is its own trim.
pub proof fn lemma_trim_no_space(t: Seq<char>)
    requires
        forall|k: int| 0 <= k < t.len() ==> !is_space(#[trigger] t[k]),
    ensures
        trim(t) == t,
{
    if t.len() > 0 {
        assert(!is_space(t[0]));
        assert(!is_space(t[t.len() - 1]));
    }
    assert(t.subrange(0, t.len() as int) =~= t);
}

/// In `x + [sep] + y`, the first occurrence of `sep` from a position in `x`
/// is the one in `x`, if any, else the one after `x`.
pub proof fn lemma_find_char_prefix(x: Seq<char>, y: Seq<char>, sep: char, i: int)
    requires
        0 <= i <= x.len(),
    ensures
        find_char(x + seq![sep] + y, i, sep) == find_char(x, i, sep),
    decreases x.len() - i,
{
    let s = x + seq![sep] + y;
    if i < x.len() {
        assert(s[i] == x[i]);
        if x[i] != sep {
            lemma_find_char_prefix(x, y, sep, i + 1);
        }
    } else {
        assert(s[i] == sep);
    }
}

/// Splitting `x + [sep] + y` from a position in `x`: the pieces of `x` from
/// there, then the pieces after the separator.
pub proof fn lemma_split_prefix(x: Seq<char>, y: Seq<char>, sep: char, i: int)
    requires
        0 <= i <= x.len(),
    ensures
        split_from(x + seq![sep] + y, i, sep) == split_from(x, i, sep) + split_from(
            x + seq![sep] + y,
            x.len() + 1int,
            sep,
        ),
    decreases x.len() - i,
{
    let s = x + seq![sep] + y;
    lemma_find_char_prefix(x, y, sep, i);
    lemma_find_char(x, i, sep);
    let j = find_char(x, i, sep);
    if j < x.len() {
        lemma_split_prefix(x, y, sep, j + 1);
        assert(s.subrange(i, j) =~= x.subrange(i, j));
        assert(split_from(x, i, sep) == seq![x.subrange(i, j)] + split_from(x, j + 1, sep));
        assert(split_from(s, i, sep) == seq![s.subrange(i, j)] + split_from(s, j + 1, sep));
    } else {
        assert(s.subrange(i, j) =~= x.subrange(i, x.len() as int));
    }
}

/// Text without `sep` is a single piece, from any position in it.
pub proof fn lemma_split_no_sep(s: Seq<char>, i: int, sep: char)
    requires
        0 <= i <= s.len(),
        forall|k: int| i <= k < s.len() ==> #[trigger] s[k] != sep,
    ensures
        split_from(s, i, sep) == seq![s.subrange(i, s.len() as int)],
    decreases s.len() - i,
{
    lemma_find_char(s, i, sep);
}

// ---------------------------------------------------------------------------
// Numerals

// ---------------------------------------------------------------------------
/// The digit for `d`: `0`-`9`, then lower-case `a`-`z`.
pub open spec fn digit_char(d: nat) -> char {
    if d < 10 {
        (d + 48) as char
    } else {
        (d + 87) as char
    }
}

/// The numeral of `n` in base `radix` (2 to 36), without sign or leading
/// zeros and with lower-case letters, as `{}` and `{:x}` format an unsigned
/// integer.
pub open spec fn numeral(n: nat, radix: nat) -> Seq<char>
    decreases n,
{
    if n < radix || radix < 2 {
        seq![digit_char(n)]
    } else {
        proof {
            assert(n / radix < n) by (nonlinear_arith)
                requires
                    radix >= 2,
                    n >= radix,
            ;
        }
        numeral(n / radix, radix).push(digit_char(n % radix))
    }
}

/// The decimal numeral of `n`.
pub open spec fn decimal(n: nat) -> Seq<char> {
    numeral(n, 10)
}

pub proof fn lemma_decimal_digits(n: nat)
    ensures
        decimal(n).len() >= 1,
        forall|k: int| 0 <= k < decimal(n).len() ==> '0' <= #[trigger] decimal(n)[k] <= '9',
        n > 0 ==> decimal(n)[0] != '0',
        n == 0 ==> decimal(n) == seq!['0'],
    decreases n,
{
    if n >= 10 {
        lemma_decimal_digits(n / 10);
        assert forall|k: int| 0 <= k < decimal(n).len() implies '0' <= #[trigger] decimal(n)[k]
            <= '9' by {
            if k < decimal(n / 10).len() {
                assert(decimal(n)[k] == decimal(n / 10)[k]);
            }
        }
    }
}

/// `String::push`: the string afterwards holds its characters before and then
/// `c`.
#[verifier::external_body]
pub(crate) fn push_char(s: &mut String, c: char)
    ensures
        final(s)@ == old(s)@.push(c),
{
    s.push(c);
}

/// Executable [`digit_char`].
pub fn digit_to_char(d: u64) -> (c: char)
    requires
        d < 36,
    ensures
        c == digit_char(d as nat),
{
    if d < 10 {
        (d as u8 + 48) as char
    } else {
        (d as u8 + 87) as char
    }
}

/// The numeral of `n` in base `radix`.
pub fn numeral_text(n: u64, radix: u64) -> (r: String)
    requires
        2 <= radix <= 36,
    ensures
        r@ == numeral(n as nat, radix as nat),
{
    // Collect the digits, least significant first.
    let mut digits: Vec<char> = Vec::new();
    let mut m: u64 = n;
    while m >= radix
        invariant
            m <= n,
            2 <= radix <= 36,
            numeral(n as nat, radix as nat) == numeral(m as nat, radix as nat) + digits@.reverse(),
        decreases m,
    {
        let c = digit_to_char(m % radix);
        let ghost old_digits = digits@;
        digits.push(c);
        assert(numeral(m as nat, radix as nat) == numeral((m / radix) as nat, radix as nat).push(
            c,
        ));
        assert(digits@.reverse() =~= seq![c] + old_digits.reverse());
        m = m / radix;
    }
    let c = digit_to_char(m);
    let ghost old_digits = digits@;
    digits.push(c);
    assert(numeral(m as nat, radix as nat) == seq![c]);
    assert(digits@.reverse() =~= seq![c] + old_digits.reverse());
    assert(numeral(n as nat, radix as nat) == digits@.reverse());
    let mut r = String::new();
    let mut i = digits.len();
    while i > 0
        invariant
            i <= digits@.len(),
            r@ =~= digits@.reverse().take(digits@.len() - i),
        decreases i,
    {
        i = i - 1;
        push_char(&mut r, digits[i]);
    }
    assert(r@ =~= digits@.reverse());
    r
}

/// The decimal numeral of `n`.
pub fn decimal_text(n: u64) -> (r: String)
    ensures
        r@ == decimal(n as nat),
{
    numeral_text(n, 10)
}

} // verus!
