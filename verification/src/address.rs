//! Socket addresses: the `<ip>:<port>` text that a `STREAM` command carries.
//!
//! The accepted text is that of Rust's `SocketAddr` parser: either an IPv4
//! address in dotted decimal followed by `:port`, or a bracketed IPv6 address
//! (with `::` compression, an optional trailing dotted IPv4 part, and an
//! optional `%scope` suffix) followed by `:port`. The grammar is stated below
//! as spec functions over the characters of the text, position by position;
//! the executable parser is proved to compute exactly what they say.
use vstd::prelude::*;

use vstd::string::*;

use crate::text::chars_of;
use crate::text::decimal;
use crate::text::decimal_text;
use crate::text::numeral;
use crate::text::numeral_text;
use crate::text::push_char;

verus! {

/// An IPv4 address by its four octets, most significant first.
#[derive(Clone, Copy, Debug, PartialEq, Eq, Structural)]
pub struct Ipv4Address {
    pub a: u8,
    pub b: u8,
    pub c: u8,
    pub d: u8,
}

/// An IPv6 address by its eight 16-bit segments, most significant first.
#[derive(Clone, Copy, Debug, PartialEq, Eq, Structural)]
pub struct Ipv6Address {
    pub s0: u16,
    pub s1: u16,
    pub s2: u16,
    pub s3: u16,
    pub s4: u16,
    pub s5: u16,
    pub s6: u16,
    pub s7: u16,
}

/// A UDP endpoint: an IP address and a port (for IPv6 also the flow label
/// and the scope id, as `SocketAddrV6` carries them).
#[derive(Clone, Copy, Debug, PartialEq, Eq, Structural)]
pub enum SocketAddress {
    V4 { ip: Ipv4Address, port: u16 },
    V6 { ip: Ipv6Address, port: u16, flowinfo: u32, scope_id: u32 },
}

impl Ipv6Address {
    /// The segments as a sequence.
    pub open spec fn segments(self) -> Seq<u16> {
        seq![self.s0, self.s1, self.s2, self.s3, self.s4, self.s5, self.s6, self.s7]
    }
}

/// The IPv6 address with the given eight segments.
pub open spec fn ipv6_from(g: Seq<u16>) -> Ipv6Address {
    Ipv6Address { s0: g[0], s1: g[1], s2: g[2], s3: g[3], s4: g[4], s5: g[5], s6: g[6], s7: g[7] }
}

// ---------------------------------------------------------------------------
// Numbers
// ---------------------------------------------------------------------------
/// The value of `c` as a digit in base `radix`, as `char::to_digit` gives it
/// (for a radix from 2 to 36).
pub open spec fn digit_value(c: char, radix: nat) -> Option<nat> {
    if '0' <= c <= '9' {
        if (c as int) - 48 < radix {
            Some(((c as int) - 48) as nat)
        } else {
            None
        }
    } else if 'a' <= c <= 'z' {
        if (c as int) - 87 < radix {
            Some(((c as int) - 87) as nat)
        } else {
            None
        }
    } else if 'A' <= c <= 'Z' {
        if (c as int) - 55 < radix {
            Some(((c as int) - 55) as nat)
        } else {
            None
        }
    } else {
        None
    }
}

/// First position at or after `p` that does not hold a digit of `radix`.
pub open spec fn digits_end(s: Seq<char>, p: int, radix: nat) -> int
    decreases s.len() - p,
{
    if 0 <= p < s.len() && digit_value(s[p], radix) is Some {
        digits_end(s, p + 1, radix)
    } else {
        p
    }
}

/// The value of the digits `s[p..q)` read in base `radix`.
pub open spec fn digits_value(s: Seq<char>, p: int, q: int, radix: nat) -> nat
    decreases q - p,
{
    if q <= p {
        0
    } else {
        digits_value(s, p, q - 1, radix) * radix + digit_value(s[q - 1], radix).unwrap()
    }
}

/// Reads a number at `p`: all the digits there are, at least one, at most
/// `max_digits` of them when that is given, a value no greater than `bound`,
/// and no leading zero unless `zero_prefix_ok` or the number is a single
/// digit. Gives the value and the position after the digits.
pub open spec fn read_number(
    s: Seq<char>,
    p: int,
    radix: nat,
    max_digits: Option<nat>,
    zero_prefix_ok: bool,
    bound: nat,
) -> Option<(nat, int)> {
    let q = digits_end(s, p, radix);
    let v = digits_value(s, p, q, radix);
    if !(0 <= p) || q <= p || (max_digits matches Some(m) && q - p > m) || v > bound || (
    !zero_prefix_ok && s[p] == '0' && q - p > 1) {
        None
    } else {
        Some((v, q))
    }
}

/// Reads a number at `p`, first a `sep` character unless this is the first
/// item of a list.
pub open spec fn read_separated_number(
    s: Seq<char>,
    p: int,
    sep: char,
    first: bool,
    radix: nat,
    max_digits: Option<nat>,
    zero_prefix_ok: bool,
    bound: nat,
) -> Option<(nat, int)> {
    if first {
        read_number(s, p, radix, max_digits, zero_prefix_ok, bound)
    } else if 0 <= p < s.len() && s[p] == sep {
        read_number(s, p + 1, radix, max_digits, zero_prefix_ok, bound)
    } else {
        None
    }
}

pub proof fn lemma_digits_end(s: Seq<char>, p: int, radix: nat)
    requires
        0 <= p <= s.len(),
    ensures
        p <= digits_end(s, p, radix) <= s.len(),
        forall|k: int|
            p <= k < digits_end(s, p, radix) ==> digit_value(#[trigger] s[k], radix) is Some,
        digits_end(s, p, radix) < s.len() ==> digit_value(s[digits_end(s, p, radix)], radix) is None,
    decreases s.len() - p,
{
    if p < s.len() && digit_value(s[p], radix) is Some {
        lemma_digits_end(s, p + 1, radix);
    }
}

/// Reading more digits never lowers the value.
pub proof fn lemma_digits_value_monotone(s: Seq<char>, p: int, q1: int, q2: int, radix: nat)
    requires
        p <= q1 <= q2,
        radix >= 1,
    ensures
        digits_value(s, p, q1, radix) <= digits_value(s, p, q2, radix),
    decreases q2 - q1,
{
    if q1 < q2 {
        lemma_digits_value_monotone(s, p, q1, q2 - 1, radix);
        let v = digits_value(s, p, q2 - 1, radix);
        assert(v * radix >= v) by (nonlinear_arith)
            requires
                radix >= 1,
        ;
    }
}

/// Executable [`digit_value`].
pub fn digit_of(c: char, radix: u32) -> (r: Option<u32>)
    requires
        2 <= radix <= 36,
    ensures
        match r {
            Some(d) => digit_value(c, radix as nat) == Some(d as nat) && d < radix,
            None => digit_value(c, radix as nat) is None,
        },
{
    let v = c as u32;
    if '0' <= c && c <= '9' {
        if v - 48 < radix {
            Some(v - 48)
        } else {
            None
        }
    } else if 'a' <= c && c <= 'z' {
        if v - 87 < radix {
            Some(v - 87)
        } else {
            None
        }
    } else if 'A' <= c && c <= 'Z' {
        if v - 55 < radix {
            Some(v - 55)
        } else {
            None
        }
    } else {
        None
    }
}

/// A bound on the digit count as the spec functions take it.
pub open spec fn nat_opt(m: Option<usize>) -> Option<nat> {
    match m {
        Some(m) => Some(m as nat),
        None => None,
    }
}

/// A parsed number and the position after it, as the spec functions give it.
pub open spec fn number_view(r: Option<(u64, usize)>) -> Option<(nat, int)> {
    match r {
        Some((v, q)) => Some((v as nat, q as int)),
        None => None,
    }
}

/// Executable [`read_number`].
pub fn parse_number(
    s: &[char],
    p: usize,
    radix: u32,
    max_digits: Option<usize>,
    zero_prefix_ok: bool,
    bound: u64,
) -> (r: Option<(u64, usize)>)
    requires
        p <= s@.len(),
        2 <= radix <= 36,
    ensures
        number_view(r) == read_number(
            s@,
            p as int,
            radix as nat,
            nat_opt(max_digits),
            zero_prefix_ok,
            bound as nat,
        ),
        r matches Some((v, q)) ==> p < q <= s@.len() && v <= bound,
{
    let ghost sv = s@;
    let ghost rad = radix as nat;
    let ghost end = digits_end(sv, p as int, rad);
    proof {
        lemma_digits_end(sv, p as int, rad);
    }
    let mut q = p;
    let mut v: u128 = 0;
    while q < s.len() && digit_of(s[q], radix).is_some()
        invariant
            p <= q <= end <= sv.len(),
            sv == s@,
            rad == radix as nat,
            2 <= radix <= 36,
            end == digits_end(sv, p as int, rad),
            forall|k: int| p <= k < end ==> digit_value(#[trigger] sv[k], rad) is Some,
            end < sv.len() ==> digit_value(sv[end], rad) is None,
            v as nat == digits_value(sv, p as int, q as int, rad),
            v <= bound,
            max_digits matches Some(m) ==> q - p <= m,
        decreases sv.len() - q,
    {
        let d = digit_of(s[q], radix).unwrap();
        assert(digits_value(sv, p as int, q + 1, rad) == digits_value(sv, p as int, q as int, rad)
            * rad + d as nat);
        assert(v * (radix as u128) <= u64::MAX as u128 * 36) by (nonlinear_arith)
            requires
                v <= u64::MAX,
                radix <= 36,
        ;
        v = v * (radix as u128) + (d as u128);
        q = q + 1;
        if v > bound as u128 {
            proof {
                lemma_digits_value_monotone(sv, p as int, q as int, end, rad);
            }
            return None;
        }
        match max_digits {
            Some(m) => {
                if q - p > m {
                    return None;
                }
            },
            None => {},
        }
    }
    if q == p {
        return None;
    }
    if !zero_prefix_ok && s[p] == '0' && q - p > 1 {
        return None;
    }
    Some((v as u64, q))
}

/// Executable [`read_separated_number`].
pub fn parse_separated_number(
    s: &[char],
    p: usize,
    sep: char,
    first: bool,
    radix: u32,
    max_digits: Option<usize>,
    zero_prefix_ok: bool,
    bound: u64,
) -> (r: Option<(u64, usize)>)
    requires
        p <= s@.len(),
        2 <= radix <= 36,
    ensures
        number_view(r) == read_separated_number(
            s@,
            p as int,
            sep,
            first,
            radix as nat,
            nat_opt(max_digits),
            zero_prefix_ok,
            bound as nat,
        ),
        r matches Some((v, q)) ==> p < q <= s@.len() && v <= bound,
{
    if first {
        parse_number(s, p, radix, max_digits, zero_prefix_ok, bound)
    } else if p < s.len() && s[p] == sep {
        parse_number(s, p + 1, radix, max_digits, zero_prefix_ok, bound)
    } else {
        None
    }
}

// ---------------------------------------------------------------------------
// IPv4
// ---------------------------------------------------------------------------
/// One octet of a dotted IPv4 address: up to three decimal digits, at most
/// 255, no leading zero.
pub open spec fn read_octet(s: Seq<char>, p: int, first: bool) -> Option<(nat, int)> {
    read_separated_number(s, p, '.', first, 10, Some(3), false, 255)
}

/// An IPv4 address in dotted decimal at `p`, and the position after it.
pub open spec fn read_ipv4(s: Seq<char>, p: int) -> Option<(Ipv4Address, int)> {
    match read_octet(s, p, true) {
        Some((a, p1)) => match read_octet(s, p1, false) {
            Some((b, p2)) => match read_octet(s, p2, false) {
                Some((c, p3)) => match read_octet(s, p3, false) {
                    Some((d, p4)) => Some(
                        (Ipv4Address { a: a as u8, b: b as u8, c: c as u8, d: d as u8 }, p4),
                    ),
                    None => None,
                },
                None => None,
            },
            None => None,
        },
        None => None,
    }
}

/// Executable [`read_ipv4`].
pub fn parse_ipv4(s: &[char], p: usize) -> (r: Option<(Ipv4Address, usize)>)
    requires
        p <= s@.len(),
    ensures
        match r {
            Some((a, q)) => read_ipv4(s@, p as int) == Some((a, q as int)),
            None => read_ipv4(s@, p as int) is None,
        },
        r matches Some((a, q)) ==> p < q <= s@.len(),
{
    let (a, p1) = match parse_separated_number(s, p, '.', true, 10, Some(3), false, 255) {
        Some(x) => x,
        None => return None,
    };
    let (b, p2) = match parse_separated_number(s, p1, '.', false, 10, Some(3), false, 255) {
        Some(x) => x,
        None => return None,
    };
    let (c, p3) = match parse_separated_number(s, p2, '.', false, 10, Some(3), false, 255) {
        Some(x) => x,
        None => return None,
    };
    let (d, p4) = match parse_separated_number(s, p3, '.', false, 10, Some(3), false, 255) {
        Some(x) => x,
        None => return None,
    };
    Some((Ipv4Address { a: a as u8, b: b as u8, c: c as u8, d: d as u8 }, p4))
}

// ---------------------------------------------------------------------------
// IPv6
// ---------------------------------------------------------------------------
/// An embedded IPv4 address at `p`, first a `:` unless it is the first item.
pub open spec fn read_separated_ipv4(s: Seq<char>, p: int, first: bool) -> Option<(Ipv4Address, int)> {
    if first {
        read_ipv4(s, p)
    } else if 0 <= p < s.len() && s[p] == ':' {
        read_ipv4(s, p + 1)
    } else {
        None
    }
}

/// One 16-bit group of an IPv6 address: one to four hexadecimal digits.
pub open spec fn read_group(s: Seq<char>, p: int, first: bool) -> Option<(nat, int)> {
    read_separated_number(s, p, ':', first, 16, Some(4), true, 0xffff)
}

/// The two segments that an embedded IPv4 address stands for.
pub open spec fn ipv4_segments(a: Ipv4Address) -> Seq<u16> {
    seq![(a.a as nat * 256 + a.b as nat) as u16, (a.c as nat * 256 + a.d as nat) as u16]
}

/// Reads colon-separated groups from `p`, the `i`-th on, until `limit`
/// groups are read or the next one cannot be read. While at least two
/// groups are still wanted, an embedded IPv4 address is tried first; it
/// stands for two groups and ends the run. Gives the groups, whether an
/// IPv4 address ended them, and the position after them.
pub open spec fn read_groups(s: Seq<char>, p: int, i: nat, limit: nat) -> (Seq<u16>, bool, int)
    decreases limit - i,
{
    if i >= limit {
        (seq![], false, p)
    } else {
        let v4 = if i + 1 < limit {
            read_separated_ipv4(s, p, i == 0)
        } else {
            None
        };
        match v4 {
            Some((a, q)) => (ipv4_segments(a), true, q),
            None => match read_group(s, p, i == 0) {
                None => (seq![], false, p),
                Some((g, q)) => {
                    let rest = read_groups(s, q, i + 1, limit);
                    (seq![g as u16] + rest.0, rest.1, rest.2)
                },
            },
        }
    }
}

/// An IPv6 address at `p`: eight groups, or fewer groups before and after a
/// `::` that stands for one or more zero groups. An embedded IPv4 address
/// may only end the address. Gives the segments and the position after.
pub open spec fn read_ipv6(s: Seq<char>, p: int) -> Option<(Seq<u16>, int)> {
    let head = read_groups(s, p, 0, 8);
    let h = head.0.len();
    if h == 8 {
        Some((head.0, head.2))
    } else if head.1 {
        None
    } else if !(0 <= head.2 && head.2 + 1 < s.len() && s[head.2] == ':' && s[head.2 + 1] == ':') {
        None
    } else {
        let tail = read_groups(s, head.2 + 2, 0, (7 - h) as nat);
        Some(
            (
                head.0 + Seq::new((8 - h - tail.0.len()) as nat, |k: int| 0u16) + tail.0,
                tail.2,
            ),
        )
    }
}

/// The groups read so far followed by what the rest of the run gives.
pub open spec fn after_groups(g: Seq<u16>, rest: (Seq<u16>, bool, int)) -> (Seq<u16>, bool, int) {
    (g + rest.0, rest.1, rest.2)
}

/// Executable [`read_separated_ipv4`].
pub fn parse_separated_ipv4(s: &[char], p: usize, first: bool) -> (r: Option<(Ipv4Address, usize)>)
    requires
        p <= s@.len(),
    ensures
        match r {
            Some((a, q)) => read_separated_ipv4(s@, p as int, first) == Some((a, q as int)),
            None => read_separated_ipv4(s@, p as int, first) is None,
        },
        r matches Some((a, q)) ==> p < q <= s@.len(),
{
    if first {
        parse_ipv4(s, p)
    } else if p < s.len() && s[p] == ':' {
        parse_ipv4(s, p + 1)
    } else {
        None
    }
}

/// Executable [`read_groups`], from the first group on.
pub fn parse_groups(s: &[char], p: usize, limit: usize) -> (r: (Vec<u16>, bool, usize))
    requires
        p <= s@.len(),
        limit <= 8,
    ensures
        (r.0@, r.1, r.2 as int) == read_groups(s@, p as int, 0, limit as nat),
        p <= r.2 <= s@.len(),
        r.0@.len() <= limit,
{
    let mut groups: Vec<u16> = Vec::new();
    let mut pos = p;
    let mut i: usize = 0;
    proof {
        assert(groups@ + read_groups(s@, p as int, 0, limit as nat).0 =~= read_groups(
            s@,
            p as int,
            0,
            limit as nat,
        ).0);
    }
    while i < limit
        invariant
            p <= pos <= s@.len(),
            i <= limit <= 8,
            groups@.len() == i,
            after_groups(groups@, read_groups(s@, pos as int, i as nat, limit as nat))
                == read_groups(s@, p as int, 0, limit as nat),
        decreases limit - i,
    {
        if i + 1 < limit {
            match parse_separated_ipv4(s, pos, i == 0) {
                Some((a, q)) => {
                    let hi = (a.a as u16) * 256 + (a.b as u16);
                    let lo = (a.c as u16) * 256 + (a.d as u16);
                    let ghost before = groups@;
                    groups.push(hi);
                    groups.push(lo);
                    assert(groups@ =~= before + ipv4_segments(a));
                    return (groups, true, q);
                },
                None => {},
            }
        }
        match parse_separated_number(s, pos, ':', i == 0, 16, Some(4), true, 0xffff) {
            None => {
                assert(groups@ + Seq::<u16>::empty() =~= groups@);
                return (groups, false, pos);
            },
            Some((g, q)) => {
                let ghost before = groups@;
                let ghost rest = read_groups(s@, q as int, (i + 1) as nat, limit as nat);
                groups.push(g as u16);
                assert(before + (seq![g as u16] + rest.0) =~= groups@ + rest.0);
                pos = q;
                i = i + 1;
            },
        }
    }
    assert(groups@ + Seq::<u16>::empty() =~= groups@);
    (groups, false, pos)
}

/// Executable [`read_ipv6`].
pub fn parse_ipv6(s: &[char], p: usize) -> (r: Option<(Vec<u16>, usize)>)
    requires
        p <= s@.len(),
    ensures
        match r {
            Some((g, q)) => read_ipv6(s@, p as int) == Some((g@, q as int)),
            None => read_ipv6(s@, p as int) is None,
        },
        r matches Some((g, q)) ==> p <= q <= s@.len() && g@.len() == 8,
{
    let (head, head_v4, ph) = parse_groups(s, p, 8);
    let h = head.len();
    if h == 8 {
        return Some((head, ph));
    }
    if head_v4 {
        return None;
    }
    if !(ph < s.len() && s[ph] == ':' && ph + 1 < s.len() && s[ph + 1] == ':') {
        return None;
    }
    let (tail, _, pt) = parse_groups(s, ph + 2, 7 - h);
    let mut all = head;
    let zeros = 8 - h - tail.len();
    let mut k: usize = 0;
    while k < zeros
        invariant
            k <= zeros,
            zeros == 8 - h - tail@.len(),
            all@ =~= head@ + Seq::new(k as nat, |j: int| 0u16),
            h == head@.len(),
        decreases zeros - k,
    {
        all.push(0u16);
        k = k + 1;
    }
    let mut t: usize = 0;
    while t < tail.len()
        invariant
            t <= tail@.len(),
            all@ =~= head@ + Seq::new(zeros as nat, |j: int| 0u16) + tail@.take(t as int),
        decreases tail@.len() - t,
    {
        all.push(tail[t]);
        t = t + 1;
    }
    assert(tail@.take(tail@.len() as int) =~= tail@);
    Some((all, pt))
}

// ---------------------------------------------------------------------------
// Socket addresses
// ---------------------------------------------------------------------------
/// A port: `:` then decimal digits (leading zeros allowed), at most 65535.
pub open spec fn read_port(s: Seq<char>, p: int) -> Option<(nat, int)> {
    if 0 <= p < s.len() && s[p] == ':' {
        read_number(s, p + 1, 10, None, true, 0xffff)
    } else {
        None
    }
}

/// An optional scope id: `%` then decimal digits, at most `u32::MAX`.
/// Without one the scope id is 0 and nothing is read.
pub open spec fn read_scope(s: Seq<char>, p: int) -> (nat, int) {
    if 0 <= p < s.len() && s[p] == '%' {
        match read_number(s, p + 1, 10, None, true, 0xffff_ffff) {
            Some((v, q)) => (v, q),
            None => (0, p),
        }
    } else {
        (0, p)
    }
}

/// `<ipv4>:<port>` at the start of `s`.
pub open spec fn read_socket_v4(s: Seq<char>) -> Option<(SocketAddress, int)> {
    match read_ipv4(s, 0) {
        Some((ip, p)) => match read_port(s, p) {
            Some((port, q)) => Some((SocketAddress::V4 { ip, port: port as u16 }, q)),
            None => None,
        },
        None => None,
    }
}

/// `[<ipv6>%<scope>]:<port>` at the start of `s`, the scope optional.
pub open spec fn read_socket_v6(s: Seq<char>) -> Option<(SocketAddress, int)> {
    if !(0 < s.len() && s[0] == '[') {
        None
    } else {
        match read_ipv6(s, 1) {
            None => None,
            Some((g, p1)) => {
                let (scope, p2) = read_scope(s, p1);
                if !(0 <= p2 < s.len() && s[p2] == ']') {
                    None
                } else {
                    match read_port(s, p2 + 1) {
                        Some((port, q)) => Some(
                            (
                                SocketAddress::V6 {
                                    ip: ipv6_from(g),
                                    port: port as u16,
                                    flowinfo: 0,
                                    scope_id: scope as u32,
                                },
                                q,
                            ),
                        ),
                        None => None,
                    }
                }
            },
        }
    }
}

/// The socket address that the whole of `s` spells, as `SocketAddr::from_str`
/// reads it: the IPv4 form is tried first, then the IPv6 form, and the text
/// must be used up.
pub open spec fn socket_address_of(s: Seq<char>) -> Option<SocketAddress> {
    match read_socket_v4(s) {
        Some((a, q)) => if q == s.len() {
            Some(a)
        } else {
            None
        },
        None => match read_socket_v6(s) {
            Some((a, q)) => if q == s.len() {
                Some(a)
            } else {
                None
            },
            None => None,
        },
    }
}

/// Executable [`read_port`].
pub fn parse_port(s: &[char], p: usize) -> (r: Option<(u16, usize)>)
    requires
        p <= s@.len(),
    ensures
        match r {
            Some((v, q)) => read_port(s@, p as int) == Some((v as nat, q as int)),
            None => read_port(s@, p as int) is None,
        },
        r matches Some((v, q)) ==> p < q <= s@.len(),
{
    if p < s.len() && s[p] == ':' {
        match parse_number(s, p + 1, 10, None, true, 0xffff) {
            Some((v, q)) => Some((v as u16, q)),
            None => None,
        }
    } else {
        None
    }
}

/// Parses a whole socket address, per [`socket_address_of`].
pub fn parse_socket_chars(s: &[char]) -> (r: Option<SocketAddress>)
    ensures
        r == socket_address_of(s@),
{
    match parse_ipv4(s, 0) {
        Some((ip, p)) => {
            return match parse_port(s, p) {
                Some((port, q)) => if q == s.len() {
                    Some(SocketAddress::V4 { ip, port })
                } else {
                    None
                },
                None => {
                    // The IPv4 form failed; the IPv6 form needs a leading `[`,
                    // which an IPv4 address cannot start with.
                    proof {
                        lemma_ipv4_starts_with_digit(s@);
                    }
                    None
                },
            };
        },
        None => {},
    }
    if !(0 < s.len() && s[0] == '[') {
        return None;
    }
    let (g, p1) = match parse_ipv6(s, 1) {
        Some(x) => x,
        None => return None,
    };
    let mut scope: u64 = 0;
    let mut p2 = p1;
    if p1 < s.len() && s[p1] == '%' {
        match parse_number(s, p1 + 1, 10, None, true, 0xffff_ffff) {
            Some((v, q)) => {
                scope = v;
                p2 = q;
            },
            None => {},
        }
    }
    if !(p2 < s.len() && s[p2] == ']') {
        return None;
    }
    match parse_port(s, p2 + 1) {
        Some((port, q)) => {
            if q == s.len() {
                let ip = Ipv6Address {
                    s0: g[0],
                    s1: g[1],
                    s2: g[2],
                    s3: g[3],
                    s4: g[4],
                    s5: g[5],
                    s6: g[6],
                    s7: g[7],
                };
                Some(SocketAddress::V6 { ip, port, flowinfo: 0, scope_id: scope as u32 })
            } else {
                None
            }
        },
        None => None,
    }
}

/// An IPv4 address starts with a decimal digit, so never with `[`.
pub proof fn lemma_ipv4_starts_with_digit(s: Seq<char>)
    ensures
        read_ipv4(s, 0) is Some ==> s.len() > 0 && s[0] != '[',
{
    lemma_digits_end(s, 0, 10);
}

// ---------------------------------------------------------------------------
// Text of an address
// ---------------------------------------------------------------------------
/// Dotted decimal, as `Ipv4Addr` displays.
pub open spec fn ipv4_text(ip: Ipv4Address) -> Seq<char> {
    decimal(ip.a as nat) + seq!['.'] + decimal(ip.b as nat) + seq!['.'] + decimal(ip.c as nat)
        + seq!['.'] + decimal(ip.d as nat)
}

/// Lower-case hexadecimal without leading zeros.
pub open spec fn hex(n: nat) -> Seq<char> {
    numeral(n, 16)
}

/// Groups in hexadecimal, separated by `:`.
pub open spec fn hex_groups(g: Seq<u16>) -> Seq<char>
    decreases g.len(),
{
    if g.len() == 0 {
        seq![]
    } else if g.len() == 1 {
        hex(g[0] as nat)
    } else {
        hex_groups(g.drop_last()) + seq![':'] + hex(g.last() as nat)
    }
}

/// The longest run of zero segments among the first `n`, the earliest of
/// equally long ones, as `(start, length)`, followed by the run that is open
/// after segment `n - 1` (length 0 when that segment is not zero).
pub open spec fn zero_runs(g: Seq<u16>, n: nat) -> (int, int, int, int)
    decreases n,
{
    if n == 0 {
        (0, 0, 0, 0)
    } else {
        let (ls, ll, cs, cl) = zero_runs(g, (n - 1) as nat);
        if g[n - 1] == 0 {
            let cs2 = if cl == 0 {
                n - 1
            } else {
                cs
            };
            if cl + 1 > ll {
                (cs2, cl + 1, cs2, cl + 1)
            } else {
                (ls, ll, cs2, cl + 1)
            }
        } else {
            (ls, ll, 0, 0)
        }
    }
}

/// Whether the address is an IPv4 address mapped into IPv6
/// (`::ffff:a.b.c.d`).
pub open spec fn is_ipv4_mapped(ip: Ipv6Address) -> bool {
    ip.s0 == 0 && ip.s1 == 0 && ip.s2 == 0 && ip.s3 == 0 && ip.s4 == 0 && ip.s5 == 0xffff
}

/// The IPv4 address in the last two segments.
pub open spec fn mapped_ipv4(ip: Ipv6Address) -> Ipv4Address {
    Ipv4Address {
        a: (ip.s6 / 256) as u8,
        b: (ip.s6 % 256) as u8,
        c: (ip.s7 / 256) as u8,
        d: (ip.s7 % 256) as u8,
    }
}

/// The text of an IPv6 address as `Ipv6Addr` displays it: an IPv4-mapped
/// address as `::ffff:` and dotted decimal; otherwise hexadecimal groups with
/// the longest run of two or more zero groups (the first of equally long
/// ones) written as `::`.
#[verifier::opaque]
pub open spec fn ipv6_text(ip: Ipv6Address) -> Seq<char> {
    let g = ip.segments();
    if is_ipv4_mapped(ip) {
        seq![':', ':', 'f', 'f', 'f', 'f', ':'] + ipv4_text(mapped_ipv4(ip))
    } else {
        let (ls, ll, cs, cl) = zero_runs(g, 8);
        if ll > 1 {
            hex_groups(g.subrange(0, ls)) + seq![':', ':'] + hex_groups(g.subrange(ls + ll, 8))
        } else {
            hex_groups(g)
        }
    }
}

/// The text of a socket address as `SocketAddr` displays it:
/// `a.b.c.d:port`, or `[ipv6]:port` with `%scope` inside the brackets when
/// the scope id is not 0.
pub open spec fn socket_text(addr: SocketAddress) -> Seq<char> {
    match addr {
        SocketAddress::V4 { ip, port } => ipv4_text(ip) + seq![':'] + decimal(port as nat),
        SocketAddress::V6 { ip, port, flowinfo, scope_id } => seq!['['] + ipv6_text(ip) + (if scope_id
            == 0 {
            seq![]
        } else {
            seq!['%'] + decimal(scope_id as nat)
        }) + seq![']', ':'] + decimal(port as nat),
    }
}

/// Appends the text of `other` to `s`.
fn append_string(s: &mut String, other: String)
    ensures
        final(s)@ == old(s)@ + other@,
{
    s.append(other.as_str());
}

/// Executable [`ipv4_text`], appended to `out`.
fn write_ipv4(out: &mut String, ip: Ipv4Address)
    ensures
        final(out)@ == old(out)@ + ipv4_text(ip),
{
    append_string(out, decimal_text(ip.a as u64));
    push_char(out, '.');
    append_string(out, decimal_text(ip.b as u64));
    push_char(out, '.');
    append_string(out, decimal_text(ip.c as u64));
    push_char(out, '.');
    append_string(out, decimal_text(ip.d as u64));
    assert(final(out)@ =~= old(out)@ + ipv4_text(ip));
}

/// Executable [`hex_groups`] of `g[lo..hi)`, appended to `out`.
fn write_hex_groups(out: &mut String, g: &[u16], lo: usize, hi: usize)
    requires
        lo <= hi <= g@.len(),
    ensures
        final(out)@ == old(out)@ + hex_groups(g@.subrange(lo as int, hi as int)),
{
    let ghost start = out@;
    let mut k = lo;
    assert(g@.subrange(lo as int, lo as int) =~= Seq::<u16>::empty());
    while k < hi
        invariant
            lo <= k <= hi <= g@.len(),
            out@ == start + hex_groups(g@.subrange(lo as int, k as int)),
        decreases hi - k,
    {
        let ghost before = out@;
        let ghost sub = g@.subrange(lo as int, k + 1);
        assert(sub.drop_last() =~= g@.subrange(lo as int, k as int));
        assert(sub.last() == g@[k as int]);
        if k > lo {
            push_char(out, ':');
        }
        append_string(out, numeral_text(g[k] as u64, 16));
        proof {
            if k == lo {
                assert(hex_groups(g@.subrange(lo as int, k as int)) =~= Seq::<char>::empty());
                assert(sub.len() == 1);
            }
        }
        assert(out@ =~= start + hex_groups(sub));
        k = k + 1;
    }
}

impl SocketAddress {
    /// The IPv4 socket address `a.b.c.d:port`.
    pub fn v4(a: u8, b: u8, c: u8, d: u8, port: u16) -> (r: SocketAddress)
        ensures
            r == (SocketAddress::V4 { ip: Ipv4Address { a, b, c, d }, port }),
    {
        SocketAddress::V4 { ip: Ipv4Address { a, b, c, d }, port }
    }

    /// Parses `text` as `SocketAddr::from_str` does; `None` when it is not a
    /// socket address.
    pub fn parse(text: &str) -> (r: Option<SocketAddress>)
        ensures
            r == socket_address_of(text@),
    {
        let chars = chars_of(text);
        parse_socket_chars(chars.as_slice())
    }

    /// Whether the IP address is the unspecified one (`0.0.0.0` or `::`).
    pub open spec fn spec_is_unspecified(&self) -> bool {
        match self {
            SocketAddress::V4 { ip, .. } => ip.a == 0 && ip.b == 0 && ip.c == 0 && ip.d == 0,
            SocketAddress::V6 { ip, .. } => ip.segments() == Seq::new(8, |k: int| 0u16),
        }
    }

    /// Whether the IP address is the unspecified one (`0.0.0.0` or `::`).
    #[verifier::when_used_as_spec(spec_is_unspecified)]
    pub fn is_unspecified(&self) -> (b: bool)
        ensures
            b == self.spec_is_unspecified(),
    {
        match self {
            SocketAddress::V4 { ip, .. } => ip.a == 0 && ip.b == 0 && ip.c == 0 && ip.d == 0,
            SocketAddress::V6 { ip, .. } => {
                let r = ip.s0 == 0 && ip.s1 == 0 && ip.s2 == 0 && ip.s3 == 0 && ip.s4 == 0 && ip.s5
                    == 0 && ip.s6 == 0 && ip.s7 == 0;
                assert(r <==> ip.segments() =~= Seq::new(8, |k: int| 0u16));
                r
            },
        }
    }

    /// The text of the address, as `SocketAddr` displays it.
    pub fn to_text(&self) -> (r: String)
        ensures
            r@ == socket_text(*self),
    {
        let mut out = String::new();
        match self {
            SocketAddress::V4 { ip, port } => {
                write_ipv4(&mut out, *ip);
                push_char(&mut out, ':');
                append_string(&mut out, decimal_text(*port as u64));
            },
            SocketAddress::V6 { ip, port, flowinfo, scope_id } => {
                push_char(&mut out, '[');
                write_ipv6(&mut out, *ip);
                if *scope_id != 0 {
                    push_char(&mut out, '%');
                    append_string(&mut out, decimal_text(*scope_id as u64));
                }
                push_char(&mut out, ']');
                push_char(&mut out, ':');
                append_string(&mut out, decimal_text(*port as u64));
            },
        }
        assert(out@ =~= socket_text(*self));
        out
    }
}

/// Executable [`ipv6_text`], appended to `out`.
fn write_ipv6(out: &mut String, ip: Ipv6Address)
    ensures
        final(out)@ == old(out)@ + ipv6_text(ip),
{
    reveal(ipv6_text);
    let ghost start = out@;
    if ip.s0 == 0 && ip.s1 == 0 && ip.s2 == 0 && ip.s3 == 0 && ip.s4 == 0 && ip.s5 == 0xffff {
        push_char(out, ':');
        push_char(out, ':');
        push_char(out, 'f');
        push_char(out, 'f');
        push_char(out, 'f');
        push_char(out, 'f');
        push_char(out, ':');
        let v4 = Ipv4Address {
            a: (ip.s6 / 256) as u8,
            b: (ip.s6 % 256) as u8,
            c: (ip.s7 / 256) as u8,
            d: (ip.s7 % 256) as u8,
        };
        write_ipv4(out, v4);
        assert(out@ =~= start + ipv6_text(ip));
        return ;
    }
    let g: Vec<u16> = vec![ip.s0, ip.s1, ip.s2, ip.s3, ip.s4, ip.s5, ip.s6, ip.s7];
    assert(g@ =~= ip.segments());
    let mut ls: usize = 0;
    let mut ll: usize = 0;
    let mut cs: usize = 0;
    let mut cl: usize = 0;
    let mut i: usize = 0;
    while i < 8
        invariant
            i <= 8,
            g@ == ip.segments(),
            zero_runs(g@, i as nat) == (ls as int, ll as int, cs as int, cl as int),
            ll <= i,
            cl <= i,
            cs <= i,
            ls + ll <= i,
        decreases 8 - i,
    {
        if g[i] == 0 {
            if cl == 0 {
                cs = i;
            }
            cl = cl + 1;
            if cl > ll {
                ls = cs;
                ll = cl;
            }
        } else {
            cs = 0;
            cl = 0;
        }
        i = i + 1;
        proof {
            lemma_zero_runs_bounds(g@, i as nat);
        }
    }
    if ll > 1 {
        write_hex_groups(out, g.as_slice(), 0, ls);
        push_char(out, ':');
        push_char(out, ':');
        write_hex_groups(out, g.as_slice(), ls + ll, 8);
    } else {
        write_hex_groups(out, g.as_slice(), 0, 8);
        assert(g@.subrange(0, 8) =~= g@);
    }
    assert(out@ =~= start + ipv6_text(ip));
}

/// The open run ends at the current position, and the longest run fits in
/// the segments read.
pub proof fn lemma_zero_runs_bounds(g: Seq<u16>, n: nat)
    ensures
        zero_runs(g, n).1 <= n,
        zero_runs(g, n).3 <= n,
        zero_runs(g, n).3 > 0 ==> zero_runs(g, n).2 + zero_runs(g, n).3 == n,
        0 <= zero_runs(g, n).0,
        zero_runs(g, n).0 + zero_runs(g, n).1 <= n,
        0 <= zero_runs(g, n).2 <= n,
        0 <= zero_runs(g, n).1,
        0 <= zero_runs(g, n).3,
    decreases n,
{
    if n > 0 {
        lemma_zero_runs_bounds(g, (n - 1) as nat);
    }
}

} // verus!
