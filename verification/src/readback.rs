//! Reading back what is written: the numerals, addresses and groups this
//! crate writes are read back by its parsers as the values they came from.
use vstd::prelude::*;

use crate::address::digit_value;
use crate::address::digits_end;
use crate::address::digits_value;
use crate::address::ipv4_text;
use crate::address::read_ipv4;
use crate::address::read_number;
use crate::address::read_octet;
use crate::address::socket_address_of;
use crate::address::hex;
use crate::address::hex_groups;
use crate::address::ipv6_text;
use crate::address::is_ipv4_mapped;
use crate::address::mapped_ipv4;
use crate::address::read_groups;
use crate::address::read_ipv6;
use crate::address::socket_text;
use crate::address::zero_runs;
use crate::address::Ipv4Address;
use crate::address::Ipv6Address;
use crate::address::SocketAddress;
use crate::text::decimal;
use crate::text::digit_char;
use crate::text::numeral;

verus! {

// ---------------------------------------------------------------------------
// Numerals
// ---------------------------------------------------------------------------
/// The digit character of `d` is the digit with value `d`.
pub proof fn lemma_digit_char(d: nat, radix: nat)
    requires
        d < radix <= 36,
    ensures
        digit_value(digit_char(d), radix) == Some(d),
        digit_char(d) != '.' && digit_char(d) != ':' && digit_char(d) != ']' && digit_char(d) != '%'
            && digit_char(d) != '+' && digit_char(d) != '[',
        d < 10 ==> '0' <= digit_char(d) <= '9',
{
    let c = digit_char(d);
    if d < 10 {
        assert(c == (d + 48) as char);
        assert((c as int) == d + 48);
    } else {
        assert(c == (d + 87) as char);
        assert((c as int) == d + 87);
    }
}

/// The characters of a numeral are digits of its radix, and read back they
/// give its value.
pub proof fn lemma_numeral_value(s: Seq<char>, p: int, n: nat, radix: nat)
    requires
        2 <= radix <= 36,
        0 <= p,
        p + numeral(n, radix).len() <= s.len(),
        s.subrange(p, p + numeral(n, radix).len()) == numeral(n, radix),
    ensures
        digits_value(s, p, p + numeral(n, radix).len(), radix) == n,
        forall|k: int|
            p <= k < p + numeral(n, radix).len() ==> digit_value(#[trigger] s[k], radix) is Some,
        forall|k: int|
            p <= k < p + numeral(n, radix).len() ==> #[trigger] s[k] != '.' && s[k] != ':' && s[k]
                != ']' && s[k] != '%' && s[k] != '+' && s[k] != '[',
    decreases n,
{
    let d = numeral(n, radix);
    let l = d.len() as int;
    if n < radix {
        assert(d == seq![digit_char(n)]);
        assert(s[p] == s.subrange(p, p + l)[0]);
        lemma_digit_char(n, radix);
        assert(digits_value(s, p, p, radix) == 0);
        assert(digits_value(s, p, p + 1, radix) == digits_value(s, p, p, radix) * radix
            + digit_value(s[p], radix).unwrap());
    } else {
        let h = numeral(n / radix, radix);
        assert(d == h.push(digit_char(n % radix)));
        assert(d.subrange(0, h.len() as int) =~= h);
        assert(s.subrange(p, p + h.len()) =~= s.subrange(p, p + l).subrange(0, h.len() as int));
        assert(n / radix < n) by (nonlinear_arith)
            requires
                radix >= 2,
                n >= radix,
        ;
        lemma_numeral_value(s, p, n / radix, radix);
        assert(s[p + l - 1] == s.subrange(p, p + l)[l - 1]);
        lemma_digit_char(n % radix, radix);
        assert(digits_value(s, p, p + l, radix) == digits_value(s, p, p + l - 1, radix) * radix
            + digit_value(s[p + l - 1], radix).unwrap());
        assert((n / radix) * radix + n % radix == n) by (nonlinear_arith)
            requires
                radix >= 2,
        ;
        assert forall|k: int| p <= k < p + l implies digit_value(#[trigger] s[k], radix) is Some
            && s[k] != '.' && s[k] != ':' && s[k] != ']' && s[k] != '%' && s[k] != '+' && s[k]
            != '[' by {
            if k < p + l - 1 {
                assert(digit_value(s[k], radix) is Some);
            }
        }
    }
}

/// The end of a run of digits is where the digits stop.
pub proof fn lemma_digits_end_at(s: Seq<char>, p: int, q: int, radix: nat)
    requires
        0 <= p <= q <= s.len(),
        forall|k: int| p <= k < q ==> digit_value(#[trigger] s[k], radix) is Some,
        q == s.len() || digit_value(s[q], radix) is None,
    ensures
        digits_end(s, p, radix) == q,
    decreases q - p,
{
    if p < q {
        lemma_digits_end_at(s, p + 1, q, radix);
    }
}

/// A numeral that is not followed by a digit reads back as its value, when
/// the value is within the bound and the numeral within the digit limit.
pub proof fn lemma_read_numeral(
    s: Seq<char>,
    p: int,
    n: nat,
    radix: nat,
    max_digits: Option<nat>,
    zero_prefix_ok: bool,
    bound: nat,
)
    requires
        2 <= radix <= 36,
        0 <= p,
        p + numeral(n, radix).len() <= s.len(),
        s.subrange(p, p + numeral(n, radix).len()) == numeral(n, radix),
        p + numeral(n, radix).len() == s.len() || digit_value(
            s[p + numeral(n, radix).len()],
            radix,
        ) is None,
        n <= bound,
        max_digits matches Some(m) ==> numeral(n, radix).len() <= m,
    ensures
        read_number(s, p, radix, max_digits, zero_prefix_ok, bound) == Some(
            (n, p + numeral(n, radix).len()),
        ),
{
    let l = numeral(n, radix).len() as int;
    lemma_numeral_value(s, p, n, radix);
    lemma_digits_end_at(s, p, p + l, radix);
    lemma_numeral_shape(n, radix);
    assert(s[p] == numeral(n, radix)[0]);
}

/// A numeral has at least one digit and no leading zero, but for 0 itself.
pub proof fn lemma_numeral_shape(n: nat, radix: nat)
    requires
        2 <= radix <= 36,
    ensures
        numeral(n, radix).len() >= 1,
        n > 0 ==> numeral(n, radix)[0] != '0',
        n == 0 ==> numeral(n, radix) == seq!['0'],
    decreases n,
{
    if n >= radix {
        assert(n / radix < n) by (nonlinear_arith)
            requires
                radix >= 2,
                n >= radix,
        ;
        assert(n / radix > 0) by (nonlinear_arith)
            requires
                radix >= 2,
                n >= radix,
        ;
        lemma_numeral_shape(n / radix, radix);
        assert(numeral(n, radix)[0] == numeral(n / radix, radix)[0]);
    } else if n > 0 {
        lemma_digit_char(n, radix);
        assert(digit_char(n) != '0') by {
            if n < 10 {
                assert((digit_char(n) as int) == n + 48);
            } else {
                assert((digit_char(n) as int) == n + 87);
            }
        }
    }
}

/// The decimal numeral of a number below 256 has at most three digits.
pub proof fn lemma_decimal_len_octet(n: nat)
    requires
        n < 256,
    ensures
        decimal(n).len() <= 3,
{
    if n >= 10 {
        assert(decimal(n) == decimal(n / 10).push(digit_char(n % 10)));
        if n / 10 >= 10 {
            assert(decimal(n / 10) == decimal(n / 100).push(digit_char((n / 10) % 10)));
            assert(decimal(n / 100) == seq![digit_char(n / 100)]);
        } else {
            assert(decimal(n / 10) == seq![digit_char(n / 10)]);
        }
    }
}

// ---------------------------------------------------------------------------
// IPv4
// ---------------------------------------------------------------------------
/// Dotted decimal that is not followed by a digit reads back as its
/// address.
pub proof fn lemma_read_ipv4_text(s: Seq<char>, p: int, ip: Ipv4Address)
    requires
        0 <= p,
        p + ipv4_text(ip).len() <= s.len(),
        s.subrange(p, p + ipv4_text(ip).len()) == ipv4_text(ip),
        p + ipv4_text(ip).len() == s.len() || digit_value(s[p + ipv4_text(ip).len()], 10) is None,
    ensures
        read_ipv4(s, p) == Some((ip, p + ipv4_text(ip).len())),
{
    let da = decimal(ip.a as nat);
    let db = decimal(ip.b as nat);
    let dc = decimal(ip.c as nat);
    let dd = decimal(ip.d as nat);
    let t = ipv4_text(ip);
    let p1 = p + da.len();
    let p2 = p1 + 1 + db.len();
    let p3 = p2 + 1 + dc.len();
    let p4 = p3 + 1 + dd.len();
    assert(p4 == p + t.len());
    lemma_decimal_len_octet(ip.a as nat);
    lemma_decimal_len_octet(ip.b as nat);
    lemma_decimal_len_octet(ip.c as nat);
    lemma_decimal_len_octet(ip.d as nat);
    assert(s.subrange(p, p1) =~= t.subrange(0, da.len() as int));
    assert(s.subrange(p, p1) =~= da);
    assert(s[p1] == t[da.len() as int]);
    lemma_read_numeral(s, p, ip.a as nat, 10, Some(3), false, 255);
    assert(s.subrange(p1 + 1, p2) =~= t.subrange(p1 + 1 - p, p2 - p));
    assert(t.subrange(p1 + 1 - p, p2 - p) =~= db);
    assert(s[p2] == t[p2 - p]);
    lemma_read_numeral(s, p1 + 1, ip.b as nat, 10, Some(3), false, 255);
    assert(s.subrange(p2 + 1, p3) =~= t.subrange(p2 + 1 - p, p3 - p));
    assert(t.subrange(p2 + 1 - p, p3 - p) =~= dc);
    assert(s[p3] == t[p3 - p]);
    lemma_read_numeral(s, p2 + 1, ip.c as nat, 10, Some(3), false, 255);
    assert(s.subrange(p3 + 1, p4) =~= t.subrange(p3 + 1 - p, p4 - p));
    assert(t.subrange(p3 + 1 - p, p4 - p) =~= dd);
    lemma_read_numeral(s, p3 + 1, ip.d as nat, 10, Some(3), false, 255);
}

/// Law: the text of an IPv4 socket address, as it is displayed, reads back
/// as the same address.
pub proof fn lemma_ipv4_text_round_trip(ip: Ipv4Address, port: u16)
    ensures
        socket_address_of(socket_text(SocketAddress::V4 { ip, port })) == Some(
            SocketAddress::V4 { ip, port },
        ),
{
    let t = ipv4_text(ip);
    let dp = decimal(port as nat);
    let s = socket_text(SocketAddress::V4 { ip, port });
    assert(s =~= t + seq![':'] + dp);
    let p4 = t.len() as int;
    assert(s.subrange(0, p4) =~= t);
    assert(s[p4] == ':');
    lemma_read_ipv4_text(s, 0, ip);
    assert(s.subrange(p4 + 1, s.len() as int) =~= dp);
    lemma_read_numeral(s, p4 + 1, port as nat, 10, None, true, 0xffff);
}

// ---------------------------------------------------------------------------
// IPv6
// ---------------------------------------------------------------------------
/// Hexadecimal groups read from the front: the first group, a colon, the
/// rest.
pub proof fn lemma_hex_groups_front(g: Seq<u16>)
    requires
        g.len() >= 2,
    ensures
        hex_groups(g) == hex(g[0] as nat) + seq![':'] + hex_groups(g.drop_first()),
    decreases g.len(),
{
    if g.len() == 2 {
        assert(g.drop_last() =~= seq![g[0]]);
        assert(g.drop_first() =~= seq![g[1]]);
        assert(hex_groups(seq![g[0]]) == hex(g[0] as nat));
        assert(hex_groups(seq![g[1]]) == hex(g[1] as nat));
        assert(g.last() == g[1]);
    } else {
        lemma_hex_groups_front(g.drop_last());
        assert(g.drop_last().drop_first() =~= g.drop_first().drop_last());
        assert(g.drop_first().last() == g.last());
        assert(g.drop_last()[0] == g[0]);
    }
}

/// A 16-bit group has at most four hexadecimal digits.
pub proof fn lemma_hex_len(n: nat)
    requires
        n <= 0xffff,
    ensures
        hex(n).len() <= 4,
{
    if n >= 16 {
        assert(hex(n) == hex(n / 16).push(digit_char(n % 16)));
        if n / 16 >= 16 {
            assert(hex(n / 16) == hex(n / 256).push(digit_char((n / 16) % 16)));
            if n / 256 >= 16 {
                assert(hex(n / 256) == hex(n / 4096).push(digit_char((n / 256) % 16)));
                assert(hex(n / 4096) == seq![digit_char(n / 4096)]);
            } else {
                assert(hex(n / 256) == seq![digit_char(n / 256)]);
            }
        } else {
            assert(hex(n / 16) == seq![digit_char(n / 16)]);
        }
    }
}

/// A character that is no hexadecimal digit is no decimal digit either.
pub proof fn lemma_not_hex_not_decimal(c: char)
    requires
        digit_value(c, 16) is None,
    ensures
        digit_value(c, 10) is None,
{
}

/// A dotted IPv4 address continues with `.` right after its first digits.
pub proof fn lemma_ipv4_needs_dot(s: Seq<char>, p: int)
    requires
        0 <= p <= s.len(),
    ensures
        read_ipv4(s, p) is Some ==> digits_end(s, p, 10) < s.len() && s[digits_end(s, p, 10)]
            == '.',
{
}

/// No IPv4 address starts where a hexadecimal group is written that is
/// followed by neither a digit nor a `.`.
pub proof fn lemma_no_ipv4_at_hex(s: Seq<char>, p: int, n: nat)
    requires
        0 <= p,
        p + hex(n).len() < s.len(),
        s.subrange(p, p + hex(n).len()) == hex(n),
        digit_value(s[p + hex(n).len()], 16) is None,
        s[p + hex(n).len()] != '.',
    ensures
        read_ipv4(s, p) is None,
{
    let l = hex(n).len() as int;
    lemma_numeral_value(s, p, n, 16);
    lemma_not_hex_not_decimal(s[p + l]);
    crate::address::lemma_digits_end(s, p, 10);
    lemma_ipv4_needs_dot(s, p);
    let de = digits_end(s, p, 10);
    if de > p + l {
        assert(digit_value(s[p + l], 10) is Some);
    }
}

/// A hexadecimal group that is not followed by a digit reads back as its
/// value.
pub proof fn lemma_read_hex_group(s: Seq<char>, p: int, n: nat)
    requires
        0 <= p,
        n <= 0xffff,
        p + hex(n).len() < s.len(),
        s.subrange(p, p + hex(n).len()) == hex(n),
        digit_value(s[p + hex(n).len()], 16) is None,
    ensures
        read_number(s, p, 16, Some(4), true, 0xffff) == Some((n, p + hex(n).len())),
{
    lemma_hex_len(n);
    lemma_read_numeral(s, p, n, 16, Some(4), true, 0xffff);
}

/// A run of groups ends where neither a group nor an IPv4 address starts:
/// at a character that is no digit and no colon, or at a colon followed by
/// such a character.
pub proof fn lemma_groups_stop(s: Seq<char>, q: int, i: nat, limit: nat)
    requires
        0 <= q < s.len(),
        digit_value(s[q], 16) is None,
        s[q] == ':' ==> q + 1 < s.len() && digit_value(s[q + 1], 16) is None,
    ensures
        read_groups(s, q, i, limit) == (Seq::<u16>::empty(), false, q),
{
    lemma_not_hex_not_decimal(s[q]);
    crate::address::lemma_digits_end(s, q, 10);
    crate::address::lemma_digits_end(s, q, 16);
    if s[q] == ':' {
        lemma_not_hex_not_decimal(s[q + 1]);
        crate::address::lemma_digits_end(s, q + 1, 10);
        crate::address::lemma_digits_end(s, q + 1, 16);
    }
}

/// The text of groups, after a colon unless they come first in the run.
pub open spec fn run_text(g: Seq<u16>, first: bool) -> Seq<char> {
    if first {
        hex_groups(g)
    } else {
        seq![':'] + hex_groups(g)
    }
}

/// Written groups read back as a run of groups, up to where the run stops.
pub proof fn lemma_read_groups_hex(s: Seq<char>, p: int, g: Seq<u16>, i: nat, limit: nat)
    requires
        0 <= p,
        g.len() >= 1,
        i + g.len() <= limit,
        p + run_text(g, i == 0).len() < s.len(),
        s.subrange(p, p + run_text(g, i == 0).len()) == run_text(g, i == 0),
        digit_value(s[p + run_text(g, i == 0).len()], 16) is None,
        s[p + run_text(g, i == 0).len()] != '.',
        read_groups(s, p + run_text(g, i == 0).len(), i + g.len(), limit) == (
            Seq::<u16>::empty(),
            false,
            p + run_text(g, i == 0).len(),
        ),
    ensures
        read_groups(s, p, i, limit) == (g, false, p + run_text(g, i == 0).len()),
    decreases g.len(),
{
    let t = run_text(g, i == 0);
    let q = p + t.len();
    let start = if i == 0 {
        p
    } else {
        p + 1
    };
    let h0 = hex(g[0] as nat);
    let e0 = start + h0.len();
    if i != 0 {
        assert(s[p] == t[0]);
    }
    if g.len() == 1 {
        assert(hex_groups(g) == h0);
        assert(e0 == q);
        assert(s.subrange(start, e0) =~= t.subrange(start - p, e0 - p));
    } else {
        lemma_hex_groups_front(g);
        let rest = g.drop_first();
        assert(t =~= (if i == 0 {
            seq![]
        } else {
            seq![':']
        }) + h0 + run_text(rest, false));
        assert(s.subrange(start, e0) =~= t.subrange(start - p, e0 - p));
        assert(s[e0] == t[e0 - p]);
        assert(s[e0] == ':');
        assert(s.subrange(e0, q) =~= t.subrange(e0 - p, t.len() as int));
        assert(t.subrange(e0 - p, t.len() as int) =~= run_text(rest, false));
        lemma_read_groups_hex(s, e0, rest, i + 1, limit);
    }
    assert(s.subrange(start, e0) =~= h0);
    lemma_no_ipv4_at_hex(s, start, g[0] as nat);
    lemma_read_hex_group(s, start, g[0] as nat);
    if g.len() > 1 {
        assert(seq![g[0]] + g.drop_first() =~= g);
    } else {
        assert(seq![g[0]] + Seq::<u16>::empty() =~= g);
    }
}

/// Along a zero run that [`zero_runs`] reports, every segment is zero.
pub proof fn lemma_zero_runs_zero(g: Seq<u16>, n: nat)
    requires
        n <= g.len(),
    ensures
        forall|k: int|
            zero_runs(g, n).0 <= k < zero_runs(g, n).0 + zero_runs(g, n).1 ==> g[k] == 0,
        forall|k: int|
            zero_runs(g, n).2 <= k < zero_runs(g, n).2 + zero_runs(g, n).3 ==> g[k] == 0,
    decreases n,
{
    if n > 0 {
        lemma_zero_runs_zero(g, (n - 1) as nat);
        crate::address::lemma_zero_runs_bounds(g, (n - 1) as nat);
    }
}

/// A character that can follow an IPv6 address in a socket address.
pub open spec fn ends_ipv6(c: char) -> bool {
    c == ']' || c == '%'
}

/// `::ffff:` and dotted decimal read back as the IPv4-mapped address.
#[verifier::rlimit(50)]
proof fn lemma_read_ipv6_mapped(s: Seq<char>, p: int, ip: Ipv6Address)
    requires
        is_ipv4_mapped(ip),
        0 <= p,
        p + 7 + ipv4_text(mapped_ipv4(ip)).len() < s.len(),
        s.subrange(p, p + 7 + ipv4_text(mapped_ipv4(ip)).len()) == seq![
            ':',
            ':',
            'f',
            'f',
            'f',
            'f',
            ':',
        ] + ipv4_text(mapped_ipv4(ip)),
        ends_ipv6(s[p + 7 + ipv4_text(mapped_ipv4(ip)).len()]),
    ensures
        read_ipv6(s, p) == Some((ip.segments(), p + 7 + ipv4_text(mapped_ipv4(ip)).len())),
{
    let m = mapped_ipv4(ip);
    let v4 = ipv4_text(m);
    let t = seq![':', ':', 'f', 'f', 'f', 'f', ':'] + v4;
    let q = p + t.len();
    let g = ip.segments();
    assert(s[p] == t[0]);
    assert(s[p + 1] == t[1]);
    lemma_groups_stop(s, p, 0, 8);
    assert(s[p + 2] == t[2]);
    assert(s[p + 6] == t[6]);
    crate::address::lemma_digits_end(s, p + 2, 10);
    assert(hex(15) == seq![digit_char(15)]);
    assert(hex(255) == hex(15).push(digit_char(15)));
    assert(hex(4095) == hex(255).push(digit_char(15)));
    assert(hex(65535) == hex(4095).push(digit_char(15)));
    assert(digit_char(15) == 'f');
    assert(s.subrange(p + 2, p + 6) =~= t.subrange(2, 6));
    assert(s.subrange(p + 2, p + 6) =~= hex(65535));
    lemma_read_hex_group(s, p + 2, 65535);
    assert(s.subrange(p + 7, q) =~= t.subrange(7, t.len() as int));
    assert(t.subrange(7, t.len() as int) =~= v4);
    lemma_not_hex_not_decimal(s[q]);
    lemma_read_ipv4_text(s, p + 7, m);
    assert(digit_value(s[p + 2], 10) is None);
    assert(digits_end(s, p + 2, 10) == p + 2);
    assert(read_ipv4(s, p + 2) is None);
    assert(crate::address::read_separated_ipv4(s, p + 6, false) == Some((m, q)));
    let rest = read_groups(s, p + 6, 1, 7);
    assert(rest == (crate::address::ipv4_segments(m), true, q));
    let tail = read_groups(s, p + 2, 0, 7);
    assert(tail == (seq![65535 as u16] + rest.0, rest.1, rest.2));
    assert(tail.0 =~= seq![0xffffu16] + crate::address::ipv4_segments(m));
    assert(tail.2 == q);
    assert(Seq::<u16>::empty() + Seq::new(5, |k: int| 0u16) + tail.0 =~= g);
}

/// Groups with a run of zero groups written as `::` read back as all the
/// groups.
#[verifier::rlimit(50)]
proof fn lemma_read_ipv6_compressed(s: Seq<char>, p: int, g: Seq<u16>, ls: int, ll: int)
    requires
        g.len() == 8,
        0 <= ls,
        2 <= ll,
        ls + ll <= 8,
        forall|k: int| ls <= k < ls + ll ==> g[k] == 0,
        0 <= p,
        p + (hex_groups(g.subrange(0, ls)) + seq![':', ':'] + hex_groups(g.subrange(ls + ll, 8))).len()
            < s.len(),
        s.subrange(
            p,
            p + (hex_groups(g.subrange(0, ls)) + seq![':', ':'] + hex_groups(
                g.subrange(ls + ll, 8),
            )).len(),
        ) == hex_groups(g.subrange(0, ls)) + seq![':', ':'] + hex_groups(g.subrange(ls + ll, 8)),
        ends_ipv6(
            s[p + (hex_groups(g.subrange(0, ls)) + seq![':', ':'] + hex_groups(
                g.subrange(ls + ll, 8),
            )).len()],
        ),
    ensures
        read_ipv6(s, p) == Some(
            (
                g,
                p + (hex_groups(g.subrange(0, ls)) + seq![':', ':'] + hex_groups(
                    g.subrange(ls + ll, 8),
                )).len(),
            ),
        ),
{
    let hd = g.subrange(0, ls);
    let tl = g.subrange(ls + ll, 8);
    let th = hex_groups(hd);
    let t = th + seq![':', ':'] + hex_groups(tl);
    let q = p + t.len();
    let qh = p + th.len();
    assert(s[qh] == t[th.len() as int]);
    assert(s[qh + 1] == t[th.len() + 1int]);
    // The head stops at the double colon.
    lemma_groups_stop(s, qh, hd.len(), 8);
    if hd.len() > 0 {
        assert(s.subrange(p, qh) =~= t.subrange(0, th.len() as int));
        assert(t.subrange(0, th.len() as int) =~= th);
        lemma_read_groups_hex(s, p, hd, 0, 8);
    } else {
        assert(qh == p);
    }
    let head = read_groups(s, p, 0, 8);
    assert(head == (hd, false, qh));
    // The tail stops at the bracket or percent sign.
    lemma_groups_stop(s, q, tl.len(), (7 - ls) as nat);
    if tl.len() > 0 {
        assert(s.subrange(qh + 2, q) =~= t.subrange(th.len() + 2int, t.len() as int));
        assert(t.subrange(th.len() + 2int, t.len() as int) =~= hex_groups(tl));
        lemma_read_groups_hex(s, qh + 2, tl, 0, (7 - ls) as nat);
    } else {
        assert(qh + 2 == q);
        lemma_groups_stop(s, q, 0, (7 - ls) as nat);
    }
    let tail = read_groups(s, qh + 2, 0, (7 - ls) as nat);
    assert(tail == (tl, false, q));
    assert(hd + Seq::new((8 - ls - tl.len()) as nat, |k: int| 0u16) + tl =~= g);
}

/// All eight groups written out read back as them.
proof fn lemma_read_ipv6_plain(s: Seq<char>, p: int, g: Seq<u16>)
    requires
        g.len() == 8,
        0 <= p,
        p + hex_groups(g).len() < s.len(),
        s.subrange(p, p + hex_groups(g).len()) == hex_groups(g),
        ends_ipv6(s[p + hex_groups(g).len()]),
    ensures
        read_ipv6(s, p) == Some((g, p + hex_groups(g).len())),
{
    let q = p + hex_groups(g).len();
    lemma_groups_stop(s, q, 8, 8);
    lemma_read_groups_hex(s, p, g, 0, 8);
}

/// The text of an IPv6 address, followed by `]` or `%`, reads back as it.
#[verifier::rlimit(50)]
pub proof fn lemma_read_ipv6_text(s: Seq<char>, p: int, ip: Ipv6Address)
    requires
        0 <= p,
        p + ipv6_text(ip).len() < s.len(),
        s.subrange(p, p + ipv6_text(ip).len()) == ipv6_text(ip),
        ends_ipv6(s[p + ipv6_text(ip).len()]),
    ensures
        read_ipv6(s, p) == Some((ip.segments(), p + ipv6_text(ip).len())),
{
    let g = ip.segments();
    if is_ipv4_mapped(ip) {
        assert(ipv6_text(ip) == seq![':', ':', 'f', 'f', 'f', 'f', ':'] + ipv4_text(
            mapped_ipv4(ip),
        )) by {
            reveal(ipv6_text);
        }
        lemma_read_ipv6_mapped(s, p, ip);
    } else {
        let r = zero_runs(g, 8);
        crate::address::lemma_zero_runs_bounds(g, 8);
        if r.1 > 1 {
            assert(ipv6_text(ip) == hex_groups(g.subrange(0, r.0)) + seq![':', ':'] + hex_groups(
                g.subrange(r.0 + r.1, 8),
            )) by {
                reveal(ipv6_text);
            }
            lemma_zero_runs_zero(g, 8);
            lemma_read_ipv6_compressed(s, p, g, r.0, r.1);
        } else {
            assert(ipv6_text(ip) == hex_groups(g)) by {
                reveal(ipv6_text);
            }
            lemma_read_ipv6_plain(s, p, g);
        }
    }
}

/// After the address, an optional `%scope`, `]` and `:port` read back.
proof fn lemma_socket_v6_after_address(
    s: Seq<char>,
    q: int,
    g: Seq<u16>,
    port: u16,
    scope_id: u32,
)
    requires
        0 < q < s.len(),
        s[0] == '[',
        read_ipv6(s, 1) == Some((g, q)),
        s.subrange(q, s.len() as int) == v6_suffix(port, scope_id),
    ensures
        socket_address_of(s) == Some(
            SocketAddress::V6 {
                ip: crate::address::ipv6_from(g),
                port,
                flowinfo: 0,
                scope_id,
            },
        ),
{
    let rest = s.subrange(q, s.len() as int);
    let sc: Seq<char> = if scope_id == 0 {
        seq![]
    } else {
        seq!['%'] + decimal(scope_id as nat)
    };
    let dp = decimal(port as nat);
    let q2: int = q + sc.len();
    assert(rest == sc + seq![']', ':'] + dp);
    assert(rest.len() == sc.len() + 2 + dp.len());
    assert(s.len() == q + rest.len());
    // Not an IPv4 form: it starts with a bracket.
    crate::address::lemma_digits_end(s, 0, 10);
    assert(digits_end(s, 0, 10) == 0);
    assert(read_ipv4(s, 0) is None);
    // The scope id.
    assert(s[q] == rest[0]);
    if scope_id != 0 {
        let ds = decimal(scope_id as nat);
        assert(s.subrange(q + 1, q2) =~= rest.subrange(1, 1int + ds.len()));
        assert(rest.subrange(1, 1int + ds.len()) =~= ds);
        assert(s[q2] == rest[q2 - q]);
        lemma_read_numeral(s, q + 1, scope_id as nat, 10, None, true, 0xffff_ffff);
    }
    assert(crate::address::read_scope(s, q) == (scope_id as nat, q2));
    // The port.
    assert(s[q2] == rest[q2 - q]);
    assert(s[q2 + 1] == rest[q2 - q + 1]);
    assert(s.subrange(q2 + 2, s.len() as int) =~= rest.subrange(q2 - q + 2, rest.len() as int));
    assert(rest.subrange(q2 - q + 2, rest.len() as int) =~= dp);
    lemma_read_numeral(s, q2 + 2, port as nat, 10, None, true, 0xffff);
}

/// What follows the address in the text of an IPv6 socket address.
pub open spec fn v6_suffix(port: u16, scope_id: u32) -> Seq<char> {
    (if scope_id == 0 {
        seq![]
    } else {
        seq!['%'] + decimal(scope_id as nat)
    }) + seq![']', ':'] + decimal(port as nat)
}

/// The text of an IPv6 socket address: a bracket, the address, the suffix.
proof fn lemma_v6_text_shape(ip: Ipv6Address, port: u16, scope_id: u32)
    ensures
        ({
            let s = socket_text(SocketAddress::V6 { ip, port, flowinfo: 0, scope_id });
            let q = 1int + ipv6_text(ip).len();
            &&& q < s.len()
            &&& s[0] == '['
            &&& s.subrange(1, q) == ipv6_text(ip)
            &&& s.subrange(q, s.len() as int) == v6_suffix(port, scope_id)
            &&& ends_ipv6(s[q])
        }),
{
    let s = socket_text(SocketAddress::V6 { ip, port, flowinfo: 0, scope_id });
    let t = ipv6_text(ip);
    let after = v6_suffix(port, scope_id);
    assert(s =~= seq!['['] + t + after);
    let q: int = 1int + t.len();
    assert(s.subrange(1, q) =~= t);
    assert(s.subrange(q, s.len() as int) =~= after);
    assert(s[q] == after[0]);
}

/// Law: the text of an IPv6 socket address whose flow label is 0, as it is
/// displayed, reads back as the same address. (The display leaves the flow
/// label out, and parsing sets it to 0.)
pub proof fn lemma_ipv6_text_round_trip(ip: Ipv6Address, port: u16, scope_id: u32)
    ensures
        socket_address_of(socket_text(SocketAddress::V6 { ip, port, flowinfo: 0, scope_id }))
            == Some(SocketAddress::V6 { ip, port, flowinfo: 0, scope_id }),
{
    let s = socket_text(SocketAddress::V6 { ip, port, flowinfo: 0, scope_id });
    let q = 1int + ipv6_text(ip).len();
    lemma_v6_text_shape(ip, port, scope_id);
    lemma_read_ipv6_text(s, 1, ip);
    lemma_socket_v6_after_address(s, q, ip.segments(), port, scope_id);
    assert(crate::address::ipv6_from(ip.segments()) == ip);
}

// ---------------------------------------------------------------------------
// Leading zeros in IPv6 groups
// ---------------------------------------------------------------------------
/// `n` in hexadecimal with leading zeros up to `w` digits (as it is when it
/// already has `w` digits or more).
pub open spec fn padded_hex(n: nat, w: nat) -> Seq<char> {
    if hex(n).len() >= w {
        hex(n)
    } else {
        Seq::new((w - hex(n).len()) as nat, |k: int| '0') + hex(n)
    }
}

/// Groups in hexadecimal separated by `:`, the `k`-th padded with leading
/// zeros to `w[k]` digits.
pub open spec fn padded_groups(g: Seq<u16>, w: Seq<nat>) -> Seq<char>
    decreases g.len(),
{
    if g.len() == 0 {
        seq![]
    } else if g.len() == 1 {
        padded_hex(g[0] as nat, w[0])
    } else {
        padded_hex(g[0] as nat, w[0]) + seq![':'] + padded_groups(g.drop_first(), w.drop_first())
    }
}

/// Widths that pad each of `n` groups to at most four digits.
pub open spec fn group_widths(w: Seq<nat>, n: nat) -> bool {
    w.len() == n && forall|k: int| 0 <= k < w.len() ==> #[trigger] w[k] <= 4
}

/// Leading zeros add nothing to the value of digits.
proof fn lemma_zeros_value(s: Seq<char>, p: int, z: int, q: int, radix: nat)
    requires
        0 <= p,
        0 <= z,
        q <= s.len(),
        radix >= 2,
        forall|k: int| p <= k < p + z ==> #[trigger] s[k] == '0',
    ensures
        q <= p + z ==> digits_value(s, p, q, radix) == 0,
        q >= p + z ==> digits_value(s, p, q, radix) == digits_value(s, p + z, q, radix),
    decreases q - p,
{
    if q > p {
        lemma_zeros_value(s, p, z, q - 1, radix);
        if q <= p + z {
            assert(s[q - 1] == '0');
            assert(('0' as int) == 48);
            assert(digit_value(s[q - 1], radix) == Some(0nat));
            assert(digits_value(s, p, q, radix) == digits_value(s, p, q - 1, radix) * radix
                + digit_value(s[q - 1], radix).unwrap());
        } else {
            assert(digits_value(s, p, q, radix) == digits_value(s, p, q - 1, radix) * radix
                + digit_value(s[q - 1], radix).unwrap());
            assert(digits_value(s, p + z, q, radix) == digits_value(s, p + z, q - 1, radix)
                * radix + digit_value(s[q - 1], radix).unwrap());
        }
    }
}

/// A group written with leading zeros, not followed by a digit, reads back
/// as its value, and all its characters are hexadecimal digits.
proof fn lemma_read_padded_group(s: Seq<char>, p: int, n: nat, w: nat)
    requires
        0 <= p,
        n <= 0xffff,
        w <= 4,
        p + padded_hex(n, w).len() < s.len(),
        s.subrange(p, p + padded_hex(n, w).len()) == padded_hex(n, w),
        digit_value(s[p + padded_hex(n, w).len()], 16) is None,
    ensures
        read_number(s, p, 16, Some(4), true, 0xffff) == Some((n, p + padded_hex(n, w).len())),
        forall|k: int|
            p <= k < p + padded_hex(n, w).len() ==> digit_value(#[trigger] s[k], 16) is Some,
{
    let h = hex(n);
    let t = padded_hex(n, w);
    let l = t.len() as int;
    let z = l - h.len();
    lemma_hex_len(n);
    lemma_numeral_shape(n, 16);
    assert(t.subrange(z, l) =~= h);
    assert forall|k: int| p <= k < p + z implies #[trigger] s[k] == '0' by {
        assert(s[k] == t[k - p]);
    }
    assert(s.subrange(p + z, p + l) =~= h);
    lemma_numeral_value(s, p + z, n, 16);
    assert forall|k: int| p <= k < p + l implies digit_value(#[trigger] s[k], 16) is Some by {
        if k < p + z {
            assert(s[k] == '0');
        }
    }
    lemma_digits_end_at(s, p, p + l, 16);
    lemma_zeros_value(s, p, z, p + l, 16);
}

/// No IPv4 address starts at a run of hexadecimal digits that is followed by
/// neither a digit nor a `.`.
proof fn lemma_no_ipv4_at_digits(s: Seq<char>, p: int, q: int)
    requires
        0 <= p < q < s.len(),
        forall|k: int| p <= k < q ==> digit_value(#[trigger] s[k], 16) is Some,
        digit_value(s[q], 16) is None,
        s[q] != '.',
    ensures
        read_ipv4(s, p) is None,
{
    lemma_not_hex_not_decimal(s[q]);
    crate::address::lemma_digits_end(s, p, 10);
    lemma_ipv4_needs_dot(s, p);
    let de = digits_end(s, p, 10);
    if de > q {
        assert(digit_value(s[q], 10) is Some);
    }
    if de < q {
        assert(digit_value(s[de], 16) is Some);
        assert(digit_value('.', 16) is None);
    }
}

/// The text of padded groups, after a colon unless they come first in the
/// run.
pub open spec fn padded_run_text(g: Seq<u16>, w: Seq<nat>, first: bool) -> Seq<char> {
    if first {
        padded_groups(g, w)
    } else {
        seq![':'] + padded_groups(g, w)
    }
}

/// Groups written with leading zeros read back as a run of groups, up to
/// where the run stops.
proof fn lemma_read_groups_padded(
    s: Seq<char>,
    p: int,
    g: Seq<u16>,
    w: Seq<nat>,
    i: nat,
    limit: nat,
)
    requires
        0 <= p,
        g.len() >= 1,
        group_widths(w, g.len()),
        i + g.len() <= limit,
        p + padded_run_text(g, w, i == 0).len() < s.len(),
        s.subrange(p, p + padded_run_text(g, w, i == 0).len()) == padded_run_text(g, w, i == 0),
        digit_value(s[p + padded_run_text(g, w, i == 0).len()], 16) is None,
        s[p + padded_run_text(g, w, i == 0).len()] != '.',
        read_groups(s, p + padded_run_text(g, w, i == 0).len(), i + g.len(), limit) == (
            Seq::<u16>::empty(),
            false,
            p + padded_run_text(g, w, i == 0).len(),
        ),
    ensures
        read_groups(s, p, i, limit) == (g, false, p + padded_run_text(g, w, i == 0).len()),
    decreases g.len(),
{
    let t = padded_run_text(g, w, i == 0);
    let q = p + t.len();
    let start = if i == 0 {
        p
    } else {
        p + 1
    };
    let h0 = padded_hex(g[0] as nat, w[0]);
    let e0 = start + h0.len();
    assert(w[0] <= 4);
    if i != 0 {
        assert(s[p] == t[0]);
    }
    if g.len() == 1 {
        assert(padded_groups(g, w) == h0);
        assert(e0 == q);
        assert(s.subrange(start, e0) =~= t.subrange(start - p, e0 - p));
    } else {
        let rest = g.drop_first();
        let wr = w.drop_first();
        assert(group_widths(wr, rest.len())) by {
            assert forall|k: int| 0 <= k < wr.len() implies #[trigger] wr[k] <= 4 by {
                assert(wr[k] == w[k + 1]);
            }
        }
        assert(t =~= (if i == 0 {
            seq![]
        } else {
            seq![':']
        }) + h0 + padded_run_text(rest, wr, false));
        assert(s.subrange(start, e0) =~= t.subrange(start - p, e0 - p));
        assert(s[e0] == t[e0 - p]);
        assert(s[e0] == ':');
        assert(s.subrange(e0, q) =~= t.subrange(e0 - p, t.len() as int));
        assert(t.subrange(e0 - p, t.len() as int) =~= padded_run_text(rest, wr, false));
        lemma_read_groups_padded(s, e0, rest, wr, i + 1, limit);
    }
    assert(s.subrange(start, e0) =~= h0);
    lemma_read_padded_group(s, start, g[0] as nat, w[0]);
    lemma_no_ipv4_at_digits(s, start, e0);
    if g.len() > 1 {
        assert(seq![g[0]] + g.drop_first() =~= g);
    } else {
        assert(seq![g[0]] + Seq::<u16>::empty() =~= g);
    }
}

/// The text `[groups]:port` of eight groups, each padded to its width.
pub open spec fn padded_v6_text(g: Seq<u16>, w: Seq<nat>, port: u16) -> Seq<char> {
    seq!['['] + padded_groups(g, w) + v6_suffix(port, 0)
}

/// The text `[head::tail]:port`, the groups of head and tail each padded
/// to its width.
pub open spec fn padded_v6_compressed_text(
    hd: Seq<u16>,
    wh: Seq<nat>,
    tl: Seq<u16>,
    wt: Seq<nat>,
    port: u16,
) -> Seq<char> {
    seq!['['] + padded_groups(hd, wh) + seq![':', ':'] + padded_groups(tl, wt) + v6_suffix(port, 0)
}

/// No padding: every width 0.
pub open spec fn no_padding(n: nat) -> Seq<nat> {
    Seq::new(n, |k: int| 0nat)
}

proof fn lemma_no_padding(n: nat)
    ensures
        group_widths(no_padding(n), n),
{
}

proof fn lemma_padded_plain(g: Seq<u16>, w: Seq<nat>, port: u16)
    requires
        g.len() == 8,
        group_widths(w, 8),
    ensures
        socket_address_of(padded_v6_text(g, w, port)) == Some(
            SocketAddress::V6 { ip: crate::address::ipv6_from(g), port, flowinfo: 0, scope_id: 0 },
        ),
{
    let s = padded_v6_text(g, w, port);
    let pg = padded_groups(g, w);
    let q: int = 1int + pg.len();
    let suf = v6_suffix(port, 0);
    assert(suf[0] == ']');
    assert(s[q] == suf[0]);
    assert(s.subrange(1, q) =~= pg);
    assert(s.subrange(q, s.len() as int) =~= suf);
    lemma_groups_stop(s, q, 8, 8);
    lemma_read_groups_padded(s, 1, g, w, 0, 8);
    lemma_socket_v6_after_address(s, q, g, port, 0);
}

/// Law: leading zeros in the groups of an IPv6 address do not change what
/// is read. The eight groups `g`, each written in hexadecimal with any
/// number of leading zeros up to four digits, in `[...]:port`, read as the
/// socket address with segments `g`, just as when written without them.
pub proof fn lemma_ipv6_leading_zeros(g: Seq<u16>, w: Seq<nat>, port: u16)
    requires
        g.len() == 8,
        group_widths(w, 8),
    ensures
        socket_address_of(padded_v6_text(g, w, port)) == Some(
            SocketAddress::V6 { ip: crate::address::ipv6_from(g), port, flowinfo: 0, scope_id: 0 },
        ),
        socket_address_of(padded_v6_text(g, w, port)) == socket_address_of(
            padded_v6_text(g, no_padding(8), port),
        ),
{
    lemma_padded_plain(g, w, port);
    lemma_no_padding(8);
    lemma_padded_plain(g, no_padding(8), port);
}

#[verifier::rlimit(50)]
proof fn lemma_padded_compressed(
    hd: Seq<u16>,
    wh: Seq<nat>,
    tl: Seq<u16>,
    wt: Seq<nat>,
    port: u16,
)
    requires
        hd.len() + tl.len() <= 7,
        group_widths(wh, hd.len()),
        group_widths(wt, tl.len()),
    ensures
        socket_address_of(padded_v6_compressed_text(hd, wh, tl, wt, port)) == Some(
            SocketAddress::V6 {
                ip: crate::address::ipv6_from(
                    hd + Seq::new((8 - hd.len() - tl.len()) as nat, |k: int| 0u16) + tl,
                ),
                port,
                flowinfo: 0,
                scope_id: 0,
            },
        ),
{
    let s = padded_v6_compressed_text(hd, wh, tl, wt, port);
    let th = padded_groups(hd, wh);
    let tt = padded_groups(tl, wt);
    let suf = v6_suffix(port, 0);
    let qh: int = 1int + th.len();
    let q: int = qh + 2 + tt.len();
    let h = hd.len();
    assert(s =~= seq!['['] + th + seq![':', ':'] + tt + suf);
    assert(s[qh] == ':');
    assert(s[qh + 1] == ':');
    assert(suf[0] == ']');
    assert(s[q] == suf[0]);
    assert(s.subrange(q, s.len() as int) =~= suf);
    // The head stops at the double colon.
    lemma_groups_stop(s, qh, h, 8);
    if h > 0 {
        assert(s.subrange(1, qh) =~= th);
        lemma_read_groups_padded(s, 1, hd, wh, 0, 8);
    }
    let head = read_groups(s, 1, 0, 8);
    assert(head == (hd, false, qh));
    // The tail stops at the bracket.
    lemma_groups_stop(s, q, tl.len(), (7 - h) as nat);
    if tl.len() > 0 {
        assert(s.subrange(qh + 2, q) =~= tt);
        lemma_read_groups_padded(s, qh + 2, tl, wt, 0, (7 - h) as nat);
    } else {
        assert(qh + 2 == q);
        lemma_groups_stop(s, q, 0, (7 - h) as nat);
    }
    let tail = read_groups(s, qh + 2, 0, (7 - h) as nat);
    assert(tail == (tl, false, q));
    let g = hd + Seq::new((8 - h - tl.len()) as nat, |k: int| 0u16) + tl;
    assert(read_ipv6(s, 1) == Some((g, q)));
    lemma_socket_v6_after_address(s, q, g, port, 0);
}

/// Law: leading zeros in the groups of a compressed IPv6 address (groups,
/// `::` standing for the zero groups left, groups) do not change what is
/// read: `[head::tail]:port` with every group written with any number of
/// leading zeros up to four digits reads as the socket address whose
/// segments are the head, the zero groups and the tail, just as when the
/// groups are written without them (`[2001:0db8::1]:9000` reads as
/// `[2001:db8::1]:9000` does).
pub proof fn lemma_ipv6_compressed_leading_zeros(
    hd: Seq<u16>,
    wh: Seq<nat>,
    tl: Seq<u16>,
    wt: Seq<nat>,
    port: u16,
)
    requires
        hd.len() + tl.len() <= 7,
        group_widths(wh, hd.len()),
        group_widths(wt, tl.len()),
    ensures
        socket_address_of(padded_v6_compressed_text(hd, wh, tl, wt, port)) == Some(
            SocketAddress::V6 {
                ip: crate::address::ipv6_from(
                    hd + Seq::new((8 - hd.len() - tl.len()) as nat, |k: int| 0u16) + tl,
                ),
                port,
                flowinfo: 0,
                scope_id: 0,
            },
        ),
        socket_address_of(padded_v6_compressed_text(hd, wh, tl, wt, port)) == socket_address_of(
            padded_v6_compressed_text(hd, no_padding(hd.len()), tl, no_padding(tl.len()), port),
        ),
{
    lemma_padded_compressed(hd, wh, tl, wt, port);
    lemma_no_padding(hd.len());
    lemma_no_padding(tl.len());
    lemma_padded_compressed(hd, no_padding(hd.len()), tl, no_padding(tl.len()), port);
}


} // verus!
