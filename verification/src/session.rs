//! A client's TCP connection as a whole: the server reads its lines one by
//! one ([`crate::command::handle_line`]), answers each line that is not
//! blank, and stops reading after the first `STREAM` command it accepts,
//! which registers the client.
use vstd::prelude::*;

use crate::address::SocketAddress;
use crate::command::handle_line;
use crate::command::line_request;
use crate::command::texts;
use crate::command::LineOutcome;
use crate::command::ERROR_REPLY;
use crate::command::OK_REPLY;
use crate::registry::Registry;
use crate::text::trim;

verus! {

/// A reply the server writes on a client's connection.
#[derive(Clone, Copy, Debug, PartialEq, Eq, Structural)]
pub enum Reply {
    /// [`OK_REPLY`]: the client is registered.
    Accepted,
    /// [`ERROR_REPLY`]: the line was not a `STREAM` command.
    Rejected,
}

impl Reply {
    /// The text written for the reply.
    pub fn text(&self) -> (r: &'static str)
        ensures
            r == (match *self {
                Reply::Accepted => OK_REPLY,
                Reply::Rejected => ERROR_REPLY,
            }),
    {
        match *self {
            Reply::Accepted => OK_REPLY,
            Reply::Rejected => ERROR_REPLY,
        }
    }
}

/// Whether `line` is a `STREAM` command that the server accepts.
pub open spec fn subscribes(line: Seq<char>) -> bool {
    line_request(line) matches Some(Some(_))
}

/// What the server makes of a connection's lines from the `i`-th on: the
/// replies it writes, in order; the subscription it registers, if any; and
/// how many lines it has read when it stops, which is just after the line
/// that subscribes, or at the end of the lines.
pub open spec fn session_from(lines: Seq<Seq<char>>, i: nat) -> (
    Seq<Reply>,
    Option<(SocketAddress, Seq<Seq<char>>)>,
    nat,
)
    decreases lines.len() - i,
{
    if i >= lines.len() {
        (seq![], None, lines.len())
    } else {
        match line_request(lines[i as int]) {
            None => session_from(lines, i + 1),
            Some(None) => {
                let r = session_from(lines, i + 1);
                (seq![Reply::Rejected] + r.0, r.1, r.2)
            },
            Some(Some(sub)) => (seq![Reply::Accepted], Some(sub), i + 1),
        }
    }
}

/// What the server makes of all of a connection's lines, per
/// [`session_from`].
pub open spec fn session(lines: Seq<Seq<char>>) -> (
    Seq<Reply>,
    Option<(SocketAddress, Seq<Seq<char>>)>,
    nat,
) {
    session_from(lines, 0)
}

/// One [`Reply::Rejected`] for each line of `ls` that is neither blank nor
/// a `STREAM` command the server accepts, in order.
pub open spec fn rejections(ls: Seq<Seq<char>>) -> Seq<Reply>
    decreases ls.len(),
{
    if ls.len() == 0 {
        seq![]
    } else {
        let r = rejections(ls.drop_first());
        if line_request(ls[0]) == Some(None::<(SocketAddress, Seq<Seq<char>>)>) {
            seq![Reply::Rejected] + r
        } else {
            r
        }
    }
}

/// Serves a connection's lines in order, per [`session`]: gives the replies
/// written and how many lines were read, and registers the subscription,
/// if there is one, in `registry`. Lines after the accepted command are not
/// read.
pub fn serve_session(registry: &mut Registry, lines: &Vec<String>) -> (r: (Vec<Reply>, usize))
    ensures
        r.0@ == session(texts(lines@)).0,
        r.1 == session(texts(lines@)).2,
        final(registry).subs() == (match session(texts(lines@)).1 {
            Some(sub) => old(registry).subs().push(sub),
            None => old(registry).subs(),
        }),
        final(registry).pings() == old(registry).pings(),
{
    let ghost ls = texts(lines@);
    let mut replies: Vec<Reply> = Vec::new();
    let mut i: usize = 0;
    while i < lines.len()
        invariant
            ls == texts(lines@),
            i <= lines@.len(),
            *registry == *old(registry),
            session(ls) == ({
                let r = session_from(ls, i as nat);
                (replies@ + r.0, r.1, r.2)
            }),
        decreases lines@.len() - i,
    {
        assert(ls[i as int] == lines@[i as int]@);
        match handle_line(lines[i].as_str()) {
            LineOutcome::Skip => {
                i = i + 1;
            },
            LineOutcome::Reject => {
                let ghost before = replies@;
                replies.push(Reply::Rejected);
                assert(before + (seq![Reply::Rejected] + session_from(ls, (i + 1) as nat).0)
                    =~= replies@ + session_from(ls, (i + 1) as nat).0);
                i = i + 1;
            },
            LineOutcome::Subscribe(sub) => {
                registry.subscribe(sub);
                replies.push(Reply::Accepted);
                return (replies, i + 1);
            },
        }
    }
    assert(replies@ + Seq::<Reply>::empty() =~= replies@);
    (replies, i)
}

/// `session_from` keeps a shape: every reply but the last is a rejection,
/// the last is an acceptance exactly when there is a subscription, and no
/// more lines are read than there are.
proof fn lemma_session_from_shape(lines: Seq<Seq<char>>, i: nat)
    ensures
        ({
            let r = session_from(lines, i);
            &&& r.2 <= lines.len()
            &&& r.1 is Some <==> (r.0.len() > 0 && r.0.last() == Reply::Accepted)
            &&& forall|j: int| 0 <= j < r.0.len() - 1 ==> r.0[j] == Reply::Rejected
        }),
    decreases lines.len() - i,
{
    if i < lines.len() {
        lemma_session_from_shape(lines, i + 1);
        let r = session_from(lines, i + 1);
        if line_request(lines[i as int]) == Some(None::<(SocketAddress, Seq<Seq<char>>)>) {
            let s = seq![Reply::Rejected] + r.0;
            assert forall|j: int| 0 <= j < s.len() - 1 implies s[j] == Reply::Rejected by {
                if j > 0 {
                    assert(s[j] == r.0[j - 1]);
                }
            }
            if r.0.len() > 0 {
                assert(s.last() == r.0.last());
            }
        }
    }
}

/// Law: the server accepts at most one command per connection, and the
/// acceptance comes last: the replies are rejections, followed by
/// [`Reply::Accepted`] exactly when a client is registered; and the server
/// reads no more lines than the connection brings.
pub proof fn lemma_session_shape(lines: Seq<Seq<char>>)
    ensures
        session(lines).2 <= lines.len(),
        session(lines).1 is Some <==> (session(lines).0.len() > 0 && session(lines).0.last()
            == Reply::Accepted),
        forall|j: int|
            0 <= j < session(lines).0.len() - 1 ==> session(lines).0[j] == Reply::Rejected,
{
    lemma_session_from_shape(lines, 0);
}

proof fn lemma_session_from_accepts(lines: Seq<Seq<char>>, i: nat, k: nat)
    requires
        i <= k < lines.len(),
        subscribes(lines[k as int]),
        forall|j: int| 0 <= j < k ==> !subscribes(#[trigger] lines[j]),
    ensures
        session_from(lines, i) == (
            rejections(lines.subrange(i as int, k as int)).push(Reply::Accepted),
            line_request(lines[k as int]).unwrap(),
            k + 1,
        ),
    decreases k - i,
{
    let ls = lines.subrange(i as int, k as int);
    if i == k {
        assert(ls.len() == 0);
        assert(rejections(ls).push(Reply::Accepted) =~= seq![Reply::Accepted]);
    } else {
        lemma_session_from_accepts(lines, i + 1, k);
        assert(!subscribes(lines[i as int]));
        assert(ls[0] == lines[i as int]);
        assert(ls.drop_first() =~= lines.subrange((i + 1) as int, k as int));
        let rest = rejections(lines.subrange((i + 1) as int, k as int));
        assert((seq![Reply::Rejected] + rest).push(Reply::Accepted) =~= seq![Reply::Rejected]
            + rest.push(Reply::Accepted));
    }
}

/// Law: when the `k`-th line is the first that the server accepts, the
/// server writes one rejection for each line before it that is not blank,
/// in order, then [`Reply::Accepted`]; it registers that line's
/// subscription and reads no line after it.
pub proof fn lemma_session_accepts(lines: Seq<Seq<char>>, k: nat)
    requires
        k < lines.len(),
        subscribes(lines[k as int]),
        forall|j: int| 0 <= j < k ==> !subscribes(#[trigger] lines[j]),
    ensures
        session(lines) == (
            rejections(lines.take(k as int)).push(Reply::Accepted),
            line_request(lines[k as int]).unwrap(),
            k + 1,
        ),
{
    lemma_session_from_accepts(lines, 0, k);
    assert(lines.subrange(0, k as int) =~= lines.take(k as int));
}

proof fn lemma_session_from_none(lines: Seq<Seq<char>>, i: nat)
    requires
        i <= lines.len(),
        forall|j: int| 0 <= j < lines.len() ==> !subscribes(#[trigger] lines[j]),
    ensures
        session_from(lines, i) == (rejections(lines.skip(i as int)), None::<
            (SocketAddress, Seq<Seq<char>>),
        >, lines.len()),
    decreases lines.len() - i,
{
    let ls = lines.skip(i as int);
    if i == lines.len() {
        assert(ls.len() == 0);
    } else {
        lemma_session_from_none(lines, i + 1);
        assert(!subscribes(lines[i as int]));
        assert(ls[0] == lines[i as int]);
        assert(ls.drop_first() =~= lines.skip((i + 1) as int));
    }
}

/// Law: when the server accepts none of the lines, it registers nobody,
/// reads every line, and writes one rejection for each line that is not
/// blank, in order.
pub proof fn lemma_session_rejects(lines: Seq<Seq<char>>)
    requires
        forall|j: int| 0 <= j < lines.len() ==> !subscribes(#[trigger] lines[j]),
    ensures
        session(lines) == (rejections(lines), None::<(SocketAddress, Seq<Seq<char>>)>, lines.len()),
{
    lemma_session_from_none(lines, 0);
    assert(lines.skip(0) =~= lines);
}

/// A connection whose lines from `p` on are those of another from `q` on is
/// served the same from there.
proof fn lemma_session_from_shift(a: Seq<Seq<char>>, b: Seq<Seq<char>>, p: nat, q: nat)
    requires
        p <= a.len(),
        q <= b.len(),
        a.skip(p as int) == b.skip(q as int),
    ensures
        session_from(a, p).0 == session_from(b, q).0,
        session_from(a, p).1 == session_from(b, q).1,
    decreases a.len() - p,
{
    assert(a.skip(p as int).len() == a.len() - p);
    assert(b.skip(q as int).len() == b.len() - q);
    if p < a.len() {
        assert(a[p as int] == a.skip(p as int)[0]);
        assert(b[q as int] == b.skip(q as int)[0]);
        assert(a.skip((p + 1) as int) =~= a.skip(p as int).drop_first());
        assert(b.skip((q + 1) as int) =~= b.skip(q as int).drop_first());
        lemma_session_from_shift(a, b, p + 1, q + 1);
    } else {
        assert(q == b.len());
    }
}

proof fn lemma_session_from_blank(lines: Seq<Seq<char>>, p: nat, blank: Seq<char>, i: nat)
    requires
        trim(blank).len() == 0,
        i <= p <= lines.len(),
    ensures
        session_from(lines.insert(p as int, blank), i).0 == session_from(lines, i).0,
        session_from(lines.insert(p as int, blank), i).1 == session_from(lines, i).1,
    decreases p - i,
{
    let m = lines.insert(p as int, blank);
    if i == p {
        assert(m[p as int] == blank);
        assert(m.skip((p + 1) as int) =~= lines.skip(p as int));
        lemma_session_from_shift(m, lines, p + 1, p);
    } else {
        assert(m[i as int] == lines[i as int]);
        lemma_session_from_blank(lines, p, blank, i + 1);
    }
}

/// Law: blank lines change nothing. A line that is blank once trimmed,
/// inserted anywhere among a connection's lines (or, read the other way,
/// removed), leaves the replies and the registered subscription as they
/// were.
pub proof fn lemma_session_blank_line(lines: Seq<Seq<char>>, p: nat, blank: Seq<char>)
    requires
        trim(blank).len() == 0,
        p <= lines.len(),
    ensures
        session(lines.insert(p as int, blank)).0 == session(lines).0,
        session(lines.insert(p as int, blank)).1 == session(lines).1,
{
    lemma_session_from_blank(lines, p, blank, 0);
}

} // verus!
