//! The server's shared state: the clients that stream, and when each UDP
//! address last sent `PING`. Clients whose pings stop are dropped after
//! [`PING_TIMEOUT_NANOS`].
//!
//! Times are nanoseconds on a monotonic clock, counted from any fixed origin.
use vstd::prelude::*;

use crate::address::SocketAddress;
use crate::command::ClientSubscription;
use crate::text::chars_of;
use crate::text::trim;
use crate::text::trim_bounds;

verus! {

/// How long a client may stay silent before it is dropped: 5 seconds.
pub const PING_TIMEOUT_NANOS: u64 = 5_000_000_000;

/// How often the server looks for silent clients: every 1000 milliseconds.
pub const CLEANUP_INTERVAL_MILLIS: u64 = 1000;

/// A subscription as the specs see it: its address and its tickers.
pub type SubscriptionView = (SocketAddress, Seq<Seq<char>>);

/// A ping received at `last` still counts at `now`: less than the timeout
/// has passed (a ping from the future counts as just received).
pub open spec fn is_fresh(last: u64, now: u64) -> bool {
    (now as int) < (last as int) + (PING_TIMEOUT_NANOS as int)
}

/// The keys of `v` are distinct.
pub open spec fn unique_keys(v: Seq<(SocketAddress, u64)>) -> bool {
    forall|i: int, j: int| 0 <= i < j < v.len() ==> v[i].0 != v[j].0
}

/// The map that a list of (address, time) pairs with distinct addresses
/// stands for.
pub open spec fn ping_map(v: Seq<(SocketAddress, u64)>) -> Map<SocketAddress, u64> {
    Map::new(
        |a: SocketAddress| exists|i: int| 0 <= i < v.len() && v[i].0 == a,
        |a: SocketAddress| v[choose|i: int| 0 <= i < v.len() && v[i].0 == a].1,
    )
}

/// Dropping silent clients, in order, as `Vec::retain` does it: a
/// subscription whose address has a ping that is no longer fresh is
/// dropped, and so is that ping; a later subscription with the same address
/// then has no ping and stays. Gives the subscriptions left and the pings
/// left.
pub open spec fn prune(subs: Seq<SubscriptionView>, pings: Map<SocketAddress, u64>, now: u64) -> (
    Seq<SubscriptionView>,
    Map<SocketAddress, u64>,
)
    decreases subs.len(),
{
    if subs.len() == 0 {
        (subs, pings)
    } else {
        let a = subs[0].0;
        if pings.contains_key(a) && !is_fresh(pings[a], now) {
            prune(subs.drop_first(), pings.remove(a), now)
        } else {
            let r = prune(subs.drop_first(), pings, now);
            (seq![subs[0]] + r.0, r.1)
        }
    }
}

/// The addresses of the subscriptions that [`prune`] drops, in order.
pub open spec fn dropped_by_prune(
    subs: Seq<SubscriptionView>,
    pings: Map<SocketAddress, u64>,
    now: u64,
) -> Seq<SocketAddress>
    decreases subs.len(),
{
    if subs.len() == 0 {
        seq![]
    } else {
        let a = subs[0].0;
        if pings.contains_key(a) && !is_fresh(pings[a], now) {
            seq![a] + dropped_by_prune(subs.drop_first(), pings.remove(a), now)
        } else {
            dropped_by_prune(subs.drop_first(), pings, now)
        }
    }
}

/// The addresses of the subscriptions that want `ticker`, in order.
pub open spec fn recipients_of(subs: Seq<SubscriptionView>, ticker: Seq<char>) -> Seq<SocketAddress>
    decreases subs.len(),
{
    if subs.len() == 0 {
        seq![]
    } else {
        let r = recipients_of(subs.drop_last(), ticker);
        if subs.last().1.contains(ticker) {
            r.push(subs.last().0)
        } else {
            r
        }
    }
}

pub proof fn lemma_ping_map_at(v: Seq<(SocketAddress, u64)>, i: int)
    requires
        unique_keys(v),
        0 <= i < v.len(),
    ensures
        ping_map(v).contains_key(v[i].0),
        ping_map(v)[v[i].0] == v[i].1,
{
    let a = v[i].0;
    assert(exists|k: int| 0 <= k < v.len() && v[k].0 == a);
    let j = choose|k: int| 0 <= k < v.len() && v[k].0 == a;
    if j != i {
        if j < i {
            assert(v[j].0 != v[i].0);
        } else {
            assert(v[i].0 != v[j].0);
        }
    }
}

pub proof fn lemma_ping_map_absent(v: Seq<(SocketAddress, u64)>, a: SocketAddress)
    requires
        forall|i: int| 0 <= i < v.len() ==> v[i].0 != a,
    ensures
        !ping_map(v).contains_key(a),
{
}

/// Whether a message received on the UDP socket is a keep-alive: `PING`
/// once trimmed.
pub open spec fn is_ping_text(msg: Seq<char>) -> bool {
    trim(msg) == seq!['P', 'I', 'N', 'G']
}

/// Whether `msg` is a keep-alive, per [`is_ping_text`].
pub fn is_ping(msg: &str) -> (b: bool)
    ensures
        b == is_ping_text(msg@),
{
    let chars = chars_of(msg);
    let (a, z) = trim_bounds(chars.as_slice());
    let r = z - a == 4 && chars[a] == 'P' && chars[a + 1] == 'I' && chars[a + 2] == 'N' && chars[a
        + 3] == 'G';
    assert(r <==> chars@.subrange(a as int, z as int) =~= seq!['P', 'I', 'N', 'G']);
    r
}

/// The clients that stream and the last ping time of each address.
pub struct Registry {
    subscriptions: Vec<ClientSubscription>,
    pings: Vec<(SocketAddress, u64)>,
}

/// The views of a list of subscriptions.
pub open spec fn sub_views(v: Seq<ClientSubscription>) -> Seq<SubscriptionView> {
    v.map_values(|s: ClientSubscription| s.view())
}

impl Registry {
    /// The subscriptions, in the order they were registered.
    pub closed spec fn subs(&self) -> Seq<SubscriptionView> {
        sub_views(self.subscriptions@)
    }

    /// The last ping time of each address that has pinged.
    pub closed spec fn pings(&self) -> Map<SocketAddress, u64> {
        ping_map(self.pings@)
    }

    /// Each address has one ping time at most.
    #[verifier::type_invariant]
    spec fn wf(&self) -> bool {
        unique_keys(self.pings@)
    }

    /// A registry with no subscriptions and no pings.
    pub fn new() -> (r: Registry)
        ensures
            r.subs() == Seq::<SubscriptionView>::empty(),
            r.pings() == Map::<SocketAddress, u64>::empty(),
    {
        let r = Registry { subscriptions: Vec::new(), pings: Vec::new() };
        assert(r.subs() =~= Seq::<SubscriptionView>::empty());
        assert(r.pings() =~= Map::<SocketAddress, u64>::empty());
        r
    }

    /// The subscriptions, in the order they were registered.
    pub fn subscriptions(&self) -> (r: &Vec<ClientSubscription>)
        ensures
            sub_views(r@) == self.subs(),
    {
        &self.subscriptions
    }

    /// When `addr` last pinged, if it has.
    pub fn last_ping(&self, addr: &SocketAddress) -> (r: Option<u64>)
        ensures
            r == (if self.pings().contains_key(*addr) {
                Some(self.pings()[*addr])
            } else {
                None
            }),
    {
        proof {
            use_type_invariant(self);
        }
        match ping_lookup(&self.pings, addr) {
            Some((_, t)) => Some(t),
            None => None,
        }
    }

    /// Records that `addr` pinged at `now`; an earlier time for it is
    /// replaced.
    pub fn record_ping(&mut self, addr: SocketAddress, now: u64)
        ensures
            final(self).subs() == old(self).subs(),
            final(self).pings() == old(self).pings().insert(addr, now),
    {
        proof {
            use_type_invariant(&*self);
        }
        let mut pings: Vec<(SocketAddress, u64)> = Vec::new();
        std::mem::swap(&mut pings, &mut self.pings);
        set_ping(&mut pings, addr, now);
        self.pings = pings;
    }

    /// Registers a client that subscribed; it streams from now on.
    pub fn subscribe(&mut self, sub: ClientSubscription)
        ensures
            final(self).subs() == old(self).subs().push(sub.view()),
            final(self).pings() == old(self).pings(),
    {
        proof {
            use_type_invariant(&*self);
        }
        let ghost old_subs = self.subscriptions@;
        let ghost view = sub.view();
        let mut subs: Vec<ClientSubscription> = Vec::new();
        std::mem::swap(&mut subs, &mut self.subscriptions);
        subs.push(sub);
        self.subscriptions = subs;
        assert(sub_views(self.subscriptions@) =~= sub_views(old_subs).push(view));
    }

    /// Records `now` as the ping time of the most recently registered
    /// subscription's address, so that a new client has the full timeout to
    /// start pinging. Nothing changes when there is no subscription.
    pub fn touch_last(&mut self, now: u64)
        ensures
            final(self).subs() == old(self).subs(),
            final(self).pings() == (if old(self).subs().len() == 0 {
                old(self).pings()
            } else {
                old(self).pings().insert(old(self).subs().last().0, now)
            }),
    {
        let n = self.subscriptions.len();
        if n > 0 {
            let addr = self.subscriptions[n - 1].udp_addr;
            self.record_ping(addr, now);
        }
    }

    /// The addresses that a quote for `ticker` goes to: those of the
    /// subscriptions that want it, in order.
    pub fn recipients(&self, ticker: &str) -> (r: Vec<SocketAddress>)
        ensures
            r@ == recipients_of(self.subs(), ticker@),
    {
        let t: String = ticker.to_owned();
        let mut out: Vec<SocketAddress> = Vec::new();
        let mut k: usize = 0;
        while k < self.subscriptions.len()
            invariant
                k <= self.subscriptions@.len(),
                t@ == ticker@,
                out@ == recipients_of(sub_views(self.subscriptions@).take(k as int), ticker@),
            decreases self.subscriptions@.len() - k,
        {
            let ghost pre = sub_views(self.subscriptions@).take(k + 1);
            assert(pre.drop_last() =~= sub_views(self.subscriptions@).take(k as int));
            assert(pre.last() == self.subscriptions@[k as int].view());
            if crate::command::contains_text(&self.subscriptions[k].tickers, &t) {
                out.push(self.subscriptions[k].udp_addr);
            }
            k = k + 1;
        }
        assert(sub_views(self.subscriptions@).take(self.subscriptions@.len() as int)
            =~= sub_views(self.subscriptions@));
        out
    }

    /// Drops the clients that stopped pinging, per [`prune`]: a
    /// subscription whose address last pinged `PING_TIMEOUT_NANOS` or more
    /// before `now` is dropped together with that ping time; the others stay
    /// in order. Gives the addresses of the dropped subscriptions, in order.
    pub fn drop_silent(&mut self, now: u64) -> (dropped: Vec<SocketAddress>)
        ensures
            (final(self).subs(), final(self).pings()) == prune(
                old(self).subs(),
                old(self).pings(),
                now,
            ),
            dropped@ == dropped_by_prune(old(self).subs(), old(self).pings(), now),
            forall|b: SocketAddress| #[trigger]
                final(self).pings().contains_key(b) <==> (old(self).pings().contains_key(b)
                    && !dropped@.contains(b)),
            forall|b: SocketAddress| #[trigger]
                final(self).pings().contains_key(b) ==> final(self).pings()[b] == old(
                    self,
                ).pings()[b],
    {
        proof {
            use_type_invariant(&*self);
        }
        let mut subs: Vec<ClientSubscription> = Vec::new();
        let mut pings: Vec<(SocketAddress, u64)> = Vec::new();
        std::mem::swap(&mut subs, &mut self.subscriptions);
        std::mem::swap(&mut pings, &mut self.pings);
        let mut dropped: Vec<SocketAddress> = Vec::new();
        let ghost old_subs = sub_views(subs@);
        let ghost old_pings = ping_map(pings@);
        let mut i: usize = 0;
        let ghost mut done: nat = 0;
        proof {
            let r = prune(old_subs, old_pings, now);
            assert(old_subs.skip(0) =~= old_subs);
            assert(dropped@ + dropped_by_prune(old_subs, old_pings, now) =~= dropped_by_prune(
                old_subs,
                old_pings,
                now,
            ));
            assert(sub_views(subs@).take(0) + r.0 =~= r.0);
            assert(sub_views(subs@).subrange(0, subs@.len() as int)
                =~= old_subs);
        }
        while i < subs.len()
            invariant
                unique_keys(pings@),
                i <= subs@.len(),
                done <= old_subs.len(),
                sub_views(subs@).subrange(i as int, subs@.len() as int)
                    == old_subs.skip(done as int),
                dropped_by_prune(old_subs, old_pings, now) == dropped@ + dropped_by_prune(
                    old_subs.skip(done as int),
                    ping_map(pings@),
                    now,
                ),
                prune(old_subs, old_pings, now) == ({
                    let r = prune(old_subs.skip(done as int), ping_map(pings@), now);
                    (sub_views(subs@).take(i as int) + r.0, r.1)
                }),
            decreases subs@.len() - i,
        {
            let ghost views = sub_views(subs@);
            let ghost rest = old_subs.skip(done as int);
            assert(rest[0] == views[i as int]);
            assert(rest.drop_first() =~= old_subs.skip(done + 1 as int));
            let addr = subs[i].udp_addr;
            let ghost pm = ping_map(pings@);
            let last = ping_lookup(&pings, &addr);
            let expired = match last {
                Some((k, t)) => !(now < t || now - t < PING_TIMEOUT_NANOS),
                None => false,
            };
            if expired {
                let ghost before = dropped@;
                dropped.push(addr);
                assert(before + dropped_by_prune(rest, pm, now) =~= dropped@ + dropped_by_prune(
                    rest.drop_first(),
                    pm.remove(addr),
                    now,
                ));
                let (k, t) = last.unwrap();
                let ghost old_v = pings@;
                pings.remove(k);
                proof {
                    lemma_ping_map_remove(old_v, k as int);
                }
                subs.remove(i);
                assert(sub_views(subs@) =~= views.remove(i as int));
                assert(sub_views(subs@).take(i as int) =~= views.take(i as int));
                assert(sub_views(subs@).subrange(
                    i as int,
                    subs@.len() as int,
                ) =~= views.subrange(i + 1, views.len() as int));
                assert(views.subrange(i + 1, views.len() as int) =~= views.subrange(
                    i as int,
                    views.len() as int,
                ).drop_first());
            } else {
                assert(views.take(i + 1) =~= views.take(i as int) + seq![views[i as int]]);
                assert(views.subrange(i + 1, views.len() as int) =~= views.subrange(
                    i as int,
                    views.len() as int,
                ).drop_first());
                i = i + 1;
            }
            proof {
                done = done + 1;
            }
        }
        self.subscriptions = subs;
        self.pings = pings;
        proof {
            lemma_prune_pings(old_subs, old_pings, now);
            let views = sub_views(self.subscriptions@);
            assert(views.take(i as int) =~= views);
            assert(old_subs.skip(done as int).len() == 0);
            assert(dropped@ + Seq::<SocketAddress>::empty() =~= dropped@);
        }
        dropped
    }
}

/// Where `addr` stands in a list of ping times.
fn ping_index(pings: &Vec<(SocketAddress, u64)>, addr: &SocketAddress) -> (r: Option<usize>)
    ensures
        match r {
            Some(k) => k < pings@.len() && pings@[k as int].0 == *addr,
            None => forall|i: int| 0 <= i < pings@.len() ==> pings@[i].0 != *addr,
        },
{
    let mut k: usize = 0;
    while k < pings.len()
        invariant
            k <= pings@.len(),
            forall|i: int| 0 <= i < k ==> pings@[i].0 != *addr,
        decreases pings@.len() - k,
    {
        if pings[k].0 == *addr {
            return Some(k);
        }
        k = k + 1;
    }
    None
}

/// Where `addr` stands in a list of ping times and its time there.
fn ping_lookup(pings: &Vec<(SocketAddress, u64)>, addr: &SocketAddress) -> (r: Option<(usize, u64)>)
    requires
        unique_keys(pings@),
    ensures
        match r {
            Some((k, t)) => k < pings@.len() && pings@[k as int] == (*addr, t)
                && ping_map(pings@).contains_key(*addr) && ping_map(pings@)[*addr] == t,
            None => !ping_map(pings@).contains_key(*addr),
        },
{
    match ping_index(pings, addr) {
        Some(k) => {
            proof {
                lemma_ping_map_at(pings@, k as int);
            }
            Some((k, pings[k].1))
        },
        None => {
            proof {
                lemma_ping_map_absent(pings@, *addr);
            }
            None
        },
    }
}

/// Sets the ping time of `addr` in a list of ping times to `now`.
fn set_ping(pings: &mut Vec<(SocketAddress, u64)>, addr: SocketAddress, now: u64)
    requires
        unique_keys(old(pings)@),
    ensures
        unique_keys(final(pings)@),
        ping_map(final(pings)@) == ping_map(old(pings)@).insert(addr, now),
{
    let ghost old_v = pings@;
    let ghost target = ping_map(old_v).insert(addr, now);
    match ping_index(pings, &addr) {
        Some(k) => {
            pings.set(k, (addr, now));
            let ghost v = pings@;
            assert(v =~= old_v.update(k as int, (addr, now)));
            assert(unique_keys(v)) by {
                assert forall|i: int, j: int| 0 <= i < j < v.len() implies v[i].0 != v[j].0 by {
                    assert(old_v[i].0 != old_v[j].0);
                }
            }
            assert forall|b: SocketAddress| #![trigger ping_map(v).contains_key(b)]
                ping_map(v).contains_key(b) == target.contains_key(b) && (ping_map(v).contains_key(
                    b,
                ) ==> ping_map(v)[b] == target[b]) by {
                if b == addr {
                    lemma_ping_map_at(v, k as int);
                } else if exists|i: int| 0 <= i < old_v.len() && old_v[i].0 == b {
                    let i = choose|i: int| 0 <= i < old_v.len() && old_v[i].0 == b;
                    lemma_ping_map_at(old_v, i);
                    lemma_ping_map_at(v, i);
                } else {
                    assert forall|i: int| 0 <= i < v.len() implies v[i].0 != b by {
                        if i != k {
                            assert(v[i] == old_v[i]);
                        }
                    }
                }
            }
            assert(ping_map(v) =~= target);
        },
        None => {
            pings.push((addr, now));
            let ghost v = pings@;
            assert(unique_keys(v)) by {
                assert forall|i: int, j: int| 0 <= i < j < v.len() implies v[i].0 != v[j].0 by {
                    if j < old_v.len() {
                        assert(old_v[i].0 != old_v[j].0);
                    } else {
                        assert(v[i] == old_v[i]);
                    }
                }
            }
            assert forall|b: SocketAddress| #![trigger ping_map(v).contains_key(b)]
                ping_map(v).contains_key(b) == target.contains_key(b) && (ping_map(v).contains_key(
                    b,
                ) ==> ping_map(v)[b] == target[b]) by {
                if b == addr {
                    lemma_ping_map_at(v, old_v.len() as int);
                } else if exists|i: int| 0 <= i < old_v.len() && old_v[i].0 == b {
                    let i = choose|i: int| 0 <= i < old_v.len() && old_v[i].0 == b;
                    lemma_ping_map_at(old_v, i);
                    lemma_ping_map_at(v, i);
                } else {
                    assert forall|i: int| 0 <= i < v.len() implies v[i].0 != b by {
                        if i < old_v.len() {
                            assert(v[i] == old_v[i]);
                        }
                    }
                }
            }
            assert(ping_map(v) =~= target);
        },
    }
}

/// Removing the entry at `k` removes its key from the map.
pub proof fn lemma_ping_map_remove(v: Seq<(SocketAddress, u64)>, k: int)
    requires
        unique_keys(v),
        0 <= k < v.len(),
    ensures
        unique_keys(v.remove(k)),
        ping_map(v.remove(k)) == ping_map(v).remove(v[k].0),
{
    let w = v.remove(k);
    assert forall|i: int, j: int| 0 <= i < j < w.len() implies w[i].0 != w[j].0 by {
        let i2 = if i < k {
            i
        } else {
            i + 1
        };
        let j2 = if j < k {
            j
        } else {
            j + 1
        };
        assert(w[i] == v[i2]);
        assert(w[j] == v[j2]);
        assert(v[i2].0 != v[j2].0);
    }
    assert forall|b: SocketAddress| #![trigger ping_map(w).contains_key(b)]
        ping_map(w).contains_key(b) == ping_map(v).remove(v[k].0).contains_key(b) && (ping_map(
            w,
        ).contains_key(b) ==> ping_map(w)[b] == ping_map(v).remove(v[k].0)[b]) by {
        if exists|i: int| 0 <= i < w.len() && w[i].0 == b {
            let i = choose|i: int| 0 <= i < w.len() && w[i].0 == b;
            let i2 = if i < k {
                i
            } else {
                i + 1
            };
            assert(w[i] == v[i2]);
            lemma_ping_map_at(w, i);
            lemma_ping_map_at(v, i2);
            assert(v[i2].0 != v[k].0);
        } else {
            if b != v[k].0 && ping_map(v).contains_key(b) {
                let i2 = choose|i: int| 0 <= i < v.len() && v[i].0 == b;
                let i = if i2 < k {
                    i2
                } else {
                    i2 - 1
                };
                assert(w[i] == v[i2]);
            }
        }
    }
    assert(ping_map(w) =~= ping_map(v).remove(v[k].0));
}

// ---------------------------------------------------------------------------
// Laws of dropping silent clients
// ---------------------------------------------------------------------------
/// A subscription's ping, if any, still counts.
pub open spec fn is_live(pings: Map<SocketAddress, u64>, a: SocketAddress, now: u64) -> bool {
    !pings.contains_key(a) || is_fresh(pings[a], now)
}

/// Dropping keeps subscriptions from the list only, and ping times from the
/// map only, each unchanged.
pub proof fn lemma_prune_shrinks(subs: Seq<SubscriptionView>, pings: Map<SocketAddress, u64>, now: u64)
    ensures
        forall|j: int|
            0 <= j < prune(subs, pings, now).0.len() ==> subs.contains(
                #[trigger] prune(subs, pings, now).0[j],
            ),
        forall|b: SocketAddress| #[trigger]
            prune(subs, pings, now).1.contains_key(b) ==> pings.contains_key(b) && prune(
                subs,
                pings,
                now,
            ).1[b] == pings[b],
    decreases subs.len(),
{
    if subs.len() > 0 {
        let a = subs[0].0;
        let rest = subs.drop_first();
        if pings.contains_key(a) && !is_fresh(pings[a], now) {
            lemma_prune_shrinks(rest, pings.remove(a), now);
            let r = prune(rest, pings.remove(a), now);
            assert forall|j: int| 0 <= j < r.0.len() implies subs.contains(#[trigger] r.0[j]) by {
                let k = choose|k: int| 0 <= k < rest.len() && rest[k] == r.0[j];
                assert(subs[k + 1] == rest[k]);
            }
        } else {
            lemma_prune_shrinks(rest, pings, now);
            let r = prune(rest, pings, now);
            let out = seq![subs[0]] + r.0;
            assert forall|j: int| 0 <= j < out.len() implies subs.contains(#[trigger] out[j]) by {
                if j == 0 {
                    assert(subs[0] == out[0]);
                } else {
                    assert(out[j] == r.0[j - 1]);
                    let k = choose|k: int| 0 <= k < rest.len() && rest[k] == r.0[j - 1];
                    assert(subs[k + 1] == rest[k]);
                }
            }
        }
    }
}

/// Law: dropping silent clients removes the ping times of the dropped
/// subscriptions' addresses and no other: an address keeps its ping time,
/// unchanged, exactly when it had one and no dropped subscription has it.
pub proof fn lemma_prune_pings(subs: Seq<SubscriptionView>, pings: Map<SocketAddress, u64>, now: u64)
    ensures
        forall|b: SocketAddress| #[trigger]
            prune(subs, pings, now).1.contains_key(b) <==> (pings.contains_key(b)
                && !dropped_by_prune(subs, pings, now).contains(b)),
        forall|b: SocketAddress| #[trigger]
            prune(subs, pings, now).1.contains_key(b) ==> prune(subs, pings, now).1[b] == pings[b],
    decreases subs.len(),
{
    if subs.len() > 0 {
        let a = subs[0].0;
        let rest = subs.drop_first();
        if pings.contains_key(a) && !is_fresh(pings[a], now) {
            let p2 = pings.remove(a);
            lemma_prune_pings(rest, p2, now);
            let d2 = dropped_by_prune(rest, p2, now);
            let d = seq![a] + d2;
            assert(dropped_by_prune(subs, pings, now) == d);
            assert forall|b: SocketAddress| d.contains(b) <==> (b == a || d2.contains(b)) by {
                if d.contains(b) {
                    let k = choose|k: int| 0 <= k < d.len() && d[k] == b;
                    if k > 0 {
                        assert(d2[k - 1] == b);
                    }
                }
                if b == a {
                    assert(d[0] == b);
                }
                if d2.contains(b) {
                    let k = choose|k: int| 0 <= k < d2.len() && d2[k] == b;
                    assert(d[k + 1] == b);
                }
            }
            let r = prune(rest, p2, now);
            assert(prune(subs, pings, now) == r);
            assert forall|b: SocketAddress| #[trigger] r.1.contains_key(b) <==> (pings.contains_key(b)
                && !d.contains(b)) by {
                assert(p2.contains_key(b) <==> (pings.contains_key(b) && b != a));
            }
            assert forall|b: SocketAddress| #[trigger] r.1.contains_key(b) implies r.1[b] == pings[b] by {
                assert(p2[b] == pings[b]);
            }
        } else {
            lemma_prune_pings(rest, pings, now);
            let r = prune(rest, pings, now);
            assert(prune(subs, pings, now).1 == r.1);
            assert(dropped_by_prune(subs, pings, now) == dropped_by_prune(rest, pings, now));
        }
    }
}

/// Law: after dropping silent clients at `now`, every subscription left
/// either has no ping time or one that still counts at `now`.
pub proof fn lemma_prune_leaves_live(subs: Seq<SubscriptionView>, pings: Map<SocketAddress, u64>, now: u64)
    ensures
        forall|j: int|
            0 <= j < prune(subs, pings, now).0.len() ==> is_live(
                prune(subs, pings, now).1,
                #[trigger] prune(subs, pings, now).0[j].0,
                now,
            ),
    decreases subs.len(),
{
    if subs.len() > 0 {
        let a = subs[0].0;
        let rest = subs.drop_first();
        let whole = prune(subs, pings, now);
        if pings.contains_key(a) && !is_fresh(pings[a], now) {
            lemma_prune_leaves_live(rest, pings.remove(a), now);
            let r = prune(rest, pings.remove(a), now);
            assert(whole == r);
            assert forall|j: int| 0 <= j < whole.0.len() implies is_live(
                whole.1,
                #[trigger] whole.0[j].0,
                now,
            ) by {
                assert(is_live(r.1, r.0[j].0, now));
            }
        } else {
            lemma_prune_leaves_live(rest, pings, now);
            lemma_prune_shrinks(rest, pings, now);
            let r = prune(rest, pings, now);
            let out = seq![subs[0]] + r.0;
            assert(whole == (out, r.1));
            if r.1.contains_key(a) {
                assert(pings.contains_key(a) && r.1[a] == pings[a]);
            }
            assert forall|j: int| 0 <= j < whole.0.len() implies is_live(
                whole.1,
                #[trigger] whole.0[j].0,
                now,
            ) by {
                if j > 0 {
                    assert(out[j] == r.0[j - 1]);
                    assert(is_live(r.1, r.0[j - 1].0, now));
                } else {
                    assert(out[0] == subs[0]);
                }
            }
        }
    }
}

/// Dropping changes nothing when every subscription is live.
pub proof fn lemma_prune_all_live(subs: Seq<SubscriptionView>, pings: Map<SocketAddress, u64>, now: u64)
    requires
        forall|j: int| 0 <= j < subs.len() ==> is_live(pings, #[trigger] subs[j].0, now),
    ensures
        prune(subs, pings, now) == (subs, pings),
    decreases subs.len(),
{
    if subs.len() > 0 {
        let rest = subs.drop_first();
        assert(is_live(pings, subs[0].0, now));
        assert forall|j: int| 0 <= j < rest.len() implies is_live(pings, #[trigger] rest[j].0, now) by {
            assert(rest[j] == subs[j + 1]);
        }
        lemma_prune_all_live(rest, pings, now);
        assert(seq![subs[0]] + rest =~= subs);
    }
}

/// Law: dropping silent clients twice at the same time does no more than
/// doing it once.
pub proof fn lemma_prune_idempotent(subs: Seq<SubscriptionView>, pings: Map<SocketAddress, u64>, now: u64)
    ensures
        prune(prune(subs, pings, now).0, prune(subs, pings, now).1, now) == prune(subs, pings, now),
{
    let r = prune(subs, pings, now);
    lemma_prune_leaves_live(subs, pings, now);
    assert forall|j: int| 0 <= j < r.0.len() implies is_live(r.1, #[trigger] r.0[j].0, now) by {
    }
    lemma_prune_all_live(r.0, r.1, now);
}

/// Law: a client that is alone at its address stays exactly when its
/// address has not pinged or last pinged less than the timeout before
/// `now`; in particular a client that pinged at `t` stays at any `now`
/// before `t + PING_TIMEOUT_NANOS`, and is dropped from then on.
pub proof fn lemma_prune_single(
    subs: Seq<SubscriptionView>,
    pings: Map<SocketAddress, u64>,
    now: u64,
    i: int,
)
    requires
        0 <= i < subs.len(),
        forall|j: int| 0 <= j < subs.len() && j != i ==> subs[j].0 != subs[i].0,
    ensures
        prune(subs, pings, now).0.contains(subs[i]) <==> is_live(pings, subs[i].0, now),
    decreases subs.len(),
{
    let a = subs[0].0;
    let rest = subs.drop_first();
    let x = subs[i];
    if i == 0 {
        if pings.contains_key(a) && !is_fresh(pings[a], now) {
            lemma_prune_shrinks(rest, pings.remove(a), now);
            let r = prune(rest, pings.remove(a), now);
            if r.0.contains(x) {
                let j = choose|j: int| 0 <= j < r.0.len() && r.0[j] == x;
                assert(rest.contains(r.0[j]));
                let k = choose|k: int| 0 <= k < rest.len() && rest[k] == r.0[j];
                assert(subs[k + 1].0 != subs[0].0);
            }
        } else {
            let r = prune(rest, pings, now);
            assert((seq![subs[0]] + r.0)[0] == x);
        }
    } else {
        assert(rest[i - 1] == x);
        assert forall|j: int| 0 <= j < rest.len() && j != i - 1 implies (#[trigger] rest[j]).0 != rest[i - 1].0 by {
            assert(rest[j] == subs[j + 1]);
        }
        assert(a != x.0);
        if pings.contains_key(a) && !is_fresh(pings[a], now) {
            lemma_prune_single(rest, pings.remove(a), now, i - 1);
        } else {
            lemma_prune_single(rest, pings, now, i - 1);
            let r = prune(rest, pings, now);
            let out = seq![subs[0]] + r.0;
            if out.contains(x) {
                let j = choose|j: int| 0 <= j < out.len() && out[j] == x;
                if j > 0 {
                    assert(r.0[j - 1] == x);
                }
            }
            if r.0.contains(x) {
                let j = choose|j: int| 0 <= j < r.0.len() && r.0[j] == x;
                assert(out[j + 1] == x);
            }
        }
    }
}

/// Law: a client that has just subscribed, at an address no other
/// subscription uses, and whose address was given the time `now` (as
/// [`Registry::touch_last`] does), is kept by every drop of silent clients
/// before `now + PING_TIMEOUT_NANOS` and dropped by one at or after it.
pub proof fn lemma_new_client_gets_full_timeout(
    subs: Seq<SubscriptionView>,
    pings: Map<SocketAddress, u64>,
    sub: SubscriptionView,
    now: u64,
    later: u64,
)
    requires
        forall|j: int| 0 <= j < subs.len() ==> subs[j].0 != sub.0,
    ensures
        prune(subs.push(sub), pings.insert(sub.0, now), later).0.contains(sub) <==> (later as int)
            < now + PING_TIMEOUT_NANOS,
{
    let all = subs.push(sub);
    assert forall|j: int| 0 <= j < all.len() && j != subs.len() implies (#[trigger] all[j]).0 != all[subs.len() as int].0 by {
        assert(all[j] == subs[j]);
    }
    lemma_prune_single(all, pings.insert(sub.0, now), later, subs.len() as int);
}

/// Law: a quote for `ticker` goes to an address exactly when some
/// subscription at that address wants `ticker`.
pub proof fn lemma_recipients_exact(subs: Seq<SubscriptionView>, ticker: Seq<char>, a: SocketAddress)
    ensures
        recipients_of(subs, ticker).contains(a) <==> exists|i: int|
            0 <= i < subs.len() && (#[trigger] subs[i]).0 == a && subs[i].1.contains(ticker),
    decreases subs.len(),
{
    if subs.len() > 0 {
        let init = subs.drop_last();
        lemma_recipients_exact(init, ticker, a);
        let r = recipients_of(init, ticker);
        let x = subs.last();
        if recipients_of(subs, ticker).contains(a) {
            if r.contains(a) {
                let i = choose|i: int|
                    0 <= i < init.len() && (#[trigger] init[i]).0 == a && init[i].1.contains(ticker);
                assert(subs[i] == init[i]);
            } else {
                let k = choose|k: int|
                    0 <= k < recipients_of(subs, ticker).len() && recipients_of(subs, ticker)[k]
                        == a;
                if x.1.contains(ticker) && k < r.len() {
                    assert(r.push(x.0)[k] == r[k]);
                }
                assert(subs[subs.len() - 1] == x);
            }
        }
        if exists|i: int| 0 <= i < subs.len() && (#[trigger] subs[i]).0 == a && subs[i].1.contains(ticker) {
            let i = choose|i: int| 0 <= i < subs.len() && (#[trigger] subs[i]).0 == a && subs[i].1.contains(ticker);
            if i < subs.len() - 1 {
                assert(init[i] == subs[i]);
                let k = choose|k: int| 0 <= k < r.len() && r[k] == a;
                if x.1.contains(ticker) {
                    assert(r.push(x.0)[k] == a);
                }
            } else {
                assert(r.push(x.0)[r.len() as int] == a);
            }
        }
    }
}

} // verus!
