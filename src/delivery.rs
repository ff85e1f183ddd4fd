//! Retention of sent fragments, acknowledgements, and sending again.

use vstd::prelude::*;

use crate::fragment::{disassemble, frag_count, fragment_of};
use crate::packet::{
    copy_bytes, reverse_route, reversed, Nack, NackType, Packet, PacketType, PacketTypeView,
    PacketView, SourceRoutingHeader,
};
use crate::flood::{flood_attempt, flood_start_packet, floods_with, lemma_flood_attempt_frame};
use crate::server::{installed_ids, is_send, views, Action, ContentServer};
use crate::topology::{is_path, reachable, Topology};

verus! {

broadcast use vstd::std_specs::hash::group_hash_axioms;

/// The retained list `l` after an ack for fragment `i`.
pub open spec fn drop_acked(l: Seq<PacketView>, i: u64) -> Seq<PacketView>
    decreases l.len(),
{
    if l.len() == 0 {
        l
    } else {
        let rest = drop_acked(l.drop_last(), i);
        if l.last().fragment_index() == Some(i) {
            rest
        } else {
            rest.push(l.last())
        }
    }
}

/// Retention after an ack for fragment `i` of session `s`: the fragments
/// with that index go, and an emptied session goes with them.
pub open spec fn ack_retention(m: Map<u64, Seq<PacketView>>, s: u64, i: u64) -> Map<
    u64,
    Seq<PacketView>,
> {
    if !m.contains_key(s) {
        m
    } else if drop_acked(m[s], i).len() == 0 {
        m.remove(s)
    } else {
        m.insert(s, drop_acked(m[s], i))
    }
}

proof fn lemma_drop_acked(l: Seq<PacketView>, i: u64)
    ensures
        forall|k: int|
            0 <= k < drop_acked(l, i).len() ==> #[trigger] drop_acked(l, i)[k].fragment_index()
                != Some(i),
        forall|k: int|
            0 <= k < drop_acked(l, i).len() ==> exists|j: int|
                0 <= j < l.len() && #[trigger] drop_acked(l, i)[k] == l[j],
    decreases l.len(),
{
    if l.len() > 0 {
        lemma_drop_acked(l.drop_last(), i);
        let rest = drop_acked(l.drop_last(), i);
        assert forall|k: int| 0 <= k < drop_acked(l, i).len() implies exists|j: int|
            0 <= j < l.len() && #[trigger] drop_acked(l, i)[k] == l[j] by {
            if k < rest.len() {
                let j = choose|j: int|
                    0 <= j < l.drop_last().len() && #[trigger] rest[k] == l.drop_last()[j];
                assert(drop_acked(l, i)[k] == l[j]);
            } else {
                assert(drop_acked(l, i)[k] == l[l.len() - 1]);
            }
        }
    }
}

/// After an ack for fragment `i` of session `s`, no retained fragment of
/// `s` has index `i`, and `s` is retained only while fragments remain.
pub proof fn ack_clears_fragment(m: Map<u64, Seq<PacketView>>, s: u64, i: u64)
    ensures
        ack_retention(m, s, i).contains_key(s) ==> forall|k: int|
            0 <= k < ack_retention(m, s, i)[s].len()
                ==> #[trigger] ack_retention(m, s, i)[s][k].fragment_index() != Some(i),
        ack_retention(m, s, i).contains_key(s) ==> ack_retention(m, s, i)[s].len() > 0,
{
    if m.contains_key(s) {
        lemma_drop_acked(m[s], i);
    }
}

/// The packets that carry `msg` in session `s` back along `route`.
pub open spec fn message_packets(msg: Seq<u8>, s: u64, route: Seq<u8>) -> Seq<PacketView> {
    Seq::new(
        frag_count(msg.len() as int) as nat,
        |j: int|
            PacketView {
                kind: PacketTypeView::MsgFragment(fragment_of(msg, j)),
                session_id: s,
                hop_index: 1,
                hops: reversed(route),
            },
    )
}

/// Retry keys of the first `n` fragments of session `s`.
pub open spec fn message_keys(s: u64, n: int) -> Set<(u64, u64)> {
    Set::new(|k: (u64, u64)| k.0 == s && (k.1 as int) < n)
}

proof fn lemma_first_index(l: Seq<PacketView>, i: u64, k: int)
    requires
        0 <= k < l.len(),
        l[k].fragment_index() == Some(i),
    ensures
        exists|pos: int| first_with_index(l, i, pos),
    decreases k,
{
    if forall|j: int| 0 <= j < k ==> #[trigger] l[j].fragment_index() != Some(i) {
        assert(first_with_index(l, i, k));
    } else {
        let j = choose|j: int| 0 <= j < k && #[trigger] l[j].fragment_index() == Some(i);
        lemma_first_index(l, i, j);
    }
}

/// What became, in `c1` and `r`, of the retained fragment at `pos` under the
/// retry key `key` of `c0` when it was sent again over `c0`'s graph: without
/// a route it waits on in the retry set; with one it takes a shortest route,
/// the one with the smallest second hop, and is handed to that neighbour
/// and leaves the retry set when a channel to it is installed.
pub open spec fn drain_outcome(
    c0: ContentServer,
    c1: ContentServer,
    r: Seq<Action>,
    key: (u64, u64),
    pos: int,
) -> bool {
    let p = c0.retained()[key.0][pos];
    let q = c1.retained()[key.0][pos];
    let me = c0.server_id;
    let t = c0.topology;
    let dst = p.hops[p.hops.len() - 1];
    if dst == me || !reachable(t, me, dst) {
        q == p && c1.retry_set().contains(key)
    } else {
        &&& q == (PacketView { hop_index: 1, hops: q.hops, ..p })
        &&& is_path(t, q.hops, me, dst)
        &&& forall|h: Seq<u8>| #[trigger] is_path(t, h, me, dst) ==> q.hops.len() <= h.len()
        &&& forall|h: Seq<u8>| #[trigger]
            is_path(t, h, me, dst) && h.len() == q.hops.len() ==> q.hops[1] <= h[1]
        &&& c1.retry_set().contains(key) == !c0.has_neighbor(q.hops[1])
        &&& !c1.retry_set().contains(key) ==> exists|k: int|
            0 <= k < r.len() && is_send(#[trigger] r[k], q.hops[1], q)
    }
}

/// `key` of `c0`'s retry set after the drain: a stale key, whose fragment is
/// no longer retained, stays; otherwise see `drain_outcome`.
pub open spec fn drain_entry(c0: ContentServer, c1: ContentServer, r: Seq<Action>, key: (u64, u64)) -> bool {
    if c0.retained().contains_key(key.0) && exists|pos: int| #[trigger]
        first_with_index(c0.retained()[key.0], key.1, pos) {
        forall|pos: int| #[trigger]
            first_with_index(c0.retained()[key.0], key.1, pos) ==> drain_outcome(c0, c1, r, key, pos)
    } else {
        c1.retry_set().contains(key)
    }
}

/// `c1` and `r` are what sending the retry set of `c0` again makes of it:
/// only retention hops, the retry set and the flood time change; the retry
/// set can only shrink; each of its entries fares as `drain_entry` says; an
/// empty retry set sends nothing.
pub open spec fn drained(c0: ContentServer, c1: ContentServer, r: Seq<Action>) -> bool {
    &&& c1 == (ContentServer {
        sent_packets: c1.sent_packets,
        packet_to_retry: c1.packet_to_retry,
        flood_time: c1.flood_time,
        ..c0
    })
    &&& c1.retained().dom() == c0.retained().dom()
    &&& c1.retry_set().subset_of(c0.retry_set())
    &&& forall|key: (u64, u64)| #[trigger] c0.retry_set().contains(key) ==> drain_entry(c0, c1, r, key)
    &&& plain(r)
    &&& c0.packet_to_retry@.len() == 0 ==> c1 == c0 && r.len() == 0
}

/// `r` only hands packets to neighbours and reports started floods.
pub open spec fn plain(r: Seq<Action>) -> bool {
    forall|k: int| 0 <= k < r.len() ==> #[trigger] r[k] is Send || r[k] == Action::FloodRequestSent
}

proof fn lemma_resent_plain(t: Topology, c0: ContentServer, c1: ContentServer, r: Seq<Action>, s: u64, pos: int)
    requires
        resent(t, c0, c1, r, s, pos),
    ensures
        plain(r),
{
    let p = c0.retained()[s][pos];
    let dst = p.hops[p.hops.len() - 1];
    if (dst == c0.server_id || !reachable(t, c0.server_id, dst)) && !(c1.flood_time == c0.flood_time
        && r.len() == 0) {
        let (f, x) = choose|f: u64, x: u64| #[trigger] floods_with(c0, r, f, x);
        assert forall|k: int| 0 <= k < r.len() implies #[trigger] r[k] is Send || r[k]
            == Action::FloodRequestSent by {
            if k < installed_ids(c0.neighbors@, 256).len() {
                assert(is_send(r[k], installed_ids(c0.neighbors@, 256)[k], flood_start_packet(c0.server_id, f, x)));
            }
        }
    }
}

proof fn lemma_first_unique(l: Seq<PacketView>, i: u64, p1: int, p2: int)
    requires
        first_with_index(l, i, p1),
        first_with_index(l, i, p2),
    ensures
        p1 == p2,
{
    if p1 < p2 {
        assert(l[p1].fragment_index() != Some(i));
    }
    if p2 < p1 {
        assert(l[p2].fragment_index() != Some(i));
    }
}

/// One step of the drain: the key at `k` of the snapshot is sent again,
/// taking `before` to `after` and adding the actions `a`.
proof fn lemma_drain_step(
    c0: ContentServer,
    before: ContentServer,
    after: ContentServer,
    r: Seq<Action>,
    a: Seq<Action>,
    snap: Seq<(u64, u64)>,
    k: int,
)
    requires
        0 <= k < snap.len(),
        snap.no_duplicates(),
        before.retry_set().subset_of(c0.retry_set()),
        c0.retry_set().contains(snap[k]),
        before.retained().dom() == c0.retained().dom(),
        before.topology == c0.topology,
        before.neighbors == c0.neighbors,
        before.server_id == c0.server_id,
        forall|t: u64| #[trigger]
            before.retained().contains_key(t) ==> before.retained()[t].len() == c0.retained()[t].len(),
        forall|t: u64, pos: int|
            before.retained().contains_key(t) && 0 <= pos < before.retained()[t].len()
                ==> #[trigger] before.retained()[t][pos].fragment_index()
                == c0.retained()[t][pos].fragment_index(),
        plain(r),
        forall|j: int| 0 <= j < k ==> drain_entry(c0, before, r, #[trigger] snap[j]),
        forall|j: int| k <= j < snap.len() ==> before.retry_set().contains(#[trigger] snap[j]),
        forall|j: int, pos: int|
            k <= j < snap.len() && c0.retained().contains_key(snap[j].0) && #[trigger] first_with_index(
                c0.retained()[snap[j].0],
                snap[j].1,
                pos,
            ) ==> before.retained()[snap[j].0][pos] == c0.retained()[snap[j].0][pos],
        after == (ContentServer {
            sent_packets: after.sent_packets,
            packet_to_retry: after.packet_to_retry,
            flood_time: after.flood_time,
            ..before
        }),
        after.retained().dom() == before.retained().dom(),
        forall|pos: int|
            before.retained().contains_key(snap[k].0) && #[trigger] first_with_index(
                before.retained()[snap[k].0],
                snap[k].1,
                pos,
            ) ==> resent(before.topology, before, after, a, snap[k].0, pos),
        (!before.retained().contains_key(snap[k].0) || forall|q: int|
            0 <= q < before.retained()[snap[k].0].len()
                ==> #[trigger] before.retained()[snap[k].0][q].fragment_index() != Some(snap[k].1))
            ==> (after == before && a.len() == 0),
    ensures
        plain(r + a),
        after.retry_set().subset_of(c0.retry_set()),
        forall|t: u64| #[trigger]
            after.retained().contains_key(t) ==> after.retained()[t].len() == c0.retained()[t].len(),
        forall|t: u64, pos: int|
            after.retained().contains_key(t) && 0 <= pos < after.retained()[t].len()
                ==> #[trigger] after.retained()[t][pos].fragment_index()
                == c0.retained()[t][pos].fragment_index(),
        forall|j: int| 0 <= j < k + 1 ==> drain_entry(c0, after, r + a, #[trigger] snap[j]),
        forall|j: int| k + 1 <= j < snap.len() ==> after.retry_set().contains(#[trigger] snap[j]),
        forall|j: int, pos: int|
            k + 1 <= j < snap.len() && c0.retained().contains_key(snap[j].0) && #[trigger] first_with_index(
                c0.retained()[snap[j].0],
                snap[j].1,
                pos,
            ) ==> after.retained()[snap[j].0][pos] == c0.retained()[snap[j].0][pos],
{
    let key = snap[k];
    let s = key.0;
    let i = key.1;
    let ra = r + a;
    assert forall|x: int| 0 <= x < r.len() implies ra[x] == r[x] by {}
    if c0.retained().contains_key(s) && exists|pos: int| #[trigger] first_with_index(c0.retained()[s], i, pos) {
        let pp = choose|pos: int| #[trigger] first_with_index(c0.retained()[s], i, pos);
        assert(first_with_index(before.retained()[s], i, pp)) by {
            assert forall|q: int| 0 <= q < pp implies #[trigger] before.retained()[s][q].fragment_index()
                != Some(i) by {
                assert(c0.retained()[s][q].fragment_index() != Some(i));
            }
            assert(before.retained()[s][pp].fragment_index() == c0.retained()[s][pp].fragment_index());
        }
        assert(resent(before.topology, before, after, a, s, pp));
        lemma_resent_plain(before.topology, before, after, a, s, pp);
        assert forall|x: int| 0 <= x < ra.len() implies #[trigger] ra[x] is Send || ra[x]
            == Action::FloodRequestSent by {
            if x >= r.len() {
                assert(ra[x] == a[x - r.len()]);
            }
        }
        assert(before.retained()[s][pp] == c0.retained()[s][pp]);
        let p = c0.retained()[s][pp];
        let q = after.retained()[s][pp];
        assert(p.fragment_index() == Some(i));
        assert(after.retained() == before.retained().insert(s, before.retained()[s].update(pp, q)));
        assert(q.fragment_index() == p.fragment_index());
        // the key just sent
        assert(drain_outcome(c0, after, ra, key, pp)) by {
            if !after.retry_set().contains(key) {
                let dst = p.hops[p.hops.len() - 1];
                if !(dst == c0.server_id || !reachable(c0.topology, c0.server_id, dst)) {
                    assert(a.len() == 1);
                    assert(ra[r.len() as int] == a[0]);
                }
            }
        }
        assert forall|pos: int| #[trigger] first_with_index(c0.retained()[s], i, pos) implies drain_outcome(
            c0,
            after,
            ra,
            key,
            pos,
        ) by {
            lemma_first_unique(c0.retained()[s], i, pos, pp);
        }
        assert(drain_entry(c0, after, ra, key));
        assert forall|x: (u64, u64)| after.retry_set().contains(x) implies c0.retry_set().contains(x) by {
            if x != key {
                assert(after.retry_set().remove(key).contains(x));
            }
        }
        // every other key keeps its fragment and its retry membership
        assert forall|j: int, pos: int|
            0 <= j < snap.len() && j != k && c0.retained().contains_key(snap[j].0) && #[trigger] first_with_index(
                c0.retained()[snap[j].0],
                snap[j].1,
                pos,
            ) implies after.retained()[snap[j].0][pos] == before.retained()[snap[j].0][pos] by {
            if snap[j].0 == s && pos == pp {
                assert(c0.retained()[s][pp].fragment_index() == Some(snap[j].1));
                assert(snap[j] == key);
                assert(false);
            }
        }
        assert forall|j: int| 0 <= j < snap.len() && j != k implies after.retry_set().contains(
            #[trigger] snap[j],
        ) == before.retry_set().contains(snap[j]) by {
            assert(snap[j] != key);
            assert(after.retry_set().remove(key).contains(snap[j]) == before.retry_set().remove(
                key,
            ).contains(snap[j]));
        }
        assert forall|t: u64, x: int|
            after.retained().contains_key(t) && 0 <= x < after.retained()[t].len()
                implies #[trigger] after.retained()[t][x].fragment_index()
                == c0.retained()[t][x].fragment_index() by {
            if t == s && x == pp {
            } else {
                assert(after.retained()[t][x] == before.retained()[t][x]);
            }
        }
        assert forall|j: int| 0 <= j < k + 1 implies drain_entry(c0, after, ra, #[trigger] snap[j]) by {
            if j < k {
                let kj = snap[j];
                assert(drain_entry(c0, before, r, kj));
                if c0.retained().contains_key(kj.0) && exists|pos: int| #[trigger]
                    first_with_index(c0.retained()[kj.0], kj.1, pos) {
                    assert forall|pos: int| #[trigger] first_with_index(c0.retained()[kj.0], kj.1, pos) implies drain_outcome(
                        c0,
                        after,
                        ra,
                        kj,
                        pos,
                    ) by {
                        assert(drain_outcome(c0, before, r, kj, pos));
                        assert(after.retained()[kj.0][pos] == before.retained()[kj.0][pos]);
                        let qq = before.retained()[kj.0][pos];
                        if !after.retry_set().contains(kj) && exists|x: int|
                            0 <= x < r.len() && is_send(#[trigger] r[x], qq.hops[1], qq) {
                            let x = choose|x: int| 0 <= x < r.len() && is_send(#[trigger] r[x], qq.hops[1], qq);
                            assert(ra[x] == r[x]);
                        }
                    }
                }
            }
        }
    } else {
        assert(!before.retained().contains_key(s) || forall|q: int|
            0 <= q < before.retained()[s].len() ==> #[trigger] before.retained()[s][q].fragment_index() != Some(i)) by {
            if before.retained().contains_key(s) {
                assert forall|q: int| 0 <= q < before.retained()[s].len() implies #[trigger] before.retained()[s][q].fragment_index()
                    != Some(i) by {
                    if before.retained()[s][q].fragment_index() == Some(i) {
                        assert(c0.retained()[s][q].fragment_index() == Some(i));
                        lemma_first_index(c0.retained()[s], i, q);
                    }
                }
            }
        }
        assert(after == before);
        assert(a.len() == 0);
        assert(ra =~= r);
    }
}

/// `c1` and `r` are what sending the message `msg` of session `s` back along
/// `route` makes of `c0`: its fragments are appended to the session's
/// retention; with a channel to the neighbour at the second hop each
/// fragment is handed to it, in index order, and leaves the retry set,
/// otherwise every fragment waits in the retry set; last comes one
/// `MessageSent`.
pub open spec fn sent_message(
    c0: ContentServer,
    c1: ContentServer,
    r: Seq<Action>,
    msg: Seq<u8>,
    s: u64,
    route: Seq<u8>,
) -> bool {
    let mp = message_packets(msg, s, route);
    let n = frag_count(msg.len() as int);
    let to = reversed(route)[1];
    &&& c1 == (ContentServer {
        sent_packets: c1.sent_packets,
        packet_to_retry: c1.packet_to_retry,
        ..c0
    })
    &&& c1.retained() == c0.retained().insert(s, c0.retained_of(s) + mp)
    &&& c1.retry_set() == if c0.has_neighbor(to) {
        c0.retry_set().difference(message_keys(s, n))
    } else {
        c0.retry_set().union(message_keys(s, n))
    }
    &&& r.len() == if c0.has_neighbor(to) {
        n + 1
    } else {
        1
    }
    &&& forall|j: int| 0 <= j < r.len() - 1 ==> is_send(#[trigger] r[j], to, mp[j])
    &&& r[r.len() - 1] == Action::MessageSent(s)
}

/// The retained fragment `p` either went out, in `out`, to an installed
/// neighbour at `p.hops[1]`, or waits in the retry set.
pub open spec fn routed_or_waiting(c: ContentServer, out: Seq<Action>, p: PacketView) -> bool {
    ||| c.retry_set().contains((p.session_id, p.fragment_index()->Some_0))
    ||| (c.has_neighbor(p.hops[1]) && exists|k: int|
        0 <= k < out.len() && is_send(#[trigger] out[k], p.hops[1], p))
}

/// `pos` is the first position in `l` of a fragment with index `i`.
pub open spec fn first_with_index(l: Seq<PacketView>, i: u64, pos: int) -> bool {
    &&& 0 <= pos < l.len()
    &&& l[pos].fragment_index() == Some(i)
    &&& forall|k: int| 0 <= k < pos ==> #[trigger] l[k].fragment_index() != Some(i)
}

/// `c1` is `c0` after the retained fragment at `pos` of session `s` was
/// sent again over the graph `t`: along a shortest route to its destination
/// when there is one, handed to the neighbour at its second hop, or else
/// left in the retry set; only that fragment's retry entry changes.
pub open spec fn resent(
    t: Topology,
    c0: ContentServer,
    c1: ContentServer,
    r: Seq<Action>,
    s: u64,
    pos: int,
) -> bool {
    let p = c0.retained()[s][pos];
    let q = c1.retained()[s][pos];
    let key = (s, p.fragment_index()->Some_0);
    let dst = p.hops[p.hops.len() - 1];
    &&& c1.retained() == c0.retained().insert(s, c0.retained()[s].update(pos, q))
    &&& c1.retry_set().remove(key) == c0.retry_set().remove(key)
    &&& routed_or_waiting(c1, r, q)
    &&& if dst == c0.server_id || !reachable(t, c0.server_id, dst) {
        &&& q == p
        &&& c1.retry_set().contains(key)
        &&& flood_attempt(c0, c1.flood_time, r)
    } else {
        &&& q == (PacketView { hop_index: 1, hops: q.hops, ..p })
        &&& is_path(t, q.hops, c0.server_id, dst)
        &&& forall|h: Seq<u8>| #[trigger] is_path(t, h, c0.server_id, dst) ==> q.hops.len() <= h.len()
        &&& forall|h: Seq<u8>| #[trigger]
            is_path(t, h, c0.server_id, dst) && h.len() == q.hops.len() ==> q.hops[1] <= h[1]
        &&& c1.retry_set().contains(key) == !c0.has_neighbor(q.hops[1])
        &&& c1.flood_time == c0.flood_time
        &&& r.len() == if c0.has_neighbor(q.hops[1]) {
            1int
        } else {
            0
        }
        &&& r.len() == 1 ==> is_send(r[0], q.hops[1], q)
    }
}

/// What a nack for the retained fragment at `pos` of session `s` makes of
/// `c0`: the graph changes as the kind asks, a flood is attempted (the
/// first `k` actions, leaving flood time `t1`), then the fragment is sent
/// again over the new graph.
pub open spec fn nack_steps(
    c0: ContentServer,
    c1: ContentServer,
    r: Seq<Action>,
    s: u64,
    pos: int,
    t1: u64,
    k: int,
) -> bool {
    &&& 0 <= k <= r.len()
    &&& flood_attempt(c0, t1, r.subrange(0, k))
    &&& resent(
        c1.topology,
        ContentServer { flood_time: t1, topology: c1.topology, ..c0 },
        c1,
        r.subrange(k, r.len() as int),
        s,
        pos,
    )
}

/// `c1` and `r` are what a nack of kind `kind` for the retained fragment at
/// `pos` of session `s` makes of `c0`.
pub open spec fn nacked(c0: ContentServer, c1: ContentServer, r: Seq<Action>, s: u64, pos: int, kind: NackType) -> bool {
    &&& c1 == (ContentServer {
        sent_packets: c1.sent_packets,
        packet_to_retry: c1.packet_to_retry,
        flood_time: c1.flood_time,
        topology: c1.topology,
        ..c0
    })
    &&& match kind {
        NackType::Dropped => c1.topology == c0.topology && resent(c0.topology, c0, c1, r, s, pos),
        NackType::ErrorInRouting(x) => {
            &&& forall|y: u8| #[trigger]
                c1.topology.has_node(y) == (c0.topology.has_node(y) && y != x)
            &&& forall|y: u8, z: u8| #[trigger]
                c1.topology.has_edge(y, z) == (c0.topology.has_edge(y, z) && y != x && z != x)
            &&& exists|t1: u64, k: int| #[trigger] nack_steps(c0, c1, r, s, pos, t1, k)
        },
        _ => {
            &&& c1.topology == c0.topology
            &&& exists|t1: u64, k: int| #[trigger] nack_steps(c0, c1, r, s, pos, t1, k)
        },
    }
}

impl ContentServer {
    /// Position, in the retained list of session `s`, of the fragment with
    /// index `i`.
    pub fn find_retained(&self, s: u64, i: u64) -> (r: Option<usize>)
        requires
            self.wf(),
        ensures
            r is Some ==> self.retained().contains_key(s) && first_with_index(
                self.retained()[s],
                i,
                r->Some_0 as int,
            ),
            r is None ==> !self.retained().contains_key(s) || forall|k: int|
                0 <= k < self.retained()[s].len() ==> #[trigger] self.retained()[s][k].fragment_index()
                    != Some(i),
    {
        match self.sent_packets.get(&s) {
            None => None,
            Some(list) => {
                let mut k: usize = 0;
                while k < list.len()
                    invariant
                        self.sent_packets@.contains_key(s),
                        *list == self.sent_packets@[s],
                        k <= list.len(),
                        forall|q: int|
                            0 <= q < k ==> #[trigger] list@[q]@.fragment_index() != Some(i),
                    decreases list.len() - k,
                {
                    if list[k].get_fragment_index() == Some(i) {
                        assert forall|q: int| 0 <= q < k implies #[trigger] self.retained()[s][q].fragment_index()
                            != Some(i) by {
                            assert(self.retained()[s][q] == list@[q]@);
                        }
                        return Some(k);
                    }
                    k = k + 1;
                }
                None
            },
        }
    }

    fn retry_contains(&self, key: (u64, u64)) -> (r: bool)
        ensures
            r == self.retry_set().contains(key),
    {
        let mut k: usize = 0;
        while k < self.packet_to_retry.len()
            invariant
                k <= self.packet_to_retry.len(),
                forall|q: int| 0 <= q < k ==> self.packet_to_retry@[q] != key,
            decreases self.packet_to_retry.len() - k,
        {
            let e = self.packet_to_retry[k];
            if e.0 == key.0 && e.1 == key.1 {
                return true;
            }
            k = k + 1;
        }
        false
    }

    fn retry_insert(&mut self, key: (u64, u64))
        requires
            old(self).wf(),
        ensures
            final(self).wf(),
            final(self).retry_set() == old(self).retry_set().insert(key),
            *final(self) == (ContentServer { packet_to_retry: final(self).packet_to_retry, ..*old(self) }),
    {
        if !self.retry_contains(key) {
            let ghost pre = self.packet_to_retry@;
            self.packet_to_retry.push(key);
            assert forall|x: (u64, u64)| #[trigger] self.packet_to_retry@.contains(x) <==> (
                pre.contains(x) || x == key) by {
                if self.packet_to_retry@.contains(x) {
                    let q = choose|q: int|
                        0 <= q < self.packet_to_retry@.len() && self.packet_to_retry@[q] == x;
                    if q < pre.len() {
                        assert(pre[q] == x);
                    }
                }
                if pre.contains(x) {
                    let q = choose|q: int| 0 <= q < pre.len() && pre[q] == x;
                    assert(self.packet_to_retry@[q] == x);
                }
                if x == key {
                    assert(self.packet_to_retry@[pre.len() as int] == x);
                }
            }
            assert(self.retry_set() =~= old(self).retry_set().insert(key));
        } else {
            assert(self.retry_set() =~= old(self).retry_set().insert(key));
        }
    }

    fn retry_remove(&mut self, key: (u64, u64))
        requires
            old(self).wf(),
        ensures
            final(self).wf(),
            final(self).retry_set() == old(self).retry_set().remove(key),
            *final(self) == (ContentServer { packet_to_retry: final(self).packet_to_retry, ..*old(self) }),
    {
        let mut kept: Vec<(u64, u64)> = Vec::new();
        let mut k: usize = 0;
        while k < self.packet_to_retry.len()
            invariant
                k <= self.packet_to_retry.len(),
                self.packet_to_retry@.no_duplicates(),
                kept@.no_duplicates(),
                forall|e: (u64, u64)| #[trigger] kept@.contains(e) <==> (
                    self.packet_to_retry@.subrange(0, k as int).contains(e) && e != key),
            decreases self.packet_to_retry.len() - k,
        {
            let e = self.packet_to_retry[k];
            let ghost pre = self.packet_to_retry@.subrange(0, k as int);
            let ghost post = self.packet_to_retry@.subrange(0, k + 1);
            assert(post =~= pre.push(e));
            let ghost kept_pre = kept@;
            if !(e.0 == key.0 && e.1 == key.1) {
                assert(!kept@.contains(e)) by {
                    if kept@.contains(e) {
                        let q = choose|q: int| 0 <= q < pre.len() && pre[q] == e;
                        assert(self.packet_to_retry@[q] == self.packet_to_retry@[k as int]);
                    }
                }
                kept.push(e);
            }
            assert forall|x: (u64, u64)| #[trigger] kept@.contains(x) <==> (post.contains(x) && x
                != key) by {
                if kept@.contains(x) && kept@ != kept_pre {
                    let q = choose|q: int| 0 <= q < kept@.len() && kept@[q] == x;
                    if q < kept_pre.len() {
                        assert(kept_pre[q] == x);
                    } else {
                        assert(post[k as int] == x);
                    }
                }
                if kept_pre.contains(x) {
                    let q = choose|q: int| 0 <= q < kept_pre.len() && kept_pre[q] == x;
                    assert(kept@[q] == x);
                }
                if x == e && x != key {
                    assert(kept@[kept@.len() - 1] == x);
                }
                if post.contains(x) && !pre.contains(x) {
                    let q = choose|q: int| 0 <= q < post.len() && post[q] == x;
                    assert(q == k);
                }
                if pre.contains(x) {
                    let q = choose|q: int| 0 <= q < pre.len() && pre[q] == x;
                    assert(post[q] == x);
                }
            }
            k = k + 1;
        }
        assert(self.packet_to_retry@.subrange(0, self.packet_to_retry.len() as int)
            =~= self.packet_to_retry@);
        self.packet_to_retry = kept;
        assert(self.retry_set() =~= old(self).retry_set().remove(key));
    }

    /// Hands a retained fragment to the neighbour at `hops[1]` and takes it
    /// out of the retry set; with no channel to that neighbour it waits in
    /// the retry set instead.
    fn try_send(&mut self, p: &Packet) -> (r: Option<Action>)
        requires
            old(self).wf(),
            p@.hops.len() >= 2,
            p@.fragment_index() is Some,
        ensures
            final(self).wf(),
            *final(self) == (ContentServer { packet_to_retry: final(self).packet_to_retry, ..*old(self) }),
            ({
                let key = (p@.session_id, p@.fragment_index()->Some_0);
                if old(self).has_neighbor(p@.hops[1]) {
                    &&& r is Some
                    &&& is_send(r->Some_0, p@.hops[1], p@)
                    &&& final(self).retry_set() == old(self).retry_set().remove(key)
                } else {
                    &&& r is None
                    &&& final(self).retry_set() == old(self).retry_set().insert(key)
                }
            }),
    {
        let idx = match p.get_fragment_index() {
            Some(i) => i,
            None => 0,
        };
        let key = (p.session_id, idx);
        let next = p.routing_header.hops[1];
        if self.neighbors[next as usize] {
            self.retry_remove(key);
            Some(Action::Send(next, p.copy()))
        } else {
            self.retry_insert(key);
            None
        }
    }

    /// Frees the retained fragments of session `s` with index `i`.
    pub fn on_ack_arrived(&mut self, s: u64, i: u64)
        requires
            old(self).wf(),
        ensures
            final(self).wf(),
            final(self).retained() == ack_retention(old(self).retained(), s, i),
            *final(self) == (ContentServer { sent_packets: final(self).sent_packets, ..*old(self) }),
    {
        proof {
            lemma_drop_acked(self.retained()[s], i);
        }
        match self.sent_packets.remove(&s) {
            None => {
                assert(self.retained() =~= ack_retention(old(self).retained(), s, i));
            },
            Some(list) => {
                let mut kept: Vec<Packet> = Vec::new();
                let mut k: usize = 0;
                while k < list.len()
                    invariant
                        k <= list.len(),
                        old(self).wf(),
                        old(self).sent_packets@.contains_key(s),
                        list == old(self).sent_packets@[s],
                        views(kept@) == drop_acked(views(list@).subrange(0, k as int), i),
                        forall|q: int|
                            0 <= q < kept@.len() ==> Self::well_retained(s, #[trigger] kept@[q]@),
                    decreases list.len() - k,
                {
                    let ghost pre = views(list@).subrange(0, k as int);
                    let ghost post = views(list@).subrange(0, k + 1);
                    assert(post.drop_last() =~= pre);
                    assert(post.last() == list@[k as int]@);
                    assert(Self::well_retained(s, list@[k as int]@));
                    if list[k].get_fragment_index() != Some(i) {
                        let ghost before = kept@;
                        kept.push(list[k].copy());
                        assert(views(kept@) =~= views(before).push(list@[k as int]@));
                    }
                    k = k + 1;
                }
                assert(views(list@).subrange(0, list.len() as int) =~= views(list@));
                assert(views(list@) == old(self).retained()[s]);
                if kept.len() > 0 {
                    self.sent_packets.insert(s, kept);
                } 
                assert(self.retained() =~= ack_retention(old(self).retained(), s, i));
            },
        }
    }

    /// Retention before a message of session `s` is appended to it.
    pub open spec fn retained_of(&self, s: u64) -> Seq<PacketView> {
        if self.retained().contains_key(s) {
            self.retained()[s]
        } else {
            Seq::empty()
        }
    }

    /// Splits `msg` into fragments of session `s` that travel back along
    /// `route`, the route the request came by. Each fragment is retained
    /// before it is handed to the neighbour at `hops[1]`; where no channel to
    /// it is installed the fragment waits in the retry set. The supervisor is
    /// told once that the message went out.
    pub fn send_message(&mut self, destination: u8, msg: &Vec<u8>, s: u64, route: &Vec<u8>) -> (r:
        Vec<Action>)
        requires
            old(self).wf(),
            route@.len() >= 2,
        ensures
            final(self).wf(),
            sent_message(*old(self), *final(self), r@, msg@, s, route@),
            forall|j: int|
                0 <= j < frag_count(msg@.len() as int) ==> routed_or_waiting(
                    *final(self),
                    r@,
                    #[trigger] message_packets(msg@, s, route@)[j],
                ),
    {
        let frags = disassemble(msg);
        let hops = reverse_route(route);
        let ghost mp = message_packets(msg@, s, route@);
        let mut list: Vec<Packet> = match self.sent_packets.remove(&s) {
            Some(l) => l,
            None => Vec::new(),
        };
        let ghost base = views(list@);
        assert(base == old(self).retained_of(s));
        let mut out: Vec<Action> = Vec::new();
        let mut j: usize = 0;
        while j < frags.len()
            invariant
                j <= frags.len(),
                frags@.len() == frag_count(msg@.len() as int),
                forall|k: int| 0 <= k < frags@.len() ==> #[trigger] frags@[k]@ == fragment_of(msg@, k),
                hops@ == reversed(route@),
                route@.len() >= 2,
                mp == message_packets(msg@, s, route@),
                self.wf(),
                *self == (ContentServer {
                    sent_packets: self.sent_packets,
                    packet_to_retry: self.packet_to_retry,
                    ..*old(self)
                }),
                self.sent_packets@ == old(self).sent_packets@.remove(s),
                views(list@) == base + mp.subrange(0, j as int),
                forall|q: int| 0 <= q < list@.len() ==> Self::well_retained(s, #[trigger] list@[q]@),
                forall|q: int| 0 <= q < j ==> routed_or_waiting(*self, out@, #[trigger] mp[q]),
                self.retry_set() == if old(self).has_neighbor(hops@[1]) {
                    old(self).retry_set().difference(message_keys(s, j as int))
                } else {
                    old(self).retry_set().union(message_keys(s, j as int))
                },
                out@.len() == if old(self).has_neighbor(hops@[1]) {
                    j as int
                } else {
                    0
                },
                forall|q: int| 0 <= q < out@.len() ==> is_send(#[trigger] out@[q], hops@[1], mp[q]),
            decreases frags.len() - j,
        {
            let p = Packet {
                pack_type: PacketType::MsgFragment(frags[j].copy()),
                session_id: s,
                routing_header: SourceRoutingHeader { hop_index: 1, hops: copy_bytes(&hops) },
            };
            assert(p@ == mp[j as int]);
            let ghost list_pre = list@;
            list.push(p.copy());
            assert(views(list@) =~= views(list_pre).push(p@));
            assert(base + mp.subrange(0, j + 1) =~= (base + mp.subrange(0, j as int)).push(p@));
            let ghost out_pre = out@;
            let ghost self_pre = *self;
            let a = self.try_send(&p);
            match a {
                Some(a) => {
                    out.push(a);
                },
                None => {},
            }
            assert(mp[j as int].fragment_index() == Some(j as u64));
            assert(self.retry_set() =~= if old(self).has_neighbor(hops@[1]) {
                old(self).retry_set().difference(message_keys(s, j + 1))
            } else {
                old(self).retry_set().union(message_keys(s, j + 1))
            });
            assert forall|q: int| 0 <= q < j + 1 implies routed_or_waiting(*self, out@, #[trigger] mp[q]) by {
                if q < j {
                    assert(routed_or_waiting(self_pre, out_pre, mp[q]));
                    assert(mp[q].fragment_index() == Some(q as u64));
                    if self_pre.retry_set().contains((s, q as u64)) {
                        assert(self.retry_set().contains((s, q as u64)));
                    } else {
                        let k = choose|k: int|
                            0 <= k < out_pre.len() && is_send(#[trigger] out_pre[k], mp[q].hops[1], mp[q]);
                        assert(out@[k] == out_pre[k]);
                    }
                } else {
                    if self.has_neighbor(p@.hops[1]) {
                        assert(out@[out@.len() - 1] == a->Some_0);
                    }
                }
            }
            j = j + 1;
        }
        let n = list.len();
        self.sent_packets.insert(s, list);
        assert(mp.subrange(0, frags@.len() as int) =~= mp);
        assert(self.retained() =~= old(self).retained().insert(s, old(self).retained_of(s) + mp));
        let ghost out_pre = out@;
        out.push(Action::MessageSent(s));
        assert forall|q: int| 0 <= q < frag_count(msg@.len() as int) implies routed_or_waiting(*self, out@, #[trigger] mp[q]) by {
            if !self.retry_set().contains((s, q as u64)) {
                let k = choose|k: int|
                    0 <= k < out_pre.len() && is_send(#[trigger] out_pre[k], mp[q].hops[1], mp[q]);
                assert(out@[k] == out_pre[k]);
            }
        }
        assert forall|q: int| 0 <= q < out@.len() - 1 implies is_send(#[trigger] out@[q], hops@[1], mp[q]) by {
            assert(out@[q] == out_pre[q]);
        }
        out
    }

    /// Sends the retained fragment at `pos` of session `s` again, along a
    /// fresh shortest route to its destination. With no route it waits in
    /// the retry set and a flood is started, subject to the cooldown.
    fn resend_at(&mut self, s: u64, pos: usize) -> (r: Vec<Action>)
        requires
            old(self).wf(),
            old(self).retained().contains_key(s),
            pos < old(self).retained()[s].len(),
        ensures
            final(self).wf(),
            *final(self) == (ContentServer {
                sent_packets: final(self).sent_packets,
                packet_to_retry: final(self).packet_to_retry,
                flood_time: final(self).flood_time,
                ..*old(self)
            }),
            resent(old(self).topology, *old(self), *final(self), r@, s, pos as int),
    {
        let mut list: Vec<Packet> = match self.sent_packets.remove(&s) {
            Some(l) => l,
            None => Vec::new(),
        };
        assert(views(list@) == old(self).retained()[s]);
        assert(list@[pos as int]@ == views(list@)[pos as int]);
        let n = list[pos].routing_header.hops.len();
        let dst = list[pos].routing_header.hops[n - 1];
        let me = self.server_id;
        let path = self.topology.shortest_path(me, dst);
        proof {
            let one = seq![me];
            if dst == me {
                assert(is_path(self.topology, one, me, dst));
            }
        }
        if path.len() < 2 {
            let ghost key = (s, list@[pos as int]@.fragment_index()->Some_0);
            proof {
                if path@.len() == 1 {
                    assert(path@[0] == me && path@[0] == dst);
                }
            }
            let idx = match list[pos].get_fragment_index() {
                Some(i) => i,
                None => 0,
            };
            self.sent_packets.insert(s, list);
            assert(self.retained() =~= old(self).retained());
            assert(old(self).retained()[s].update(pos as int, old(self).retained()[s][pos as int])
                =~= old(self).retained()[s]);
            assert(Self::well_retained(s, list@[pos as int]@));
            assert(key == (s, idx));
            self.retry_insert((s, idx));
            let ghost c2 = *self;
            let r = self.send_flood_request();
            proof {
                lemma_flood_attempt_frame(c2, *old(self), self.flood_time, r@);
            }
            assert(self.retry_set().contains(key));
            assert(self.retry_set().remove(key) =~= old(self).retry_set().remove(key));
            assert(dst == me || !reachable(old(self).topology, me, dst));
            assert(self.retained() == old(self).retained());
            assert(old(self).retained().insert(s, old(self).retained()[s]) =~= old(self).retained());
            assert(routed_or_waiting(*self, r@, self.retained()[s][pos as int]));
            return r;
        }
        let newp = Packet {
            pack_type: list[pos].pack_type.copy(),
            session_id: s,
            routing_header: SourceRoutingHeader { hop_index: 1, hops: path },
        };
        let ghost p0 = list@[pos as int]@;
        assert(Self::well_retained(s, p0));
        assert(newp@ == (PacketView { hop_index: 1, hops: newp@.hops, ..p0 }));
        assert(reachable(old(self).topology, me, dst));
        assert(dst != me);
        let ghost list_pre = list@;
        list.set(pos, newp.copy());
        assert(views(list@) =~= views(list_pre).update(pos as int, newp@));
        self.sent_packets.insert(s, list);
        assert(self.retained() =~= old(self).retained().insert(
            s,
            old(self).retained()[s].update(pos as int, newp@),
        ));
        let a = self.try_send(&newp);
        let mut r: Vec<Action> = Vec::new();
        match a {
            Some(a) => {
                r.push(a);
                assert(r@[0] == a);
            },
            None => {},
        }
        assert(self.retry_set().remove((s, p0.fragment_index()->Some_0)) =~= old(self).retry_set().remove(
            (s, p0.fragment_index()->Some_0),
        ));
        r
    }

    /// Sends the retained fragment `i` of session `s` again (see `resend_at`);
    /// does nothing when no such fragment is retained.
    pub fn resend_packet(&mut self, s: u64, i: u64) -> (r: Vec<Action>)
        requires
            old(self).wf(),
        ensures
            final(self).wf(),
            *final(self) == (ContentServer {
                sent_packets: final(self).sent_packets,
                packet_to_retry: final(self).packet_to_retry,
                flood_time: final(self).flood_time,
                ..*old(self)
            }),
            final(self).retained().dom() == old(self).retained().dom(),
            forall|t: u64| #[trigger]
                final(self).retained().contains_key(t) ==> final(self).retained()[t].len()
                    == old(self).retained()[t].len(),
            forall|t: u64| #[trigger]
                final(self).retained().contains_key(t) && t != s ==> final(self).retained()[t]
                    == old(self).retained()[t],
            forall|pos: int|
                old(self).retained().contains_key(s) && #[trigger] first_with_index(
                    old(self).retained()[s],
                    i,
                    pos,
                ) ==> resent(old(self).topology, *old(self), *final(self), r@, s, pos),
            (!old(self).retained().contains_key(s) || forall|k: int|
                0 <= k < old(self).retained()[s].len()
                    ==> #[trigger] old(self).retained()[s][k].fragment_index() != Some(i)) ==> (
            *final(self) == *old(self) && r@.len() == 0),
    {
        match self.find_retained(s, i) {
            None => Vec::new(),
            Some(pos) => {
                let r = self.resend_at(s, pos);
                assert forall|p2: int|
                    old(self).retained().contains_key(s) && first_with_index(
                        old(self).retained()[s],
                        i,
                        p2,
                    ) implies p2 == pos as int by {
                    if p2 < pos {
                        assert(old(self).retained()[s][p2].fragment_index() != Some(i));
                    }
                    if p2 > pos {
                        assert(old(self).retained()[s][pos as int].fragment_index() != Some(i));
                    }
                }
                assert(final(self).retained().dom() =~= old(self).retained().dom());
                r
            },
        }
    }

    /// Handles a nack for fragment `nack.fragment_index` of session `s`. A
    /// dropped fragment is sent again; a routing error removes the faulty
    /// node from the graph; every kind but `Dropped` starts a flood (subject
    /// to the cooldown) before the fragment is sent again along a fresh route.
    /// A nack for a fragment that is not retained is ignored.
    pub fn on_nack_arrived(&mut self, s: u64, nack: Nack) -> (r: Vec<Action>)
        requires
            old(self).wf(),
        ensures
            final(self).wf(),
            (!old(self).retained().contains_key(s) || forall|k: int|
                0 <= k < old(self).retained()[s].len()
                    ==> #[trigger] old(self).retained()[s][k].fragment_index()
                    != Some(nack.fragment_index)) ==> (*final(self) == *old(self) && r@.len() == 0),
            forall|pos: int|
                old(self).retained().contains_key(s) && #[trigger] first_with_index(
                    old(self).retained()[s],
                    nack.fragment_index,
                    pos,
                ) ==> nacked(*old(self), *final(self), r@, s, pos, nack.nack_type),
    {
        match self.find_retained(s, nack.fragment_index) {
            None => Vec::new(),
            Some(pos) => {
                let mut r: Vec<Action> = match nack.nack_type {
                    NackType::Dropped => Vec::new(),
                    NackType::ErrorInRouting(x) => {
                        self.topology.remove_node(x);
                        let ghost c2 = *self;
                        let f = self.send_flood_request();
                        proof {
                            lemma_flood_attempt_frame(c2, *old(self), self.flood_time, f@);
                        }
                        f
                    },
                    _ => self.send_flood_request(),
                };
                assert(self.retained() =~= old(self).retained());
                let ghost mid = *self;
                let ghost r1 = r@;
                let mut r2 = self.resend_at(s, pos);
                let ghost r2v = r2@;
                r.append(&mut r2);
                proof {
                    assert(r@ == r1 + r2v);
                    assert(r@.subrange(0, r1.len() as int) =~= r1);
                    assert(r@.subrange(r1.len() as int, r@.len() as int) =~= r2v);
                    match nack.nack_type {
                        NackType::Dropped => {
                            assert(r1.len() == 0);
                            assert(r@ =~= r2v);
                        },
                        _ => {
                            assert(mid == (ContentServer {
                                flood_time: mid.flood_time,
                                topology: self.topology,
                                ..*old(self)
                            }));
                            assert(nack_steps(
                                *old(self),
                                *self,
                                r@,
                                s,
                                pos as int,
                                mid.flood_time,
                                r1.len() as int,
                            ));
                        },
                    }
                    assert forall|p2: int|
                        old(self).retained().contains_key(s) && first_with_index(
                            old(self).retained()[s],
                            nack.fragment_index,
                            p2,
                        ) implies p2 == pos as int by {
                        if p2 < pos {
                            assert(old(self).retained()[s][p2].fragment_index() != Some(
                                nack.fragment_index,
                            ));
                        }
                        if p2 > pos {
                            assert(old(self).retained()[s][pos as int].fragment_index() != Some(
                                nack.fragment_index,
                            ));
                        }
                    }
                }
                r
            },
        }
    }

    /// Sends every fragment of the retry set again, going by a snapshot of
    /// the set taken first; those still without a route go back into it.
    pub(crate) fn resend_packets_in_queue(&mut self) -> (r: Vec<Action>)
        requires
            old(self).wf(),
        ensures
            final(self).wf(),
            drained(*old(self), *final(self), r@),
    {
        let mut snapshot: Vec<(u64, u64)> = Vec::new();
        let mut q: usize = 0;
        while q < self.packet_to_retry.len()
            invariant
                q <= self.packet_to_retry.len(),
                snapshot@ == self.packet_to_retry@.subrange(0, q as int),
            decreases self.packet_to_retry.len() - q,
        {
            snapshot.push(self.packet_to_retry[q]);
            q = q + 1;
            assert(snapshot@ =~= self.packet_to_retry@.subrange(0, q as int));
        }
        assert(snapshot@ =~= old(self).packet_to_retry@);
        let mut r: Vec<Action> = Vec::new();
        let mut k: usize = 0;
        while k < snapshot.len()
            invariant
                k <= snapshot.len(),
                self.wf(),
                old(self).wf(),
                snapshot@ == old(self).packet_to_retry@,
                *self == (ContentServer {
                    sent_packets: self.sent_packets,
                    packet_to_retry: self.packet_to_retry,
                    flood_time: self.flood_time,
                    ..*old(self)
                }),
                self.retained().dom() == old(self).retained().dom(),
                forall|t: u64| #[trigger]
                    self.retained().contains_key(t) ==> self.retained()[t].len()
                        == old(self).retained()[t].len(),
                forall|t: u64, pos: int|
                    self.retained().contains_key(t) && 0 <= pos < self.retained()[t].len()
                        ==> #[trigger] self.retained()[t][pos].fragment_index()
                        == old(self).retained()[t][pos].fragment_index(),
                self.retry_set().subset_of(old(self).retry_set()),
                k == 0 ==> *self == *old(self) && r@.len() == 0,
                forall|j: int| 0 <= j < k ==> drain_entry(*old(self), *self, r@, #[trigger] snapshot@[j]),
                plain(r@),
                forall|j: int|
                    k <= j < snapshot@.len() ==> self.retry_set().contains(#[trigger] snapshot@[j]),
                forall|j: int, pos: int|
                    k <= j < snapshot@.len() && old(self).retained().contains_key(snapshot@[j].0)
                        && #[trigger] first_with_index(
                        old(self).retained()[snapshot@[j].0],
                        snapshot@[j].1,
                        pos,
                    ) ==> self.retained()[snapshot@[j].0][pos] == old(self).retained()[snapshot@[j].0][pos],
            decreases snapshot.len() - k,
        {
            let (s, i) = snapshot[k];
            let ghost before = *self;
            let ghost r_before = r@;
            let mut a = self.resend_packet(s, i);
            let ghost av = a@;
            r.append(&mut a);
            proof {
                let key = (s, i);
                assert(snapshot@[k as int] == key);
                assert(old(self).retry_set().contains(key));
                assert(r@ == r_before + av);
                lemma_drain_step(*old(self), before, *self, r_before, av, snapshot@, k as int);
            }
            k = k + 1;
        }
        assert forall|key: (u64, u64)| #[trigger] old(self).retry_set().contains(key) implies drain_entry(
            *old(self),
            *self,
            r@,
            key,
        ) by {
            let j = choose|j: int| 0 <= j < snapshot@.len() && snapshot@[j] == key;
            assert(drain_entry(*old(self), *self, r@, snapshot@[j]));
        }
        r
    }
}

} // verus!
