//! Network discovery: starting floods, relaying requests, absorbing and
//! passing on replies.

use vstd::prelude::*;

use crate::clock::{now_millis, random_u64};
use crate::packet::{
    copy_bytes, copy_trace, FloodRequest, NodeType, Packet, PacketType, PacketTypeView, PacketView,
    SourceRoutingHeader,
};
use crate::delivery::drained;
use crate::server::{installed_ids, is_send, Action, ContentServer};

verus! {

/// Minimum time between two flood initiations, in milliseconds.
pub const FLOOD_COOLDOWN_MS: u64 = 500;

/// A flood request that `origin` starts.
pub open spec fn flood_start_packet(origin: u8, flood_id: u64, session_id: u64) -> PacketView {
    PacketView {
        kind: PacketTypeView::FloodRequest(flood_id, origin, seq![(origin, NodeType::Server)]),
        session_id,
        hop_index: 1,
        hops: Seq::empty(),
    }
}

/// Whether a flood at time `now` comes too soon after one at `last`.
pub open spec fn cooling_down(last: u64, now: u64) -> bool {
    last as int + FLOOD_COOLDOWN_MS as int > now as int
}

/// One of the first `n` nodes of the trace `t` is `x`.
pub open spec fn in_trace(t: Seq<(u8, NodeType)>, n: int, x: u8) -> bool {
    exists|q: int| 0 <= q < n && #[trigger] t[q].0 == x
}

/// `{x, y}` joins two consecutive nodes among the first `n` of the trace `t`.
pub open spec fn trace_edge(t: Seq<(u8, NodeType)>, n: int, x: u8, y: u8) -> bool {
    exists|q: int|
        0 < q < n && ((#[trigger] t[q - 1].0 == x && t[q].0 == y) || (t[q - 1].0 == y && t[q].0
            == x))
}

/// A flood request relayed by `me`: its trace extended by `me`, with no route.
pub open spec fn relayed_request(me: u8, s: u64, flood_id: u64, initiator: u8, t: Seq<(u8, NodeType)>) -> PacketView {
    PacketView {
        kind: PacketTypeView::FloodRequest(flood_id, initiator, t.push((me, NodeType::Server))),
        session_id: s,
        hop_index: 0,
        hops: Seq::empty(),
    }
}

/// Whether the node `x` must not get a relayed request whose trace is `t`:
/// it is the node the request came from.
pub open spec fn came_from(t: Seq<(u8, NodeType)>, x: u8) -> bool {
    t.len() > 0 && t[t.len() - 1].0 == x
}

/// `r` is `p` sent on with its hop index advanced by one and the same hops.
pub open spec fn advanced(r: PacketView, p: PacketView) -> bool {
    r == PacketView { hop_index: (p.hop_index + 1) as usize, ..p }
}

/// `r` and the new flood time `t1` are what an attempt to start a flood
/// makes of `c`: nothing, within the cooldown; otherwise a flood no earlier
/// than the cooldown after the last one, with one start packet per installed
/// neighbour, ascending, then one `FloodRequestSent`.
pub open spec fn flood_attempt(c: ContentServer, t1: u64, r: Seq<Action>) -> bool {
    let ids = installed_ids(c.neighbors@, 256);
    ||| t1 == c.flood_time && r.len() == 0
    ||| {
        &&& c.flood_time as int + FLOOD_COOLDOWN_MS as int <= t1 as int
        &&& r.len() == ids.len() + 1
        &&& r[ids.len() as int] == Action::FloodRequestSent
        &&& exists|flood_id: u64, session_id: u64| #[trigger]
            floods_with(c, r, flood_id, session_id)
    }
}

/// The first actions of `r` hand each installed neighbour of `c`, ascending,
/// a start packet of flood `flood_id` in session `session_id`.
pub open spec fn floods_with(c: ContentServer, r: Seq<Action>, flood_id: u64, session_id: u64) -> bool {
    let ids = installed_ids(c.neighbors@, 256);
    forall|k: int|
        0 <= k < ids.len() ==> is_send(
            #[trigger] r[k],
            ids[k],
            flood_start_packet(c.server_id, flood_id, session_id),
        )
}

/// A flood attempt depends only on the neighbours, the id and the last
/// flood time.
pub proof fn lemma_flood_attempt_frame(c: ContentServer, d: ContentServer, t1: u64, r: Seq<Action>)
    requires
        c.neighbors == d.neighbors,
        c.server_id == d.server_id,
        c.flood_time == d.flood_time,
        flood_attempt(c, t1, r),
    ensures
        flood_attempt(d, t1, r),
{
    if !(t1 == c.flood_time && r.len() == 0) {
        let (f, x) = choose|f: u64, x: u64| #[trigger] floods_with(c, r, f, x);
        assert(floods_with(d, r, f, x));
    }
}

/// Installed neighbours, ascending among ids below `below`, other than the
/// one a request with trace `t` came from.
pub open spec fn relay_ids(flags: Seq<bool>, t: Seq<(u8, NodeType)>, below: int) -> Seq<u8>
    decreases below,
{
    if below <= 0 {
        Seq::empty()
    } else {
        let rest = relay_ids(flags, t, below - 1);
        if flags[below - 1] && !came_from(t, (below - 1) as u8) {
            rest.push((below - 1) as u8)
        } else {
            rest
        }
    }
}

/// `r` relays a flood request with trace `t` received by `c`: one request,
/// extended by `c`, to each installed neighbour but the sender, ascending.
pub open spec fn relayed(
    c: ContentServer,
    r: Seq<Action>,
    s: u64,
    flood_id: u64,
    initiator: u8,
    t: Seq<(u8, NodeType)>,
) -> bool {
    let ids = relay_ids(c.neighbors@, t, 256);
    &&& r.len() == ids.len()
    &&& forall|k: int|
        0 <= k < r.len() ==> is_send(
            #[trigger] r[k],
            ids[k],
            relayed_request(c.server_id, s, flood_id, initiator, t),
        )
}

/// `c1` and `r` are what the flood reply `p` makes of `c0`. A reply whose
/// trace starts elsewhere is passed on, with its hop index advanced by one,
/// to `hops[hop_index + 1]` when that is an installed neighbour, and the
/// server stays as it is. A reply to this server's flood adds its trace to
/// the graph, is reported once, and then the retry set is sent again.
pub open spec fn flood_reply(c0: ContentServer, c1: ContentServer, r: Seq<Action>, p: PacketView) -> bool {
    let t = p.kind->FloodResponse_1;
    let h = p.hop_index as int;
    if !(t.len() > 0 && t[0].0 == c0.server_id) {
        &&& c1 == c0
        &&& r.len() <= 1
        &&& (r.len() == 1 <==> h + 1 < p.hops.len() && c0.has_neighbor(p.hops[h + 1]))
        &&& forall|k: int|
            0 <= k < r.len() ==> {
                &&& #[trigger] r[k] is Send
                &&& r[k]->Send_0 == p.hops[h + 1]
                &&& advanced(r[k]->Send_1@, p)
            }
    } else {
        &&& c1 == (ContentServer {
            topology: c1.topology,
            sent_packets: c1.sent_packets,
            packet_to_retry: c1.packet_to_retry,
            flood_time: c1.flood_time,
            ..c0
        })
        &&& c1.retained().dom() == c0.retained().dom()
        &&& forall|x: u8| #[trigger]
            c1.topology.has_node(x) == (c0.topology.has_node(x) || in_trace(t, t.len() as int, x))
        &&& forall|x: u8, y: u8| #[trigger]
            c1.topology.has_edge(x, y) == (c0.topology.has_edge(x, y) || trace_edge(
                t,
                t.len() as int,
                x,
                y,
            ))
        &&& r.len() > 0
        &&& r[0] == Action::FloodResponseReceived(p.kind->FloodResponse_0)
        &&& drained(
            ContentServer { topology: c1.topology, ..c0 },
            c1,
            r.subrange(1, r.len() as int),
        )
    }
}

impl ContentServer {
    /// Starts a flood at time `now` unless the previous one is too recent.
    /// Each installed neighbour, ascending, gets the same request.
    pub fn start_flood(&mut self, now: u64, flood_id: u64, session_id: u64) -> (r: Vec<Action>)
        requires
            old(self).wf(),
        ensures
            final(self).wf(),
            cooling_down(old(self).flood_time, now) ==> *final(self) == *old(self) && r@.len() == 0,
            !cooling_down(old(self).flood_time, now) ==> {
                let ids = installed_ids(old(self).neighbors@, 256);
                &&& *final(self) == (ContentServer { flood_time: now, ..*old(self) })
                &&& r@.len() == ids.len() + 1
                &&& forall|k: int|
                    0 <= k < ids.len() ==> is_send(
                        #[trigger] r@[k],
                        ids[k],
                        flood_start_packet(old(self).server_id, flood_id, session_id),
                    )
                &&& r@[ids.len() as int] == Action::FloodRequestSent
            },
    {
        if now.saturating_sub(self.flood_time) < FLOOD_COOLDOWN_MS {
            return Vec::new();
        }
        self.flood_time = now;
        let ids = self.neighbor_ids();
        let mut r: Vec<Action> = Vec::new();
        let mut k: usize = 0;
        while k < ids.len()
            invariant
                k <= ids.len(),
                r@.len() == k,
                forall|q: int|
                    0 <= q < k ==> is_send(
                        #[trigger] r@[q],
                        ids@[q],
                        flood_start_packet(self.server_id, flood_id, session_id),
                    ),
            decreases ids.len() - k,
        {
            let mut trace: Vec<(u8, NodeType)> = Vec::new();
            trace.push((self.server_id, NodeType::Server));
            let p = Packet {
                pack_type: PacketType::FloodRequest(
                    FloodRequest { flood_id, initiator_id: self.server_id, path_trace: trace },
                ),
                session_id,
                routing_header: SourceRoutingHeader { hop_index: 1, hops: Vec::new() },
            };
            assert(p@.kind == flood_start_packet(self.server_id, flood_id, session_id).kind);
            assert(p@.hops =~= Seq::<u8>::empty());
            r.push(Action::Send(ids[k], p));
            k = k + 1;
        }
        r.push(Action::FloodRequestSent);
        r
    }

    /// Starts a flood now, with a fresh random flood id, unless the previous
    /// one is too recent. Whatever the clock says, only the flood time changes.
    pub fn send_flood_request(&mut self) -> (r: Vec<Action>)
        requires
            old(self).wf(),
        ensures
            final(self).wf(),
            *final(self) == (ContentServer { flood_time: final(self).flood_time, ..*old(self) }),
            flood_attempt(*old(self), final(self).flood_time, r@),
    {
        let now = now_millis();
        let flood_id = random_u64();
        let session_id = random_u64();
        let r = self.start_flood(now, flood_id, session_id);
        assert(r@.len() > 0 ==> floods_with(*old(self), r@, flood_id, session_id));
        r
    }

    /// Relays a foreign flood request, with this server appended to its
    /// trace, to every installed neighbour except the one it came from.
    pub fn on_flood_request(&self, s: u64, req: &FloodRequest) -> (r: Vec<Action>)
        requires
            self.wf(),
        ensures
            relayed(*self, r@, s, req.flood_id, req.initiator_id, req.path_trace@),
    {
        let n = req.path_trace.len();
        let has_sender = n > 0;
        let sender: u8 = if n > 0 {
            req.path_trace[n - 1].0
        } else {
            0
        };
        let ghost pkt = relayed_request(
            self.server_id,
            s,
            req.flood_id,
            req.initiator_id,
            req.path_trace@,
        );
        let mut r: Vec<Action> = Vec::new();
        let mut w: usize = 0;
        while w < 256
            invariant
                w <= 256,
                self.wf(),
                n == req.path_trace@.len(),
                has_sender == (n > 0),
                has_sender ==> sender == req.path_trace@[n - 1].0,
                pkt == relayed_request(
                    self.server_id,
                    s,
                    req.flood_id,
                    req.initiator_id,
                    req.path_trace@,
                ),
                r@.len() == relay_ids(self.neighbors@, req.path_trace@, w as int).len(),
                forall|k: int|
                    0 <= k < r@.len() ==> is_send(
                        #[trigger] r@[k],
                        relay_ids(self.neighbors@, req.path_trace@, w as int)[k],
                        pkt,
                    ),
            decreases 256 - w,
        {
            if self.neighbors[w] && !(has_sender && sender == w as u8) {
                let mut trace = copy_trace(&req.path_trace);
                trace.push((self.server_id, NodeType::Server));
                let p = Packet {
                    pack_type: PacketType::FloodRequest(
                        FloodRequest {
                            flood_id: req.flood_id,
                            initiator_id: req.initiator_id,
                            path_trace: trace,
                        },
                    ),
                    session_id: s,
                    routing_header: SourceRoutingHeader { hop_index: 0, hops: Vec::new() },
                };
                assert(p@.hops =~= Seq::<u8>::empty());
                assert(p@ == pkt);
                r.push(Action::Send(w as u8, p));
            }
            assert(came_from(req.path_trace@, w as u8) == (has_sender && sender == w as u8));
            w = w + 1;
        }
        r
    }

    /// Handles a flood reply. One whose trace starts elsewhere is passed on
    /// to `hops[hop_index + 1]` with its hop index advanced by one, and the
    /// server is otherwise untouched. One that answers this server's flood
    /// adds the nodes of its trace and the edges between consecutive ones to
    /// the graph, tells the supervisor, then sends the retry set again.
    pub fn on_flood_response(&mut self, packet: &Packet) -> (r: Vec<Action>)
        requires
            old(self).wf(),
            packet@.kind is FloodResponse,
        ensures
            final(self).wf(),
            flood_reply(*old(self), *final(self), r@, packet@),
    {
        let resp = match &packet.pack_type {
            PacketType::FloodResponse(resp) => resp,
            _ => {
                return Vec::new();
            },
        };
        let t = &resp.path_trace;
        if !(t.len() > 0 && t[0].0 == self.server_id) {
            let mut r: Vec<Action> = Vec::new();
            let h = packet.routing_header.hop_index;
            let n = packet.routing_header.hops.len();
            if n > 0 && h < n - 1 {
                let next = packet.routing_header.hops[h + 1];
                if self.neighbors[next as usize] {
                    let fwd = Packet {
                        pack_type: packet.pack_type.copy(),
                        session_id: packet.session_id,
                        routing_header: SourceRoutingHeader {
                            hop_index: h + 1,
                            hops: copy_bytes(&packet.routing_header.hops),
                        },
                    };
                    r.push(Action::Send(next, fwd));
                    assert(r@[0] is Send);
                }
            }
            return r;
        }
        let mut q: usize = 0;
        while q < t.len()
            invariant
                q <= t.len(),
                self.wf(),
                *self == (ContentServer { topology: self.topology, ..*old(self) }),
                forall|x: u8| #[trigger]
                    self.topology.has_node(x) == (old(self).topology.has_node(x) || in_trace(
                        t@,
                        q as int,
                        x,
                    )),
                forall|x: u8, y: u8| #[trigger]
                    self.topology.has_edge(x, y) == (old(self).topology.has_edge(x, y)
                        || trace_edge(t@, q as int, x, y)),
            decreases t.len() - q,
        {
            let u = t[q].0;
            self.topology.add_node(u);
            if q > 0 {
                let prev = t[q - 1].0;
                self.topology.add_edge(prev, u);
            }
            assert forall|x: u8| #[trigger]
                self.topology.has_node(x) == (old(self).topology.has_node(x) || in_trace(
                    t@,
                    q + 1,
                    x,
                )) by {
                if in_trace(t@, q + 1, x) && !in_trace(t@, q as int, x) {
                    assert(t@[q as int].0 == x);
                }
                if x == u {
                    assert(t@[q as int].0 == x);
                }
                if in_trace(t@, q as int, x) {
                    let w = choose|w: int| 0 <= w < q && #[trigger] t@[w].0 == x;
                    assert(t@[w].0 == x);
                }
            }
            assert forall|x: u8, y: u8| #[trigger]
                self.topology.has_edge(x, y) == (old(self).topology.has_edge(x, y) || trace_edge(
                    t@,
                    q + 1,
                    x,
                    y,
                )) by {
                if trace_edge(t@, q + 1, x, y) && !trace_edge(t@, q as int, x, y) {
                    let w = choose|w: int|
                        0 < w < q + 1 && ((#[trigger] t@[w - 1].0 == x && t@[w].0 == y) || (t@[w
                            - 1].0 == y && t@[w].0 == x));
                    assert(w == q);
                }
                if q > 0 && ((x == t@[q - 1].0 && y == u) || (x == u && y == t@[q - 1].0)) {
                    assert(t@[q as int - 1].0 == x || t@[q as int - 1].0 == y);
                    assert(trace_edge(t@, q + 1, x, y));
                }
                if trace_edge(t@, q as int, x, y) {
                    let w = choose|w: int|
                        0 < w < q && ((#[trigger] t@[w - 1].0 == x && t@[w].0 == y) || (t@[w
                            - 1].0 == y && t@[w].0 == x));
                    assert(t@[w - 1].0 == x || t@[w - 1].0 == y);
                }
            }
            q = q + 1;
        }
        let mut r: Vec<Action> = Vec::new();
        r.push(Action::FloodResponseReceived(resp.flood_id));
        let mut rest = self.resend_packets_in_queue();
        let ghost restv = rest@;
        r.append(&mut rest);
        assert(r@.subrange(1, r@.len() as int) =~= restv);
        assert(r@[0] == Action::FloodResponseReceived(resp.flood_id));
        r
    }
}

} // verus!
