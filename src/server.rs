use std::collections::HashMap;
use vstd::prelude::*;

use crate::assembler::{step, Assembler};
use crate::delivery::{ack_retention, first_with_index, nacked};
use crate::flood::{flood_attempt, flood_reply, lemma_flood_attempt_frame, relayed};
use crate::requests::answered;
use crate::packet::{
    reverse_route, reversed, Ack, Fragment, FragmentView, Packet, PacketType, PacketTypeView, PacketView,
    SourceRoutingHeader,
};
use crate::index::ids_of;
use crate::topology::Topology;

verus! {

broadcast use vstd::std_specs::hash::group_hash_axioms;

/// Kind of content a server offers.
#[derive(Clone, Copy, Debug, PartialEq, Eq, Structural)]
pub enum ServerType {
    Text,
    Media,
    Chat,
}

/// Configuration the server refuses to start with.
#[derive(Clone, Copy, Debug, PartialEq, Eq, Structural)]
pub enum ConfigError {
    UnsupportedServerType,
}

/// Which index a file comes from.
#[derive(Clone, Copy, Debug, PartialEq, Eq, Structural)]
pub enum FileKind {
    Text,
    Media,
}

/// A file the caller must read before the answer can be sent.
#[derive(Clone, Debug, PartialEq, Eq)]
pub struct Load {
    pub kind: FileKind,
    pub id: u8,
    pub path: String,
    pub destination: u8,
    pub session_id: u64,
    pub route: Vec<u8>,
}

/// Something the caller must carry out for the server.
#[derive(Clone, Debug)]
pub enum Action {
    /// Hand the packet to the channel of this neighbour.
    Send(u8, Packet),
    /// Tell the supervisor that every fragment of a message went out.
    MessageSent(u64),
    /// Tell the supervisor that a flood was started.
    FloodRequestSent,
    /// Tell the supervisor that a flood reply for this node was absorbed.
    FloodResponseReceived(u64),
    /// Read a file and pass its content back to the server.
    Load(Load),
    /// Give the supervisor this copy of the graph.
    TopologyResponse(Topology),
}

/// A command from the supervisor.
#[derive(Clone, Copy, Debug, PartialEq, Eq, Structural)]
pub enum Command {
    /// A channel to this neighbour was handed over.
    AddSender(u8),
    /// The channel to this neighbour was taken away.
    RemoveSender(u8),
    /// The supervisor asks for the graph.
    Topology,
}

/// Views of a sequence of packets.
pub open spec fn views(s: Seq<Packet>) -> Seq<PacketView> {
    s.map_values(|p: Packet| p@)
}

/// `a` is the packet `p` handed to neighbour `to`.
pub open spec fn is_send(a: Action, to: u8, p: PacketView) -> bool {
    a is Send && a->Send_0 == to && a->Send_1@ == p
}

/// The ids of the neighbours installed in `flags`, ascending.
pub open spec fn installed_ids(flags: Seq<bool>, below: int) -> Seq<u8>
    decreases below,
{
    if below <= 0 {
        Seq::empty()
    } else {
        let rest = installed_ids(flags, below - 1);
        if flags[below - 1] {
            rest.push((below - 1) as u8)
        } else {
            rest
        }
    }
}

/// The ack that answers fragment `i` of session `s` that came along `hops`.
pub open spec fn ack_packet(i: u64, s: u64, hops: Seq<u8>) -> PacketView {
    PacketView { kind: PacketTypeView::Ack(i), session_id: s, hop_index: 1, hops: reversed(hops) }
}

/// `c1` and `r` are what installing a channel to `id` makes of `c0`: `id`
/// becomes a neighbour, the edge to it enters the graph, and a flood is
/// attempted over the new neighbours.
pub open spec fn added_sender(c0: ContentServer, c1: ContentServer, r: Seq<Action>, id: u8) -> bool {
    &&& c1 == (ContentServer {
        neighbors: c1.neighbors,
        topology: c1.topology,
        flood_time: c1.flood_time,
        ..c0
    })
    &&& c1.neighbors@.len() == 256
    &&& forall|x: u8| #[trigger] c1.has_neighbor(x) == (c0.has_neighbor(x) || x == id)
    &&& forall|x: u8| #[trigger]
        c1.topology.has_node(x) == (c0.topology.has_node(x) || x == id || x == c0.server_id)
    &&& forall|x: u8, y: u8| #[trigger]
        c1.topology.has_edge(x, y) == (c0.topology.has_edge(x, y) || (x == c0.server_id && y == id)
            || (x == id && y == c0.server_id))
    &&& flood_attempt(
        ContentServer { neighbors: c1.neighbors, topology: c1.topology, ..c0 },
        c1.flood_time,
        r,
    )
}

/// `c1` is what dropping the channel to `id` makes of `c0`: only the edge
/// between the server and `id` leaves the graph.
pub open spec fn removed_sender(c0: ContentServer, c1: ContentServer, id: u8) -> bool {
    &&& c1 == (ContentServer { neighbors: c1.neighbors, topology: c1.topology, ..c0 })
    &&& c1.neighbors@.len() == 256
    &&& forall|x: u8| #[trigger] c1.has_neighbor(x) == (c0.has_neighbor(x) && x != id)
    &&& forall|x: u8| #[trigger] c1.topology.has_node(x) == c0.topology.has_node(x)
    &&& forall|x: u8, y: u8| #[trigger]
        c1.topology.has_edge(x, y) == (c0.topology.has_edge(x, y) && !((x == c0.server_id && y
            == id) || (x == id && y == c0.server_id)))
}

/// `c1` and `r` are what taking fragment `f` of session `s` that came along
/// `hops` makes of `c0`: the ack goes first, when a channel to the
/// neighbour at the reversed second hop is installed; the assembler takes
/// its step; a message it completes is answered as a request from `hops[0]`;
/// otherwise nothing else happens.
pub open spec fn took_fragment(
    c0: ContentServer,
    c1: ContentServer,
    r: Seq<Action>,
    f: FragmentView,
    s: u64,
    hops: Seq<u8>,
) -> bool {
    let acked = c0.has_neighbor(reversed(hops)[1]);
    let k: int = if acked {
        1
    } else {
        0
    };
    let mid = ContentServer { assembler: c1.assembler, ..c0 };
    &&& c1.assembler@ == step(c0.assembler@, f, s).0
    &&& r.len() >= k
    &&& acked ==> is_send(r[0], reversed(hops)[1], ack_packet(f.index, s, hops))
    &&& match step(c0.assembler@, f, s).1 {
        Some(m) => answered(mid, c1, r.subrange(k, r.len() as int), hops[0], s, m, hops),
        None => r.len() == k && c1 == mid,
    }
}

/// A content server's reliable-messaging and topology state.
pub struct ContentServer {
    pub server_id: u8,
    /// Whether a channel to each node id is installed.
    pub neighbors: Vec<bool>,
    pub topology: Topology,
    /// Fragments sent and not yet acknowledged, by session.
    pub sent_packets: HashMap<u64, Vec<Packet>>,
    /// `(session, fragment index)` of fragments waiting for a route.
    pub packet_to_retry: Vec<(u64, u64)>,
    pub files: Vec<(u8, String)>,
    pub media: Vec<(u8, String)>,
    pub server_type: ServerType,
    pub assembler: Assembler,
    /// Time of the last flood initiation, in milliseconds.
    pub flood_time: u64,
    pub is_debug: bool,
}

impl ContentServer {
    /// Retained fragments, by session.
    pub open spec fn retained(&self) -> Map<u64, Seq<PacketView>> {
        Map::new(
            |s: u64| self.sent_packets@.contains_key(s),
            |s: u64| views(self.sent_packets@[s]@),
        )
    }

    pub open spec fn retry_set(&self) -> Set<(u64, u64)> {
        self.packet_to_retry@.to_set()
    }

    pub open spec fn has_neighbor(&self, id: u8) -> bool {
        self.neighbors@[id as int]
    }

    /// The retained packet `p` of session `s` can be sent again.
    pub open spec fn well_retained(s: u64, p: PacketView) -> bool {
        &&& p.is_fragment()
        &&& p.session_id == s
        &&& p.hops.len() >= 2
    }

    pub open spec fn wf(&self) -> bool {
        &&& self.topology.wf()
        &&& self.assembler.wf()
        &&& self.neighbors@.len() == 256
        &&& self.server_type != ServerType::Chat
        &&& ids_of(self.files@).no_duplicates()
        &&& ids_of(self.media@).no_duplicates()
        &&& self.packet_to_retry@.no_duplicates()
        &&& forall|s: u64| #[trigger]
            self.sent_packets@.contains_key(s) ==> self.sent_packets@[s]@.len() > 0
        &&& forall|s: u64, k: int|
            self.sent_packets@.contains_key(s) && 0 <= k < self.sent_packets@[s]@.len()
                ==> Self::well_retained(s, #[trigger] self.sent_packets@[s]@[k]@)
    }

    /// A retained session always holds at least one fragment: once its last
    /// fragment is acknowledged the session leaves the retention map.
    pub proof fn lemma_retention_nonempty(&self, s: u64)
        requires
            self.wf(),
        ensures
            self.retained().contains_key(s) ==> self.retained()[s].len() > 0,
    {
    }

    /// Builds a server with channels to `neighbor_ids` and the given file
    /// indexes; a chat server is refused.
    pub fn new(
        server_id: u8,
        neighbor_ids: &Vec<u8>,
        files: Vec<(u8, String)>,
        media: Vec<(u8, String)>,
        server_type: ServerType,
        is_debug: bool,
    ) -> (r: Result<ContentServer, ConfigError>)
        requires
            ids_of(files@).no_duplicates(),
            ids_of(media@).no_duplicates(),
        ensures
            server_type == ServerType::Chat <==> (r is Err),
            r is Ok ==> {
                let c = r->Ok_0;
                &&& c.wf()
                &&& c.server_id == server_id
                &&& c.server_type == server_type
                &&& c.files == files
                &&& c.media == media
                &&& c.flood_time == 0
                &&& c.retained() == Map::<u64, Seq<PacketView>>::empty()
                &&& c.retry_set() == Set::<(u64, u64)>::empty()
                &&& forall|x: u8| !c.topology.has_node(x)
                &&& forall|x: u8| #[trigger] c.has_neighbor(x) <==> neighbor_ids@.contains(x)
            },
    {
        if server_type == ServerType::Chat {
            return Err(ConfigError::UnsupportedServerType);
        }
        let mut neighbors: Vec<bool> = Vec::new();
        let mut i: usize = 0;
        while i < 256
            invariant
                i <= 256,
                neighbors@.len() == i,
                forall|k: int| 0 <= k < i ==> !neighbors@[k],
            decreases 256 - i,
        {
            neighbors.push(false);
            i = i + 1;
        }
        let mut j: usize = 0;
        while j < neighbor_ids.len()
            invariant
                j <= neighbor_ids.len(),
                neighbors@.len() == 256,
                forall|x: u8| #[trigger]
                    neighbors@[x as int] <==> neighbor_ids@.subrange(0, j as int).contains(x),
            decreases neighbor_ids.len() - j,
        {
            let id = neighbor_ids[j];
            neighbors.set(id as usize, true);
            assert forall|x: u8| #[trigger]
                neighbors@[x as int] <==> neighbor_ids@.subrange(0, j + 1).contains(x) by {
                let pre = neighbor_ids@.subrange(0, j as int);
                let post = neighbor_ids@.subrange(0, j + 1);
                assert(post =~= pre.push(id));
                if pre.contains(x) {
                    let k = choose|k: int| 0 <= k < pre.len() && pre[k] == x;
                    assert(post[k] == x);
                }
                if post.contains(x) && x != id {
                    let k = choose|k: int| 0 <= k < post.len() && post[k] == x;
                    assert(pre[k] == x);
                }
                if x == id {
                    assert(post[j as int] == x);
                }
            }
            j = j + 1;
        }
        assert(neighbor_ids@.subrange(0, neighbor_ids.len() as int) =~= neighbor_ids@);
        let c = ContentServer {
            server_id,
            neighbors,
            topology: Topology::new(),
            sent_packets: HashMap::new(),
            packet_to_retry: Vec::new(),
            files,
            media,
            server_type,
            assembler: Assembler::new(),
            flood_time: 0,
            is_debug,
        };
        assert(c.retained() =~= Map::<u64, Seq<PacketView>>::empty());
        assert(c.retry_set() =~= Set::<(u64, u64)>::empty());
        Ok(c)
    }

    pub fn has_sender(&self, id: u8) -> (r: bool)
        requires
            self.wf(),
        ensures
            r == self.has_neighbor(id),
    {
        self.neighbors[id as usize]
    }

    /// Ids of the installed neighbours, ascending.
    pub fn neighbor_ids(&self) -> (r: Vec<u8>)
        requires
            self.wf(),
        ensures
            r@ == installed_ids(self.neighbors@, 256),
    {
        let mut r: Vec<u8> = Vec::new();
        let mut w: usize = 0;
        while w < 256
            invariant
                w <= 256,
                self.wf(),
                r@ == installed_ids(self.neighbors@, w as int),
            decreases 256 - w,
        {
            if self.neighbors[w] {
                r.push(w as u8);
            }
            w = w + 1;
        }
        r
    }

    /// Installs a channel to `id`, records the edge to it and starts a flood.
    pub fn handle_add_sender(&mut self, id: u8) -> (r: Vec<Action>)
        requires
            old(self).wf(),
        ensures
            final(self).wf(),
            added_sender(*old(self), *final(self), r@, id),
    {
        self.neighbors.set(id as usize, true);
        self.topology.add_node(id);
        let me = self.server_id;
        self.topology.add_edge(me, id);
        let ghost mid = *self;
        let r = self.send_flood_request();
        proof {
            lemma_flood_attempt_frame(
                mid,
                ContentServer { neighbors: self.neighbors, topology: self.topology, ..*old(self) },
                self.flood_time,
                r@,
            );
        }
        r
    }

    /// Drops the channel to `id` and the edge to it; the node `id` stays.
    pub fn handle_remove_sender(&mut self, id: u8)
        requires
            old(self).wf(),
        ensures
            final(self).wf(),
            removed_sender(*old(self), *final(self), id),
    {
        self.neighbors.set(id as usize, false);
        let me = self.server_id;
        self.topology.remove_edge(me, id);
    }

    /// The ack for fragment `i` of session `s` that came along `hops`: it
    /// goes back along the reversed hops, to the neighbour at position one,
    /// without consulting the graph.
    pub fn send_ack(&self, i: u64, s: u64, hops: &Vec<u8>) -> (r: Option<Action>)
        requires
            self.wf(),
            hops@.len() >= 2,
        ensures
            (r is Some) == self.has_neighbor(reversed(hops@)[1]),
            r is Some ==> is_send(r->Some_0, reversed(hops@)[1], ack_packet(i, s, hops@)),
    {
        let back = reverse_route(hops);
        let next = back[1];
        if self.neighbors[next as usize] {
            Some(
                Action::Send(
                    next,
                    Packet {
                        pack_type: PacketType::Ack(Ack { fragment_index: i }),
                        session_id: s,
                        routing_header: SourceRoutingHeader { hop_index: 1, hops: back },
                    },
                ),
            )
        } else {
            None
        }
    }

    /// Takes fragment `f` of session `s` that came along `hops`: acks it
    /// first, then hands it to the assembler, and answers the request it
    /// completes, if any, on behalf of `hops[0]`.
    pub fn on_fragment(&mut self, f: &Fragment, s: u64, hops: &Vec<u8>) -> (r: Vec<Action>)
        requires
            old(self).wf(),
            hops@.len() >= 2,
        ensures
            final(self).wf(),
            took_fragment(*old(self), *final(self), r@, f@, s, hops@),
    {
        let mut r: Vec<Action> = Vec::new();
        match self.send_ack(f.fragment_index, s, hops) {
            Some(a) => {
                r.push(a);
            },
            None => {},
        }
        let ghost r1 = r@;
        match self.assembler.add_fragment(f, s) {
            Some(msg) => {
                let mut more = self.process_request(hops[0], s, &msg, hops);
                let ghost rest = more@;
                r.append(&mut more);
                assert(r1.len() > 0 ==> r@[0] == r1[0]);
                assert(r@.subrange(r1.len() as int, r@.len() as int) =~= rest);
            },
            None => {},
        }
        r
    }

    /// Handles a packet from a neighbour, by kind.
    pub fn handle_drone_packets(&mut self, packet: Packet) -> (r: Vec<Action>)
        requires
            old(self).wf(),
        ensures
            final(self).wf(),
            match packet@.kind {
                PacketTypeView::MsgFragment(f) => if packet@.hops.len() < 2 {
                    *final(self) == *old(self) && r@.len() == 0
                } else {
                    took_fragment(*old(self), *final(self), r@, f, packet@.session_id, packet@.hops)
                },
                PacketTypeView::FloodRequest(flood_id, initiator, t) => {
                    &&& *final(self) == *old(self)
                    &&& relayed(*old(self), r@, packet@.session_id, flood_id, initiator, t)
                },
                PacketTypeView::FloodResponse(..) => flood_reply(
                    *old(self),
                    *final(self),
                    r@,
                    packet@,
                ),
                PacketTypeView::Ack(i) => {
                    &&& final(self).retained() == ack_retention(
                        old(self).retained(),
                        packet@.session_id,
                        i,
                    )
                    &&& *final(self) == (ContentServer {
                        sent_packets: final(self).sent_packets,
                        ..*old(self)
                    })
                    &&& r@.len() == 0
                },
                PacketTypeView::Nack(i, kind) => {
                    &&& (!old(self).retained().contains_key(packet@.session_id) || forall|k: int|
                        0 <= k < old(self).retained()[packet@.session_id].len()
                            ==> #[trigger] old(self).retained()[packet@.session_id][k].fragment_index()
                            != Some(i)) ==> (*final(self) == *old(self) && r@.len() == 0)
                    &&& forall|pos: int|
                        old(self).retained().contains_key(packet@.session_id) && #[trigger] first_with_index(
                            old(self).retained()[packet@.session_id],
                            i,
                            pos,
                        ) ==> nacked(*old(self), *final(self), r@, packet@.session_id, pos, kind)
                },
            },
    {
        match &packet.pack_type {
            PacketType::MsgFragment(f) => {
                if packet.routing_header.hops.len() < 2 {
                    return Vec::new();
                }
                self.on_fragment(f, packet.session_id, &packet.routing_header.hops)
            },
            PacketType::FloodResponse(_) => self.on_flood_response(&packet),
            PacketType::FloodRequest(req) => self.on_flood_request(packet.session_id, req),
            PacketType::Ack(a) => {
                self.on_ack_arrived(packet.session_id, a.fragment_index);
                Vec::new()
            },
            PacketType::Nack(n) => self.on_nack_arrived(packet.session_id, *n),
        }
    }

    /// Answers the supervisor's request for the graph with a copy of it.
    pub fn handle_topology_request(&self) -> (r: Vec<Action>)
        requires
            self.wf(),
        ensures
            r@.len() == 1,
            r@[0] is TopologyResponse,
            forall|x: u8| #[trigger]
                r@[0]->TopologyResponse_0.has_node(x) == self.topology.has_node(x),
            forall|x: u8, y: u8| #[trigger]
                r@[0]->TopologyResponse_0.has_edge(x, y) == self.topology.has_edge(x, y),
    {
        let mut r: Vec<Action> = Vec::new();
        r.push(Action::TopologyResponse(self.topology.snapshot()));
        r
    }

    /// Handles a command from the supervisor.
    pub fn handle_sim_controller_packets(&mut self, cmd: Command) -> (r: Vec<Action>)
        requires
            old(self).wf(),
        ensures
            final(self).wf(),
            match cmd {
                Command::AddSender(id) => added_sender(*old(self), *final(self), r@, id),
                Command::RemoveSender(id) => removed_sender(*old(self), *final(self), id) && r@.len()
                    == 0,
                Command::Topology => {
                    &&& *final(self) == *old(self)
                    &&& r@.len() == 1
                    &&& r@[0] is TopologyResponse
                    &&& forall|x: u8| #[trigger]
                        r@[0]->TopologyResponse_0.has_node(x) == old(self).topology.has_node(x)
                    &&& forall|x: u8, y: u8| #[trigger]
                        r@[0]->TopologyResponse_0.has_edge(x, y) == old(self).topology.has_edge(x, y)
                },
            },
    {
        match cmd {
            Command::AddSender(id) => self.handle_add_sender(id),
            Command::RemoveSender(id) => {
                self.handle_remove_sender(id);
                Vec::new()
            },
            Command::Topology => self.handle_topology_request(),
        }
    }
}

} // verus!
