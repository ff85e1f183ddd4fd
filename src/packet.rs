use vstd::prelude::*;

verus! {

/// Number of payload bytes that one fragment carries.
pub const FRAG_SIZE: usize = 128;

/// Role of a node, as recorded in a flood's path trace.
#[derive(Clone, Copy, Debug, PartialEq, Eq, Structural)]
pub enum NodeType {
    Client,
    Drone,
    Server,
}

/// Why a drone reported that a fragment could not be delivered.
#[derive(Clone, Copy, Debug, PartialEq, Eq, Structural)]
pub enum NackType {
    ErrorInRouting(u8),
    DestinationIsDrone,
    Dropped,
    UnexpectedRecipient,
}

/// One fixed-size piece of an application message.
#[derive(Clone, Debug, PartialEq, Eq)]
pub struct Fragment {
    pub fragment_index: u64,
    pub total_n_fragments: u64,
    pub length: u8,
    pub data: Vec<u8>,
}

#[derive(Clone, Copy, Debug, PartialEq, Eq, Structural)]
pub struct Ack {
    pub fragment_index: u64,
}

#[derive(Clone, Copy, Debug, PartialEq, Eq, Structural)]
pub struct Nack {
    pub fragment_index: u64,
    pub nack_type: NackType,
}

/// Network discovery request; each node it crosses appends itself to the trace.
#[derive(Clone, Debug, PartialEq, Eq)]
pub struct FloodRequest {
    pub flood_id: u64,
    pub initiator_id: u8,
    pub path_trace: Vec<(u8, NodeType)>,
}

/// Answer to a flood request, carrying the trace back to its initiator.
#[derive(Clone, Debug, PartialEq, Eq)]
pub struct FloodResponse {
    pub flood_id: u64,
    pub path_trace: Vec<(u8, NodeType)>,
}

#[derive(Clone, Debug, PartialEq, Eq)]
pub enum PacketType {
    MsgFragment(Fragment),
    Ack(Ack),
    Nack(Nack),
    FloodRequest(FloodRequest),
    FloodResponse(FloodResponse),
}

/// Source route: `hops[0]` is the originator, the last hop the destination,
/// and `hop_index` the position of the next node to receive the packet.
#[derive(Clone, Debug, PartialEq, Eq)]
pub struct SourceRoutingHeader {
    pub hop_index: usize,
    pub hops: Vec<u8>,
}

#[derive(Clone, Debug, PartialEq, Eq)]
pub struct Packet {
    pub pack_type: PacketType,
    pub session_id: u64,
    pub routing_header: SourceRoutingHeader,
}

/// Mathematical value of a fragment.
pub struct FragmentView {
    pub index: u64,
    pub total: u64,
    pub length: u8,
    pub data: Seq<u8>,
}

pub enum PacketTypeView {
    MsgFragment(FragmentView),
    Ack(u64),
    Nack(u64, NackType),
    FloodRequest(u64, u8, Seq<(u8, NodeType)>),
    FloodResponse(u64, Seq<(u8, NodeType)>),
}

/// Mathematical value of a packet.
pub struct PacketView {
    pub kind: PacketTypeView,
    pub session_id: u64,
    pub hop_index: usize,
    pub hops: Seq<u8>,
}

impl View for Fragment {
    type V = FragmentView;

    open spec fn view(&self) -> FragmentView {
        FragmentView {
            index: self.fragment_index,
            total: self.total_n_fragments,
            length: self.length,
            data: self.data@,
        }
    }
}

impl View for PacketType {
    type V = PacketTypeView;

    open spec fn view(&self) -> PacketTypeView {
        match self {
            PacketType::MsgFragment(f) => PacketTypeView::MsgFragment(f@),
            PacketType::Ack(a) => PacketTypeView::Ack(a.fragment_index),
            PacketType::Nack(n) => PacketTypeView::Nack(n.fragment_index, n.nack_type),
            PacketType::FloodRequest(r) => PacketTypeView::FloodRequest(
                r.flood_id,
                r.initiator_id,
                r.path_trace@,
            ),
            PacketType::FloodResponse(r) => PacketTypeView::FloodResponse(r.flood_id, r.path_trace@),
        }
    }
}

impl View for Packet {
    type V = PacketView;

    open spec fn view(&self) -> PacketView {
        PacketView {
            kind: self.pack_type@,
            session_id: self.session_id,
            hop_index: self.routing_header.hop_index,
            hops: self.routing_header.hops@,
        }
    }
}

impl PacketView {
    /// The fragment index a packet speaks of: its fragment's, ack's or nack's.
    pub open spec fn fragment_index(self) -> Option<u64> {
        match self.kind {
            PacketTypeView::MsgFragment(f) => Some(f.index),
            PacketTypeView::Ack(i) => Some(i),
            PacketTypeView::Nack(i, _) => Some(i),
            _ => None,
        }
    }

    pub open spec fn is_fragment(self) -> bool {
        self.kind is MsgFragment
    }
}

/// `s` read back to front.
pub open spec fn reversed<T>(s: Seq<T>) -> Seq<T> {
    Seq::new(s.len(), |i: int| s[s.len() - 1 - i])
}

pub fn copy_bytes(v: &Vec<u8>) -> (r: Vec<u8>)
    ensures
        r@ == v@,
{
    let r = v.clone();
    assert(r@ =~= v@);
    r
}

pub fn copy_trace(v: &Vec<(u8, NodeType)>) -> (r: Vec<(u8, NodeType)>)
    ensures
        r@ == v@,
{
    let mut r: Vec<(u8, NodeType)> = Vec::new();
    let mut i: usize = 0;
    while i < v.len()
        invariant
            i <= v.len(),
            r@ == v@.subrange(0, i as int),
        decreases v.len() - i,
    {
        r.push(v[i]);
        i = i + 1;
        assert(r@ =~= v@.subrange(0, i as int));
    }
    assert(v@.subrange(0, v.len() as int) =~= v@);
    r
}

/// `v` in reverse order.
pub fn reverse_route(v: &Vec<u8>) -> (r: Vec<u8>)
    ensures
        r@ == reversed(v@),
{
    let mut r: Vec<u8> = Vec::new();
    let mut i: usize = v.len();
    while i > 0
        invariant
            i <= v.len(),
            r@ == reversed(v@).subrange(0, (v.len() - i) as int),
        decreases i,
    {
        i = i - 1;
        r.push(v[i]);
        assert(r@ =~= reversed(v@).subrange(0, (v.len() - i) as int));
    }
    assert(reversed(v@).subrange(0, v.len() as int) =~= reversed(v@));
    r
}

impl Fragment {
    pub fn copy(&self) -> (r: Fragment)
        ensures
            r@ == self@,
    {
        Fragment {
            fragment_index: self.fragment_index,
            total_n_fragments: self.total_n_fragments,
            length: self.length,
            data: copy_bytes(&self.data),
        }
    }
}

impl PacketType {
    pub fn copy(&self) -> (r: PacketType)
        ensures
            r@ == self@,
    {
        match self {
            PacketType::MsgFragment(f) => PacketType::MsgFragment(f.copy()),
            PacketType::Ack(a) => PacketType::Ack(*a),
            PacketType::Nack(n) => PacketType::Nack(*n),
            PacketType::FloodRequest(r) => PacketType::FloodRequest(
                FloodRequest {
                    flood_id: r.flood_id,
                    initiator_id: r.initiator_id,
                    path_trace: copy_trace(&r.path_trace),
                },
            ),
            PacketType::FloodResponse(r) => PacketType::FloodResponse(
                FloodResponse { flood_id: r.flood_id, path_trace: copy_trace(&r.path_trace) },
            ),
        }
    }
}

impl Packet {
    pub fn copy(&self) -> (r: Packet)
        ensures
            r@ == self@,
    {
        Packet {
            pack_type: self.pack_type.copy(),
            session_id: self.session_id,
            routing_header: SourceRoutingHeader {
                hop_index: self.routing_header.hop_index,
                hops: copy_bytes(&self.routing_header.hops),
            },
        }
    }

    /// Fragment index of a fragment, ack or nack; `None` for flood packets.
    pub fn get_fragment_index(&self) -> (r: Option<u64>)
        ensures
            r == self@.fragment_index(),
    {
        match &self.pack_type {
            PacketType::MsgFragment(f) => Some(f.fragment_index),
            PacketType::Ack(a) => Some(a.fragment_index),
            PacketType::Nack(n) => Some(n.fragment_index),
            _ => None,
        }
    }
}

} // verus!
