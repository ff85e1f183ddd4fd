use vstd::prelude::*;

verus! {

/// Number of distinct node ids.
pub const N_NODES: usize = 256;

/// Undirected graph over node ids: a presence flag per node and an adjacency
/// matrix laid out row by row.
#[derive(Clone, Debug)]
pub struct Topology {
    present: Vec<bool>,
    adj: Vec<bool>,
}

pub open spec fn cell(u: u8, v: u8) -> int {
    u as int * 256 + v as int
}

/// `p` walks from `src` to `dst` along edges of `t`.
pub open spec fn is_path(t: Topology, p: Seq<u8>, src: u8, dst: u8) -> bool {
    &&& p.len() > 0
    &&& p[0] == src
    &&& p[p.len() - 1] == dst
    &&& forall|i: int| 0 <= i < p.len() - 1 ==> #[trigger] t.has_edge(p[i], p[i + 1])
}

pub open spec fn reachable(t: Topology, src: u8, dst: u8) -> bool {
    exists|p: Seq<u8>| is_path(t, p, src, dst)
}

impl Topology {
    pub closed spec fn has_node(&self, u: u8) -> bool {
        self.present@[u as int]
    }

    pub closed spec fn has_edge(&self, u: u8, v: u8) -> bool {
        self.adj@[cell(u, v)]
    }

    /// Edges are undirected and join nodes of the graph.
    pub closed spec fn wf(&self) -> bool {
        &&& self.present@.len() == 256
        &&& self.adj@.len() == 65536
        &&& forall|u: u8, v: u8| #[trigger] self.adj@[cell(u, v)] == self.adj@[cell(v, u)]
        &&& forall|u: u8, v: u8|
            #[trigger] self.adj@[cell(u, v)] ==> self.present@[u as int] && self.present@[v as int]
    }

    /// Every operation keeps adjacency symmetric: `v` is adjacent to `u`
    /// exactly when `u` is adjacent to `v`.
    pub proof fn lemma_symmetric(&self, u: u8, v: u8)
        requires
            self.wf(),
        ensures
            self.has_edge(u, v) == self.has_edge(v, u),
            self.has_edge(u, v) ==> self.has_node(u) && self.has_node(v),
    {
    }

    pub proof fn lemma_symmetric_all(&self)
        requires
            self.wf(),
        ensures
            forall|u: u8, v: u8| #[trigger] self.has_edge(u, v) == self.has_edge(v, u),
            forall|u: u8, v: u8|
                #[trigger] self.has_edge(u, v) ==> self.has_node(u) && self.has_node(v),
    {
    }

    /// The graph with no nodes.
    pub fn new() -> (r: Topology)
        ensures
            r.wf(),
            forall|u: u8| !r.has_node(u),
            forall|u: u8, v: u8| !r.has_edge(u, v),
    {
        let mut present: Vec<bool> = Vec::new();
        let mut i: usize = 0;
        while i < N_NODES
            invariant
                i <= N_NODES,
                present@.len() == i,
                forall|k: int| 0 <= k < i ==> !present@[k],
            decreases N_NODES - i,
        {
            present.push(false);
            i = i + 1;
        }
        let mut adj: Vec<bool> = Vec::new();
        let mut j: usize = 0;
        while j < N_NODES * N_NODES
            invariant
                j <= 65536,
                adj@.len() == j,
                forall|k: int| 0 <= k < j ==> !adj@[k],
            decreases 65536 - j,
        {
            adj.push(false);
            j = j + 1;
        }
        Topology { present, adj }
    }

    /// Removes every node and edge.
    pub fn clear(&mut self)
        ensures
            final(self).wf(),
            forall|u: u8| !final(self).has_node(u),
            forall|u: u8, v: u8| !final(self).has_edge(u, v),
    {
        *self = Topology::new();
    }

    pub fn contains_node(&self, u: u8) -> (r: bool)
        requires
            self.wf(),
        ensures
            r == self.has_node(u),
    {
        self.present[u as usize]
    }

    pub fn contains_edge(&self, u: u8, v: u8) -> (r: bool)
        requires
            self.wf(),
        ensures
            r == self.has_edge(u, v),
    {
        self.adj[u as usize * N_NODES + v as usize]
    }

    /// Adds `u` as a node; edges are untouched.
    pub fn add_node(&mut self, u: u8)
        requires
            old(self).wf(),
        ensures
            final(self).wf(),
            forall|x: u8| #[trigger] final(self).has_node(x) == (old(self).has_node(x) || x == u),
            forall|x: u8, y: u8| #[trigger] final(self).has_edge(x, y) == old(self).has_edge(x, y),
    {
        self.present.set(u as usize, true);
    }

    /// Adds the undirected edge `{u, v}` and both its ends.
    pub fn add_edge(&mut self, u: u8, v: u8)
        requires
            old(self).wf(),
        ensures
            final(self).wf(),
            forall|x: u8|
                #[trigger] final(self).has_node(x) == (old(self).has_node(x) || x == u || x == v),
            forall|x: u8, y: u8| #[trigger]
                final(self).has_edge(x, y) == (old(self).has_edge(x, y) || (x == u && y == v) || (
                x == v && y == u)),
    {
        self.present.set(u as usize, true);
        self.present.set(v as usize, true);
        self.adj.set(u as usize * N_NODES + v as usize, true);
        self.adj.set(v as usize * N_NODES + u as usize, true);
        assert forall|x: u8, y: u8| #[trigger]
            self.adj@[cell(x, y)] == (old(self).adj@[cell(x, y)] || (x == u && y == v) || (x == v
                && y == u)) by {
            assert(cell(x, y) == cell(u, v) ==> x == u && y == v);
            assert(cell(x, y) == cell(v, u) ==> x == v && y == u);
        }
    }

    /// Removes the undirected edge `{u, v}`; both nodes stay.
    pub fn remove_edge(&mut self, u: u8, v: u8)
        requires
            old(self).wf(),
        ensures
            final(self).wf(),
            forall|x: u8| #[trigger] final(self).has_node(x) == old(self).has_node(x),
            forall|x: u8, y: u8| #[trigger]
                final(self).has_edge(x, y) == (old(self).has_edge(x, y) && !((x == u && y == v) || (
                x == v && y == u))),
    {
        self.adj.set(u as usize * N_NODES + v as usize, false);
        self.adj.set(v as usize * N_NODES + u as usize, false);
        assert forall|x: u8, y: u8| #[trigger]
            self.adj@[cell(x, y)] == (old(self).adj@[cell(x, y)] && !((x == u && y == v) || (x
                == v && y == u))) by {
            assert(cell(x, y) == cell(u, v) ==> x == u && y == v);
            assert(cell(x, y) == cell(v, u) ==> x == v && y == u);
        }
    }

    /// Removes `u` and every edge that touches it.
    pub fn remove_node(&mut self, u: u8)
        requires
            old(self).wf(),
        ensures
            final(self).wf(),
            forall|x: u8| #[trigger] final(self).has_node(x) == (old(self).has_node(x) && x != u),
            forall|x: u8, y: u8| #[trigger]
                final(self).has_edge(x, y) == (old(self).has_edge(x, y) && x != u && y != u),
    {
        let ghost old_adj = self.adj@;
        let mut w: usize = 0;
        while w < N_NODES
            invariant
                w <= N_NODES,
                self.present == old(self).present,
                self.adj@.len() == 65536,
                old(self).wf(),
                old_adj == old(self).adj@,
                forall|x: u8, y: u8| #[trigger]
                    self.adj@[cell(x, y)] == (old_adj[cell(x, y)] && !((x == u && (y as int) < w)
                        || (y == u && (x as int) < w))),
            decreases N_NODES - w,
        {
            let ghost before = self.adj@;
            self.adj.set(u as usize * N_NODES + w, false);
            self.adj.set(w * N_NODES + u as usize, false);
            assert forall|x: u8, y: u8| #[trigger]
                self.adj@[cell(x, y)] == (old_adj[cell(x, y)] && !((x == u && (y as int) < w + 1)
                    || (y == u && (x as int) < w + 1))) by {
                assert(cell(x, y) == u as int * 256 + w ==> x == u && y as int == w);
                assert(cell(x, y) == w * 256 + u as int ==> x as int == w && y == u);
                assert(self.adj@[cell(x, y)] == if cell(x, y) == u as int * 256 + w || cell(x, y)
                    == w * 256 + u as int {
                    false
                } else {
                    before[cell(x, y)]
                });
            }
            w = w + 1;
        }
        self.present.set(u as usize, false);
    }

    /// Ids of all nodes, ascending.
    pub fn nodes(&self) -> (r: Vec<u8>)
        requires
            self.wf(),
        ensures
            forall|x: u8| r@.contains(x) <==> self.has_node(x),
            forall|i: int, j: int| 0 <= i < j < r@.len() ==> r@[i] < r@[j],
    {
        let mut r: Vec<u8> = Vec::new();
        let mut w: usize = 0;
        while w < N_NODES
            invariant
                w <= N_NODES,
                self.wf(),
                forall|x: u8| r@.contains(x) <==> (self.has_node(x) && (x as int) < w),
                forall|i: int, j: int| 0 <= i < j < r@.len() ==> r@[i] < r@[j],
                forall|i: int| 0 <= i < r@.len() ==> (r@[i] as int) < w,
            decreases N_NODES - w,
        {
            if self.present[w] {
                let ghost prev = r@;
                r.push(w as u8);
                assert forall|x: u8| r@.contains(x) <==> (prev.contains(x) || x as int == w) by {
                    if r@.contains(x) {
                        let k = choose|k: int| 0 <= k < r@.len() && r@[k] == x;
                        if k < prev.len() {
                            assert(prev[k] == x);
                        }
                    }
                    if prev.contains(x) {
                        let k = choose|k: int| 0 <= k < prev.len() && prev[k] == x;
                        assert(r@[k] == x);
                    }
                    if x as int == w {
                        assert(r@[prev.len() as int] == x);
                    }
                }
            }
            w = w + 1;
        }
        r
    }

    /// Ids of the nodes adjacent to `u`, ascending.
    pub fn neighbors(&self, u: u8) -> (r: Vec<u8>)
        requires
            self.wf(),
        ensures
            forall|x: u8| r@.contains(x) <==> self.has_edge(u, x),
            forall|i: int, j: int| 0 <= i < j < r@.len() ==> r@[i] < r@[j],
    {
        let mut r: Vec<u8> = Vec::new();
        let mut w: usize = 0;
        while w < N_NODES
            invariant
                w <= N_NODES,
                self.wf(),
                forall|x: u8| r@.contains(x) <==> (self.has_edge(u, x) && (x as int) < w),
                forall|i: int, j: int| 0 <= i < j < r@.len() ==> r@[i] < r@[j],
                forall|i: int| 0 <= i < r@.len() ==> (r@[i] as int) < w,
            decreases N_NODES - w,
        {
            if self.adj[u as usize * N_NODES + w] {
                let ghost prev = r@;
                r.push(w as u8);
                assert forall|x: u8| r@.contains(x) <==> (prev.contains(x) || x as int == w) by {
                    if r@.contains(x) {
                        let k = choose|k: int| 0 <= k < r@.len() && r@[k] == x;
                        if k < prev.len() {
                            assert(prev[k] == x);
                        }
                    }
                    if prev.contains(x) {
                        let k = choose|k: int| 0 <= k < prev.len() && prev[k] == x;
                        assert(r@[k] == x);
                    }
                    if x as int == w {
                        assert(r@[prev.len() as int] == x);
                    }
                }
            }
            w = w + 1;
        }
        r
    }

    /// A copy with the same nodes and edges.
    pub fn snapshot(&self) -> (r: Topology)
        requires
            self.wf(),
        ensures
            r.wf(),
            forall|x: u8| #[trigger] r.has_node(x) == self.has_node(x),
            forall|x: u8, y: u8| #[trigger] r.has_edge(x, y) == self.has_edge(x, y),
    {
        let r = Topology { present: self.present.clone(), adj: self.adj.clone() };
        assert(r.present@ =~= self.present@);
        assert(r.adj@ =~= self.adj@);
        r
    }
}

} // verus!
