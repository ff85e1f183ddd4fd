use vstd::prelude::*;
use vstd::set_lib::{lemma_int_range, lemma_len_subset, set_int_range};

use crate::topology::{is_path, reachable, Topology, N_NODES};

verus! {

/// Distance mark of a node that the search has not reached.
pub const UNSEEN: u16 = 0xFFFF;

/// Every edge from a reached node leads to a reached node.
pub open spec fn closed_under_edges(t: Topology, dist: Seq<u16>) -> bool {
    forall|x: u8, y: u8|
        #![trigger t.has_edge(x, y), dist[x as int], dist[y as int]]
        dist[x as int] != UNSEEN && t.has_edge(x, y) ==> dist[y as int] != UNSEEN
}

/// Along an edge between reached nodes the distance drops by at most one.
pub open spec fn steps_bounded(t: Topology, dist: Seq<u16>) -> bool {
    forall|x: u8, y: u8|
        #![trigger t.has_edge(x, y), dist[x as int], dist[y as int]]
        t.has_edge(x, y) && dist[x as int] != UNSEEN && dist[y as int] != UNSEEN ==> dist[x as int]
            <= dist[y as int] + 1
}

/// Each reached node other than the target has a neighbour one step closer.
pub open spec fn descends(t: Topology, dist: Seq<u16>, dst: u8) -> bool {
    &&& dist[dst as int] == 0
    &&& forall|x: u8| #[trigger] dist[x as int] == 0 ==> x == dst
    &&& forall|x: u8|
        #![trigger dist[x as int]]
        dist[x as int] != UNSEEN && dist[x as int] > 0 ==> exists|y: u8|
            #[trigger] t.has_edge(x, y) && dist[y as int] == dist[x as int] - 1
}

proof fn lemma_reached_back(t: Topology, dist: Seq<u16>, p: Seq<u8>, src: u8, dst: u8, k: int)
    requires
        t.wf(),
        dist.len() == 256,
        is_path(t, p, src, dst),
        0 <= k < p.len(),
        dist[p[k] as int] != UNSEEN,
        closed_under_edges(t, dist),
    ensures
        dist[src as int] != UNSEEN,
    decreases k,
{
    if k > 0 {
        t.lemma_symmetric(p[k - 1], p[k]);
        assert(t.has_edge(p[k - 1], p[k - 1 + 1]));
        assert(t.has_edge(p[k], p[k - 1]));
        lemma_reached_back(t, dist, p, src, dst, k - 1);
    }
}

proof fn lemma_unreached_unreachable(t: Topology, dist: Seq<u16>, src: u8, dst: u8)
    requires
        t.wf(),
        dist.len() == 256,
        dist[dst as int] != UNSEEN,
        dist[src as int] == UNSEEN,
        closed_under_edges(t, dist),
    ensures
        !reachable(t, src, dst),
{
    if reachable(t, src, dst) {
        let p = choose|p: Seq<u8>| is_path(t, p, src, dst);
        lemma_reached_back(t, dist, p, src, dst, p.len() - 1);
    }
}

proof fn lemma_suffix_bound(t: Topology, dist: Seq<u16>, p: Seq<u8>, src: u8, dst: u8, k: int)
    requires
        t.wf(),
        dist.len() == 256,
        is_path(t, p, src, dst),
        0 <= k < p.len(),
        dist[dst as int] == 0,
        closed_under_edges(t, dist),
        steps_bounded(t, dist),
    ensures
        dist[p[k] as int] != UNSEEN,
        dist[p[k] as int] <= p.len() - 1 - k,
    decreases p.len() - k,
{
    if k < p.len() - 1 {
        lemma_suffix_bound(t, dist, p, src, dst, k + 1);
        assert(t.has_edge(p[k], p[k + 1]));
        t.lemma_symmetric(p[k], p[k + 1]);
        assert(t.has_edge(p[k + 1], p[k]));
    }
}

impl Topology {
    /// Breadth-first distances to `dst`, over the whole component of `dst`.
    #[verifier::rlimit(100)]
    fn distances_to(&self, dst: u8) -> (dist: Vec<u16>)
        requires
            self.wf(),
        ensures
            dist@.len() == 256,
            closed_under_edges(*self, dist@),
            descends(*self, dist@, dst),
            steps_bounded(*self, dist@),
    {
        let mut dist: Vec<u16> = Vec::new();
        let mut i: usize = 0;
        while i < N_NODES
            invariant
                i <= N_NODES,
                dist@.len() == i,
                forall|k: int| 0 <= k < i ==> dist@[k] == UNSEEN,
            decreases N_NODES - i,
        {
            dist.push(UNSEEN);
            i = i + 1;
        }
        dist.set(dst as usize, 0);
        proof {
            self.lemma_symmetric_all();
            lemma_int_range(0, 256);
        }
        let ghost mut seen: Set<int> = set![dst as int];
        let mut count: usize = 1;
        let mut level: u16 = 0;
        let mut changed: bool = true;
        while changed
            invariant
                self.wf(),
                forall|x: u8, y: u8| #[trigger] self.has_edge(x, y) == self.has_edge(y, x),
                set_int_range(0, 256).finite(),
                set_int_range(0, 256).len() == 256,
                dist@.len() == 256,
                descends(*self, dist@, dst),
                steps_bounded(*self, dist@),
                forall|k: int| 0 <= k < 256 ==> (seen.contains(k) <==> dist@[k] != UNSEEN),
                seen.subset_of(set_int_range(0, 256)),
                count == seen.len(),
                changed ==> level as int + 1 <= count,
                forall|k: int| 0 <= k < 256 && dist@[k] != UNSEEN ==> dist@[k] <= level,
                forall|x: u8, y: u8|
                    #![trigger self.has_edge(x, y), dist@[x as int], dist@[y as int]]
                    dist@[x as int] < level && self.has_edge(x, y) ==> dist@[y as int] != UNSEEN,
                !changed ==> closed_under_edges(*self, dist@),
            decreases 256 - count + (if changed {
                1int
            } else {
                0int
            }),
        {
            proof {
                lemma_len_subset(seen, set_int_range(0, 256));
            }
            let ghost count0 = count;
            changed = false;
            let mut u: usize = 0;
            while u < N_NODES
                invariant
                    self.wf(),
                    forall|x: u8, y: u8| #[trigger] self.has_edge(x, y) == self.has_edge(y, x),
                    set_int_range(0, 256).finite(),
                    set_int_range(0, 256).len() == 256,
                    u <= N_NODES,
                    level as int + 1 <= count0,
                    count0 <= 256,
                    dist@.len() == 256,
                    descends(*self, dist@, dst),
                    steps_bounded(*self, dist@),
                    forall|k: int| 0 <= k < 256 ==> (seen.contains(k) <==> dist@[k] != UNSEEN),
                    seen.subset_of(set_int_range(0, 256)),
                    count == seen.len(),
                    changed ==> count > count0,
                    count >= count0,
                    forall|k: int|
                        0 <= k < 256 && dist@[k] != UNSEEN ==> dist@[k] <= level + 1 && (dist@[k]
                            == level + 1 ==> changed),
                    forall|x: u8, y: u8|
                        #![trigger self.has_edge(x, y), dist@[x as int], dist@[y as int]]
                        (dist@[x as int] < level || (dist@[x as int] == level && (x as int) < u))
                            && self.has_edge(x, y) ==> dist@[y as int] != UNSEEN,
                decreases N_NODES - u,
            {
                if dist[u] == level {
                    let mut v: usize = 0;
                    while v < N_NODES
                        invariant
                            self.wf(),
                            forall|x: u8, y: u8| #[trigger]
                                self.has_edge(x, y) == self.has_edge(y, x),
                            set_int_range(0, 256).finite(),
                            set_int_range(0, 256).len() == 256,
                            u < N_NODES,
                            v <= N_NODES,
                            level as int + 1 <= count0,
                            count0 <= 256,
                            dist@.len() == 256,
                            dist@[u as int] == level,
                            descends(*self, dist@, dst),
                            steps_bounded(*self, dist@),
                            forall|k: int|
                                0 <= k < 256 ==> (seen.contains(k) <==> dist@[k] != UNSEEN),
                            seen.subset_of(set_int_range(0, 256)),
                            count == seen.len(),
                            changed ==> count > count0,
                            count >= count0,
                    count >= count0,
                            forall|k: int|
                                0 <= k < 256 && dist@[k] != UNSEEN ==> dist@[k] <= level + 1 && (
                                dist@[k] == level + 1 ==> changed),
                            forall|x: u8, y: u8|
                                #![trigger self.has_edge(x, y), dist@[x as int], dist@[y as int]]
                                (dist@[x as int] < level || (dist@[x as int] == level && (x as int)
                                    < u)) && self.has_edge(x, y) ==> dist@[y as int] != UNSEEN,
                            forall|y: u8|
                                #![trigger self.has_edge(u as u8, y), dist@[y as int]]
                                (y as int) < v && self.has_edge(u as u8, y) ==> dist@[y as int]
                                    != UNSEEN,
                        decreases N_NODES - v,
                    {
                        if self.contains_edge(u as u8, v as u8) && dist[v] == UNSEEN {
                            let ghost before = dist@;
                            proof {
                                lemma_len_subset(seen, set_int_range(0, 256));
                                assert(!seen.contains(v as int));
                                lemma_len_subset(seen.insert(v as int), set_int_range(0, 256));
                                seen = seen.insert(v as int);
                            }
                            dist.set(v, level + 1);
                            count = count + 1;
                            changed = true;
                            assert forall|x: u8| #[trigger]
                                dist@[x as int] != UNSEEN && dist@[x as int] > 0 implies exists|
                                y: u8|
                                #[trigger] self.has_edge(x, y) && dist@[y as int] == dist@[x as int]
                                    - 1 by {
                                if x as int == v {
                                    assert(self.has_edge(x, u as u8));
                                } else {
                                    assert(before[x as int] != UNSEEN && before[x as int] > 0);
                                    let y = choose|y: u8|
                                        #[trigger] self.has_edge(x, y) && before[y as int]
                                            == before[x as int] - 1;
                                    assert(self.has_edge(x, y) && dist@[y as int] == dist@[x as int]
                                        - 1);
                                }
                            }
                            assert forall|x: u8, y: u8|
                                #![trigger self.has_edge(x, y), dist@[x as int], dist@[y as int]]
                                self.has_edge(x, y) && dist@[x as int] != UNSEEN && dist@[y as int]
                                    != UNSEEN implies dist@[x as int] <= dist@[y as int] + 1 by {
                                if x as int == v && y as int != v {
                                    if before[y as int] < level {
                                        assert(self.has_edge(y, x));
                                        assert(before[x as int] != UNSEEN);
                                    }
                                }
                                if x as int != v && y as int != v {
                                    assert(before[x as int] <= before[y as int] + 1);
                                }
                            }
                            assert forall|x: u8| #[trigger] dist@[x as int] == 0 implies x
                                == dst by {
                                if x as int != v {
                                    assert(before[x as int] == 0);
                                }
                            }
                        }
                        v = v + 1;
                    }
                    assert forall|x: u8, y: u8|
                        (dist@[x as int] < level || (dist@[x as int] == level && (x as int) < u
                            + 1)) && #[trigger] self.has_edge(x, y) implies dist@[y as int]
                            != UNSEEN by {
                        if x as int == u {
                            assert(x == u as u8);
                            assert(self.has_edge(u as u8, y));
                        }
                    }
                }
                u = u + 1;
            }
            level = level + 1;
            proof {
                lemma_len_subset(seen, set_int_range(0, 256));
            }
        }
        dist
    }

    /// Shortest route from `src` to `dst` as `[src, ..., dst]`, or an empty
    /// list when `dst` cannot be reached. Among the shortest routes, the one
    /// whose second hop has the smallest id wins, and so on hop by hop.
    pub fn shortest_path(&self, src: u8, dst: u8) -> (r: Vec<u8>)
        requires
            self.wf(),
        ensures
            r@.len() > 0 ==> is_path(*self, r@, src, dst),
            r@.len() == 0 <==> !reachable(*self, src, dst),
            forall|p: Seq<u8>| #[trigger] is_path(*self, p, src, dst) ==> r@.len() <= p.len(),
            forall|p: Seq<u8>|
                #[trigger] is_path(*self, p, src, dst) && p.len() == r@.len() && r@.len() >= 2
                    ==> r@[1] <= p[1],
    {
        let dist = self.distances_to(dst);
        if dist[src as usize] == UNSEEN {
            proof {
                lemma_unreached_unreachable(*self, dist@, src, dst);
            }
            return Vec::new();
        }
        let mut path: Vec<u8> = Vec::new();
        path.push(src);
        let mut cur: u8 = src;
        while cur != dst
            invariant
                self.wf(),
                dist@.len() == 256,
                descends(*self, dist@, dst),
                dist@[src as int] != UNSEEN,
                dist@[cur as int] != UNSEEN,
                path@.len() > 0,
                path@[0] == src,
                path@[path@.len() - 1] == cur,
                path@.len() + dist@[cur as int] == dist@[src as int] + 1,
                forall|i: int|
                    0 <= i < path@.len() - 1 ==> #[trigger] self.has_edge(path@[i], path@[i + 1]),
                path@.len() >= 2 ==> forall|y: u8|
                    #[trigger] self.has_edge(src, y) && dist@[y as int] == dist@[src as int] - 1
                        ==> path@[1] <= y,
            decreases dist@[cur as int],
        {
            let want: u16 = dist[cur as usize] - 1;
            let mut w: usize = 0;
            let mut found: bool = false;
            while w < N_NODES && !found
                invariant
                    self.wf(),
                    dist@.len() == 256,
                    w <= N_NODES,
                    want == dist@[cur as int] - 1,
                    found ==> w > 0 && self.has_edge(cur, (w - 1) as u8) && dist@[w - 1] == want,
                    found ==> forall|y: u8|
                        (y as int) < w - 1 ==> !(#[trigger] self.has_edge(cur, y) && dist@[y as int]
                            == want),
                    !found ==> forall|y: u8|
                        (y as int) < w ==> !(#[trigger] self.has_edge(cur, y) && dist@[y as int]
                            == want),
                decreases N_NODES - w,
            {
                if self.contains_edge(cur, w as u8) && dist[w] == want {
                    found = true;
                }
                w = w + 1;
            }
            if !found {
                proof {
                    let y = choose|y: u8|
                        #[trigger] self.has_edge(cur, y) && dist@[y as int] == dist@[cur as int] - 1;
                    assert((y as int) < w);
                }
                return Vec::new();
            }
            let next: u8 = (w - 1) as u8;
            let ghost prev = path@;
            path.push(next);
            assert forall|i: int| 0 <= i < path@.len() - 1 implies #[trigger] self.has_edge(
                path@[i],
                path@[i + 1],
            ) by {
                if i < prev.len() - 1 {
                    assert(self.has_edge(prev[i], prev[i + 1]));
                }
            }
            proof {
                if prev.len() == 1 {
                    assert forall|y: u8|
                        #[trigger] self.has_edge(src, y) && dist@[y as int] == dist@[src as int] - 1
                            implies path@[1] <= y by {
                        if (y as int) < w - 1 {
                            assert(!(self.has_edge(cur, y) && dist@[y as int] == want));
                        }
                    }
                }
            }
            cur = next;
        }
        proof {
            assert(is_path(*self, path@, src, dst));
            assert forall|p: Seq<u8>| #[trigger] is_path(*self, p, src, dst) implies path@.len()
                <= p.len() && (p.len() == path@.len() && path@.len() >= 2 ==> path@[1] <= p[1]) by {
                lemma_suffix_bound(*self, dist@, p, src, dst, 0);
                if p.len() == path@.len() && path@.len() >= 2 {
                    lemma_suffix_bound(*self, dist@, p, src, dst, 1);
                    assert(self.has_edge(p[0int], p[0int + 1]));
                }
            }
        }
        path
    }
}

} // verus!
