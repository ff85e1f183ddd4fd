use std::collections::HashMap;
use vstd::prelude::*;
use vstd::set_lib::{lemma_int_range, lemma_len_subset, set_int_range};

use crate::fragment::{chunk_of, frag_count, fragment_of, padded, payload};
use crate::packet::{Fragment, FragmentView};

verus! {

broadcast use vstd::std_specs::hash::group_hash_axioms;

/// Pieces received so far for one session: `(fragment index, payload)`, in
/// arrival order.
pub type Pieces = Seq<(u64, Seq<u8>)>;

/// A fragment the assembler can use: its index lies below its total and its
/// length within its data.
pub open spec fn usable(f: FragmentView) -> bool {
    &&& f.total > 0
    &&& f.index < f.total
    &&& f.length <= 128
    &&& f.length <= f.data.len()
}

pub open spec fn has_index(p: Pieces, k: u64) -> bool {
    exists|j: int| 0 <= j < p.len() && #[trigger] p[j].0 == k
}

/// Payload received for index `k`.
pub open spec fn piece_at(p: Pieces, k: u64) -> Seq<u8> {
    p[choose|j: int| 0 <= j < p.len() && #[trigger] p[j].0 == k].1
}

/// Every index below `total` has arrived.
pub open spec fn complete(p: Pieces, total: u64) -> bool {
    forall|k: u64| k < total ==> #[trigger] has_index(p, k)
}

/// Payloads of indices `0 .. n`, in index order.
pub open spec fn assembled(p: Pieces, n: int) -> Seq<u8>
    decreases n,
{
    if n <= 0 {
        Seq::empty()
    } else {
        assembled(p, n - 1) + piece_at(p, (n - 1) as u64)
    }
}

/// Indices are distinct and below `total`.
pub open spec fn pieces_wf(p: Pieces, total: u64) -> bool {
    &&& total > 0
    &&& forall|i: int, j: int| 0 <= i < j < p.len() ==> p[i].0 != p[j].0
    &&& forall|i: int| 0 <= i < p.len() ==> #[trigger] p[i].0 < total
}

/// What one fragment `f` of session `s` does to the assembler's state `m`,
/// and the message it completes, if any. Unusable fragments, and fragments
/// whose total disagrees with the session's, are ignored; a repeated index
/// keeps its first payload.
pub open spec fn step(m: Map<u64, (u64, Pieces)>, f: FragmentView, s: u64) -> (Map<
    u64,
    (u64, Pieces),
>, Option<Seq<u8>>) {
    if !usable(f) {
        (m, None)
    } else {
        let (total, p) = if m.contains_key(s) {
            m[s]
        } else {
            (f.total, Seq::empty())
        };
        if total != f.total {
            (m, None)
        } else {
            let p2 = if has_index(p, f.index) {
                p
            } else {
                p.push((f.index, payload(f)))
            };
            if complete(p2, total) {
                (m.remove(s), Some(assembled(p2, total as int)))
            } else {
                (m.insert(s, (total, p2)), None)
            }
        }
    }
}

pub open spec fn bytes_view(r: Option<Vec<u8>>) -> Option<Seq<u8>> {
    match r {
        Some(v) => Some(v@),
        None => None,
    }
}

/// Per-session reassembly of inbound fragments.
pub struct Assembler {
    sessions: HashMap<u64, (u64, Vec<(u64, Vec<u8>)>)>,
}

pub open spec fn pieces_view(v: Seq<(u64, Vec<u8>)>) -> Pieces {
    v.map_values(|e: (u64, Vec<u8>)| (e.0, e.1@))
}

proof fn lemma_short_incomplete(p: Pieces, total: u64)
    requires
        complete(p, total),
    ensures
        total <= p.len(),
{
    let keys = p.map_values(|e: (u64, Seq<u8>)| e.0 as int);
    let ks = keys.to_set();
    lemma_int_range(0, total as int);
    assert forall|k: int| set_int_range(0, total as int).contains(k) implies ks.contains(k) by {
        assert(has_index(p, k as u64));
        let j = choose|j: int| 0 <= j < p.len() && #[trigger] p[j].0 == k as u64;
        assert(keys[j] == k);
    }
    keys.lemma_cardinality_of_set();
    lemma_len_subset(set_int_range(0, total as int), ks);
}

impl View for Assembler {
    type V = Map<u64, (u64, Pieces)>;

    closed spec fn view(&self) -> Map<u64, (u64, Pieces)> {
        Map::new(
            |s: u64| self.sessions@.contains_key(s),
            |s: u64| (self.sessions@[s].0, pieces_view(self.sessions@[s].1@)),
        )
    }
}

impl Assembler {
    pub closed spec fn wf(&self) -> bool {
        forall|s: u64| #[trigger]
            self.sessions@.contains_key(s) ==> pieces_wf(
                pieces_view(self.sessions@[s].1@),
                self.sessions@[s].0,
            )
    }

    pub fn new() -> (r: Assembler)
        ensures
            r.wf(),
            r@ == Map::<u64, (u64, Pieces)>::empty(),
    {
        let r = Assembler { sessions: HashMap::new() };
        assert(r@ =~= Map::<u64, (u64, Pieces)>::empty());
        r
    }

    /// Takes fragment `f` of session `s`; returns the whole message once its
    /// last missing fragment arrives, and forgets the session then.
    #[verifier::loop_isolation(false)]
    pub fn add_fragment(&mut self, f: &Fragment, s: u64) -> (r: Option<Vec<u8>>)
        requires
            old(self).wf(),
        ensures
            final(self).wf(),
            (final(self)@, bytes_view(r)) == step(old(self)@, f@, s),
    {
        if !(f.total_n_fragments > 0 && f.fragment_index < f.total_n_fragments && f.length <= 128
            && (f.length as usize) <= f.data.len()) {
            return None;
        }
        let old_entry = self.sessions.remove(&s);
        let had = old_entry.is_some();
        let (total, mut pieces) = match old_entry {
            Some(e) => e,
            None => (f.total_n_fragments, Vec::new()),
        };
        let ghost p = pieces_view(pieces@);
        assert(had ==> old(self)@.contains_key(s) && old(self)@[s] == (total, p));
        assert(!had ==> !old(self)@.contains_key(s) && total == f.total_n_fragments && p
            =~= Seq::<(u64, Seq<u8>)>::empty());
        if total != f.total_n_fragments {
            if had {
                self.sessions.insert(s, (total, pieces));
            }
            assert(self@ =~= old(self)@);
            return None;
        }
        let mut found: bool = false;
        let mut j: usize = 0;
        while j < pieces.len()
            invariant
                j <= pieces.len(),
                p == pieces_view(pieces@),
                !found ==> forall|q: int| 0 <= q < j ==> pieces@[q].0 != f.fragment_index,
                found ==> has_index(p, f.fragment_index),
            decreases pieces.len() - j,
        {
            if pieces[j].0 == f.fragment_index {
                found = true;
                assert(p[j as int].0 == f.fragment_index);
            }
            j = j + 1;
        }
        if !found {
            assert(!has_index(p, f.fragment_index)) by {
                if has_index(p, f.fragment_index) {
                    let q = choose|q: int| 0 <= q < p.len() && #[trigger] p[q].0 == f.fragment_index;
                    assert(pieces@[q].0 == f.fragment_index);
                }
            }
            let mut data: Vec<u8> = Vec::new();
            let mut k: usize = 0;
            while k < f.length as usize
                invariant
                    k <= f.length,
                    f.length <= f.data@.len(),
                    data@ == f.data@.subrange(0, k as int),
                decreases f.length - k,
            {
                data.push(f.data[k]);
                k = k + 1;
                assert(data@ =~= f.data@.subrange(0, k as int));
            }
            pieces.push((f.fragment_index, data));
            assert(pieces_view(pieces@) =~= p.push((f.fragment_index, payload(f@))));
        }
        let ghost p2 = pieces_view(pieces@);
        assert(p2 == if has_index(p, f.fragment_index) {
            p
        } else {
            p.push((f.fragment_index, payload(f@)))
        });
        assert(usable(f@));
        assert(pieces_wf(p2, total));
        assert(step(old(self)@, f@, s) == if complete(p2, total) {
            (old(self)@.remove(s), Some(assembled(p2, total as int)))
        } else {
            (old(self)@.insert(s, (total, p2)), None::<Seq<u8>>)
        });
        if (pieces.len() as u128) < (total as u128) {
            proof {
                if complete(p2, total) {
                    lemma_short_incomplete(p2, total);
                }
            }
            self.sessions.insert(s, (total, pieces));
            assert(self@ =~= old(self)@.insert(s, (total, p2)));
            return None;
        }
        let mut out: Vec<u8> = Vec::new();
        let mut idx: u64 = 0;
        while idx < total
            invariant
                idx <= total,
                p2 == pieces_view(pieces@),
                pieces_wf(p2, total),
                forall|k: u64| k < idx ==> #[trigger] has_index(p2, k),
                out@ == assembled(p2, idx as int),
                self.sessions@ == old(self).sessions@.remove(s),
            decreases total - idx,
        {
            let mut q: usize = 0;
            let mut at: usize = 0;
            let mut hit: bool = false;
            while q < pieces.len() && !hit
                invariant
                    q <= pieces.len(),
                    p2 == pieces_view(pieces@),
                    hit ==> at < pieces.len() && pieces@[at as int].0 == idx,
                    !hit ==> forall|w: int| 0 <= w < q ==> pieces@[w].0 != idx,
                decreases pieces.len() - q,
            {
                if pieces[q].0 == idx {
                    hit = true;
                    at = q;
                }
                q = q + 1;
            }
            if !hit {
                assert(!has_index(p2, idx)) by {
                    if has_index(p2, idx) {
                        let w = choose|w: int| 0 <= w < p2.len() && #[trigger] p2[w].0 == idx;
                        assert(pieces@[w].0 == idx);
                    }
                }
                self.sessions.insert(s, (total, pieces));
                assert(self@ =~= old(self)@.insert(s, (total, p2)));
                return None;
            }
            assert(p2[at as int].0 == idx);
            assert(piece_at(p2, idx) == p2[at as int].1) by {
                let w = choose|w: int| 0 <= w < p2.len() && #[trigger] p2[w].0 == idx;
                assert(p2[w].0 == idx);
                assert(w == at);
            }
            let ghost before = out@;
            let mut k: usize = 0;
            let piece = &pieces[at].1;
            while k < piece.len()
                invariant
                    k <= piece.len(),
                    out@ == before + piece@.subrange(0, k as int),
                decreases piece.len() - k,
            {
                out.push(piece[k]);
                k = k + 1;
                assert(out@ =~= before + piece@.subrange(0, k as int));
            }
            assert(piece@.subrange(0, piece.len() as int) =~= piece@);
            idx = idx + 1;
        }
        assert(self@ =~= old(self)@.remove(s));
        Some(out)
    }
}

/// State and last result after feeding the fragments of `msg` with indices
/// `order[0 .. k]`, in that order, as session `s`, starting from `m`.
pub open spec fn feed(m: Map<u64, (u64, Pieces)>, msg: Seq<u8>, s: u64, order: Seq<int>, k: int) -> (Map<
    u64,
    (u64, Pieces),
>, Option<Seq<u8>>)
    decreases k,
{
    if k <= 0 {
        (m, None)
    } else {
        step(feed(m, msg, s, order, k - 1).0, fragment_of(msg, order[k - 1]), s)
    }
}

/// `order` lists each index below `n` exactly once.
pub open spec fn is_permutation(order: Seq<int>, n: int) -> bool {
    &&& order.len() == n
    &&& order.no_duplicates()
    &&& forall|j: int| 0 <= j < n ==> 0 <= #[trigger] order[j] < n
    &&& forall|i: int| 0 <= i < n ==> #[trigger] order.contains(i)
}

pub open spec fn fed_pieces(msg: Seq<u8>, order: Seq<int>, k: int) -> Pieces {
    Seq::new(k as nat, |j: int| (order[j] as u64, chunk_of(msg, order[j])))
}

proof fn lemma_chunk_len(msg: Seq<u8>, i: int)
    requires
        0 <= i < frag_count(msg.len() as int),
    ensures
        chunk_of(msg, i).len() <= 128,
        i * 128 <= msg.len(),
        (i * 128 < msg.len()) || (msg.len() == 0 && i == 0),
{
    assert(i * 128 < msg.len() || msg.len() == 0) by (nonlinear_arith)
        requires
            0 <= i,
            msg.len() == 0 || i < (msg.len() + 127) / 128,
    ;
}

proof fn lemma_assembled_prefix(msg: Seq<u8>, p: Pieces, k: int)
    requires
        0 <= k <= frag_count(msg.len() as int),
        k <= 0xffff_ffff_ffff_ffffint,
        forall|i: u64| (i as int) < k ==> #[trigger] piece_at(p, i) == chunk_of(msg, i as int),
    ensures
        assembled(p, k) == msg.subrange(
            0,
            if k * 128 <= msg.len() {
                k * 128
            } else {
                msg.len() as int
            },
        ),
    decreases k,
{
    if k > 0 {
        lemma_assembled_prefix(msg, p, k - 1);
        lemma_chunk_len(msg, k - 1);
        assert(piece_at(p, (k - 1) as u64) == chunk_of(msg, k - 1));
        let hi = if k * 128 <= msg.len() {
            k * 128
        } else {
            msg.len() as int
        };
        assert(msg.subrange(0, (k - 1) * 128) + msg.subrange((k - 1) * 128, hi) =~= msg.subrange(
            0,
            hi,
        ));
    } else {
        assert(msg.subrange(0, 0) =~= Seq::<u8>::empty());
    }
}

/// Reassembly undoes disassembly: feeding the fragments of `msg` to the
/// assembler in any order, as a session it does not hold, completes the
/// message exactly at the last fragment, and the message is `msg`.
pub proof fn reassembly_round_trip(
    m: Map<u64, (u64, Pieces)>,
    msg: Seq<u8>,
    s: u64,
    order: Seq<int>,
)
    requires
        !m.contains_key(s),
        msg.len() <= 128 * 0xffff_ffff_ffff_ffffint,
        is_permutation(order, frag_count(msg.len() as int)),
    ensures
        feed(m, msg, s, order, frag_count(msg.len() as int)).1 == Some(msg),
        feed(m, msg, s, order, frag_count(msg.len() as int)).0 == m,
        forall|k: int|
            0 <= k < frag_count(msg.len() as int) ==> #[trigger] feed(m, msg, s, order, k).1 is None,
{
    let n = frag_count(msg.len() as int);
    assert(n >= 1);
    assert(n <= 0xffff_ffff_ffff_ffffint) by (nonlinear_arith)
        requires
            msg.len() <= 128 * 0xffff_ffff_ffff_ffffint,
            n == (if msg.len() == 0 { 1 } else { (msg.len() + 127) / 128 }),
    ;
    lemma_feed(m, msg, s, order, n, n);
}

proof fn lemma_feed(
    m: Map<u64, (u64, Pieces)>,
    msg: Seq<u8>,
    s: u64,
    order: Seq<int>,
    n: int,
    k: int,
)
    requires
        !m.contains_key(s),
        n == frag_count(msg.len() as int),
        1 <= n <= 0xffff_ffff_ffff_ffffint,
        is_permutation(order, n),
        0 <= k <= n,
    ensures
        k < n ==> feed(m, msg, s, order, k).0 == (if k == 0 {
            m
        } else {
            m.insert(s, (n as u64, fed_pieces(msg, order, k)))
        }),
        k == n ==> feed(m, msg, s, order, k) == (m, Some(msg)),
        forall|j: int| 0 <= j < k && j < n ==> #[trigger] feed(m, msg, s, order, j).1 is None,
    decreases k,
{
    if k > 0 {
        lemma_feed(m, msg, s, order, n, k - 1);
        let prev = feed(m, msg, s, order, k - 1).0;
        let i = order[k - 1];
        let f = fragment_of(msg, i);
        lemma_chunk_len(msg, i);
        assert(usable(f));
        assert(payload(f) =~= chunk_of(msg, i));
        let p = if k - 1 == 0 {
            Seq::<(u64, Seq<u8>)>::empty()
        } else {
            fed_pieces(msg, order, k - 1)
        };
        assert(p =~= fed_pieces(msg, order, k - 1));
        assert(!has_index(p, i as u64)) by {
            if has_index(p, i as u64) {
                let j = choose|j: int| 0 <= j < p.len() && #[trigger] p[j].0 == i as u64;
                assert(order[j] == i);
            }
        }
        let p2 = p.push((i as u64, payload(f)));
        assert(p2 =~= fed_pieces(msg, order, k));
        if k < n {
            let missing = order[n - 1];
            assert(!has_index(p2, missing as u64)) by {
                if has_index(p2, missing as u64) {
                    let j = choose|j: int| 0 <= j < p2.len() && #[trigger] p2[j].0 == missing as u64;
                    assert(order[j] == missing);
                }
            }
            assert(!complete(p2, n as u64));
        } else {
            assert forall|x: u64| x < n as u64 implies #[trigger] has_index(p2, x) by {
                assert(order.contains(x as int));
                let j = choose|j: int| 0 <= j < order.len() && order[j] == x as int;
                assert(p2[j].0 == x);
            }
            assert forall|x: u64| (x as int) < n implies #[trigger] piece_at(p2, x) == chunk_of(
                msg,
                x as int,
            ) by {
                assert(has_index(p2, x));
                let j = choose|j: int| 0 <= j < p2.len() && #[trigger] p2[j].0 == x;
                assert(order[j] == x as int);
            }
            lemma_assembled_prefix(msg, p2, n);
            lemma_chunk_len(msg, n - 1);
            assert(msg.subrange(0, msg.len() as int) =~= msg);
            assert(m.insert(s, (n as u64, p)).remove(s) =~= m) ;
            assert(prev.remove(s) =~= m);
        }
    }
}

} // verus!
