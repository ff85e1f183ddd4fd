use vstd::prelude::*;

use crate::packet::{Fragment, FragmentView, FRAG_SIZE};

verus! {

/// Number of fragments a message of `len` bytes takes; an empty message
/// still takes one, of length zero.
pub open spec fn frag_count(len: int) -> int {
    if len == 0 {
        1
    } else {
        (len + 127) / 128
    }
}

/// The bytes of `msg` that fragment `i` carries.
pub open spec fn chunk_of(msg: Seq<u8>, i: int) -> Seq<u8> {
    let lo = i * 128;
    let hi = if lo + 128 <= msg.len() {
        lo + 128
    } else {
        msg.len() as int
    };
    msg.subrange(lo, hi)
}

/// `c` followed by zeros up to a full fragment.
pub open spec fn padded(c: Seq<u8>) -> Seq<u8> {
    c + Seq::new((128 - c.len()) as nat, |k: int| 0u8)
}

/// Fragment `i` of `msg`.
pub open spec fn fragment_of(msg: Seq<u8>, i: int) -> FragmentView {
    FragmentView {
        index: i as u64,
        total: frag_count(msg.len() as int) as u64,
        length: chunk_of(msg, i).len() as u8,
        data: padded(chunk_of(msg, i)),
    }
}

/// The bytes a fragment carries: its first `length` bytes.
pub open spec fn payload(f: FragmentView) -> Seq<u8> {
    f.data.subrange(0, f.length as int)
}

/// Splits `msg` into fragments of `FRAG_SIZE` bytes, in index order.
pub fn disassemble(msg: &Vec<u8>) -> (r: Vec<Fragment>)
    ensures
        r@.len() == frag_count(msg@.len() as int),
        forall|i: int| 0 <= i < r@.len() ==> #[trigger] r@[i]@ == fragment_of(msg@, i),
{
    let len = msg.len();
    let total: usize = if len == 0 {
        1
    } else if len % FRAG_SIZE == 0 {
        len / FRAG_SIZE
    } else {
        len / FRAG_SIZE + 1
    };
    assert(total == frag_count(len as int));
    let mut r: Vec<Fragment> = Vec::new();
    let mut i: usize = 0;
    let mut start: usize = 0;
    while i < total
        invariant
            len == msg@.len(),
            total == frag_count(len as int),
            i <= total,
            i < total ==> start == i * 128,
            r@.len() == i,
            forall|k: int| 0 <= k < i ==> #[trigger] r@[k]@ == fragment_of(msg@, k),
        decreases total - i,
    {
        assert(start < len || (len == 0 && start == 0));
        let end: usize = if len - start >= FRAG_SIZE {
            start + FRAG_SIZE
        } else {
            len
        };
        let mut data: Vec<u8> = Vec::new();
        let mut j: usize = start;
        while j < end
            invariant
                start <= j <= end <= len,
                len == msg@.len(),
                data@ == msg@.subrange(start as int, j as int),
            decreases end - j,
        {
            data.push(msg[j]);
            j = j + 1;
            assert(data@ =~= msg@.subrange(start as int, j as int));
        }
        let ghost body = data@;
        let mut k: usize = end - start;
        while k < FRAG_SIZE
            invariant
                end - start <= k <= FRAG_SIZE,
                data@.len() == k,
                data@ == body + Seq::new((k - (end - start)) as nat, |q: int| 0u8),
            decreases FRAG_SIZE - k,
        {
            data.push(0);
            k = k + 1;
            assert(data@ =~= body + Seq::new((k - (end - start)) as nat, |q: int| 0u8));
        }
        let f = Fragment {
            fragment_index: i as u64,
            total_n_fragments: total as u64,
            length: (end - start) as u8,
            data,
        };
        assert(body == chunk_of(msg@, i as int));
        assert(f@.data =~= padded(chunk_of(msg@, i as int)));
        r.push(f);
        i = i + 1;
        if i < total {
            assert(start + 128 < len);
            start = start + FRAG_SIZE;
        }
    }
    r
}

} // verus!
