use vstd::prelude::*;

verus! {

/// Most files a server indexes.
pub const MAX_INDEXED_FILES: usize = 10;

pub open spec fn is_digit(b: u8) -> bool {
    48 <= b <= 57
}

/// Value of the decimal digits `d`.
pub open spec fn digits_value(d: Seq<u8>) -> int
    decreases d.len(),
{
    if d.len() == 0 {
        0
    } else {
        digits_value(d.drop_last()) * 10 + (d.last() - 48)
    }
}

pub open spec fn all_digits(d: Seq<u8>) -> bool {
    forall|i: int| 0 <= i < d.len() ==> is_digit(#[trigger] d[i])
}

/// `t` without a leading `+`.
pub open spec fn unsigned_part(t: Seq<u8>) -> Seq<u8> {
    if t.len() > 0 && t[0] == 43 {
        t.subrange(1, t.len() as int)
    } else {
        t
    }
}

/// The number a text of an optional `+` and at least one digit spells, when
/// it lies below 256.
pub open spec fn parse_u8(t: Seq<u8>) -> Option<u8> {
    let d = unsigned_part(t);
    if d.len() > 0 && all_digits(d) && digits_value(d) < 256 {
        Some(digits_value(d) as u8)
    } else {
        None
    }
}

/// Id of the file named `name`: the number its name spells before the
/// extension `ext`.
pub open spec fn file_id(name: Seq<u8>, ext: Seq<u8>) -> Option<u8> {
    if name.len() >= ext.len() && name.subrange(name.len() - ext.len(), name.len() as int) == ext {
        parse_u8(name.subrange(0, name.len() - ext.len()))
    } else {
        None
    }
}

/// Index of the first `MAX_INDEXED_FILES` entries, in order, whose names
/// carry an id.
pub open spec fn indexed(es: Seq<(Vec<u8>, String)>, ext: Seq<u8>) -> Seq<(u8, String)>
    decreases es.len(),
{
    if es.len() == 0 {
        Seq::empty()
    } else {
        let rest = indexed(es.drop_last(), ext);
        let e = es.last();
        if rest.len() < MAX_INDEXED_FILES && file_id(e.0@, ext) is Some {
            rest.push((file_id(e.0@, ext)->Some_0, e.1))
        } else {
            rest
        }
    }
}

/// Ids of an index, in order.
pub open spec fn ids_of(idx: Seq<(u8, String)>) -> Seq<u8> {
    idx.map_values(|e: (u8, String)| e.0)
}

/// `es` with one entry per id: an id keeps the place of its first entry and
/// the path of its last.
pub open spec fn merged(es: Seq<(u8, String)>) -> Seq<(u8, String)>
    decreases es.len(),
{
    if es.len() == 0 {
        Seq::empty()
    } else {
        let rest = merged(es.drop_last());
        let e = es.last();
        if ids_of(rest).contains(e.0) {
            rest.map_values(|p: (u8, String)| if p.0 == e.0 {
                e
            } else {
                p
            })
        } else {
            rest.push(e)
        }
    }
}

proof fn lemma_digits_prefix(d: Seq<u8>, j: int)
    requires
        0 <= j <= d.len(),
        all_digits(d),
    ensures
        digits_value(d.subrange(0, j)) <= digits_value(d),
        0 <= digits_value(d.subrange(0, j)),
    decreases d.len(),
{
    if j < d.len() {
        assert(d.drop_last().subrange(0, j) =~= d.subrange(0, j));
        lemma_digits_prefix(d.drop_last(), j);
        lemma_digits_prefix(d.drop_last(), d.len() - 1);
        assert(d.drop_last().subrange(0, d.len() - 1) =~= d.drop_last());
    } else {
        assert(d.subrange(0, j) =~= d);
        if d.len() > 0 {
            lemma_digits_prefix(d.drop_last(), d.len() - 1);
            assert(d.drop_last().subrange(0, d.len() - 1) =~= d.drop_last());
        }
    }
}

/// Id of the file named `name` with extension `ext`, if its name carries one.
#[verifier::loop_isolation(false)]
pub fn parse_file_id(name: &Vec<u8>, ext: &Vec<u8>) -> (r: Option<u8>)
    ensures
        r == file_id(name@, ext@),
{
    if name.len() < ext.len() {
        return None;
    }
    let stem_len = name.len() - ext.len();
    let mut k: usize = 0;
    while k < ext.len()
        invariant
            stem_len + ext.len() == name.len(),
            k <= ext.len(),
            forall|q: int| 0 <= q < k ==> name@[stem_len + q] == ext@[q],
        decreases ext.len() - k,
    {
        if name[stem_len + k] != ext[k] {
            assert(name@.subrange(stem_len as int, name.len() as int)[k as int] != ext@[k as int]);
            return None;
        }
        k = k + 1;
    }
    assert(name@.subrange(stem_len as int, name.len() as int) =~= ext@);
    let ghost t = name@.subrange(0, stem_len as int);
    let start: usize = if stem_len > 0 && name[0] == 43 {
        1
    } else {
        0
    };
    let ghost d = unsigned_part(t);
    assert(d =~= name@.subrange(start as int, stem_len as int));
    assert(file_id(name@, ext@) == parse_u8(t));
    if start == stem_len {
        return None;
    }
    let mut acc: u32 = 0;
    let mut j: usize = start;
    while j < stem_len
        invariant
            start <= j <= stem_len,
            stem_len <= name.len(),
            d == name@.subrange(start as int, stem_len as int),
            acc as int == digits_value(d.subrange(0, j - start)),
            acc <= 255,
            forall|i: int| 0 <= i < j - start ==> is_digit(#[trigger] d[i]),
        decreases stem_len - j,
    {
        let b = name[j];
        if !(48 <= b && b <= 57) {
            assert(d[j - start] == b);
            assert(!is_digit(d[j - start]));
            assert(!all_digits(d));
            return None;
        }
        let ghost pre = d.subrange(0, j - start);
        let ghost post = d.subrange(0, j - start + 1);
        assert(post.drop_last() =~= pre);
        assert(post.last() == b);
        acc = acc * 10 + (b - 48) as u32;
        assert(acc as int == digits_value(post));
        j = j + 1;
        if acc > 255 {
            proof {
                if all_digits(d) {
                    lemma_digits_prefix(d, j - start);
                }
            }
            return None;
        }
    }
    assert(d.subrange(0, d.len() as int) =~= d);
    Some(acc as u8)
}

/// Indexes the directory entries `(file name, path)`, in their order: the
/// first `MAX_INDEXED_FILES` whose names carry an id with extension `ext`,
/// one entry per id, the later path winning.
pub fn index_files(entries: &Vec<(Vec<u8>, String)>, ext: &Vec<u8>) -> (r: Vec<(u8, String)>)
    ensures
        r@ == merged(indexed(entries@, ext@)),
        ids_of(r@).no_duplicates(),
        r@.len() <= MAX_INDEXED_FILES,
{
    let mut taken: usize = 0;
    let mut r: Vec<(u8, String)> = Vec::new();
    let mut k: usize = 0;
    while k < entries.len()
        invariant
            k <= entries.len(),
            taken == indexed(entries@.subrange(0, k as int), ext@).len(),
            taken <= MAX_INDEXED_FILES,
            r@ == merged(indexed(entries@.subrange(0, k as int), ext@)),
            ids_of(r@).no_duplicates(),
            r@.len() <= taken,
        decreases entries.len() - k,
    {
        let ghost pre = entries@.subrange(0, k as int);
        let ghost post = entries@.subrange(0, k + 1);
        assert(post.drop_last() =~= pre);
        if taken < MAX_INDEXED_FILES {
            match parse_file_id(&entries[k].0, ext) {
                Some(id) => {
                    let path = entries[k].1.clone();
                    let ghost es = indexed(post, ext@);
                    assert(es.drop_last() =~= indexed(pre, ext@));
                    assert(es.last() == (id, path));
                    let mut j: usize = 0;
                    let mut at: usize = r.len();
                    while j < r.len()
                        invariant
                            j <= r.len(),
                            at == r.len() || (at < j && r@[at as int].0 == id),
                            at == r.len() ==> forall|q: int| 0 <= q < j ==> r@[q].0 != id,
                        decreases r.len() - j,
                    {
                        if at == r.len() && r[j].0 == id {
                            at = j;
                        }
                        j = j + 1;
                    }
                    let ghost old_r = r@;
                    assert(merged(es.drop_last()) == old_r);
                    assert(es.len() > 0);
                    if at < r.len() {
                        assert(ids_of(old_r)[at as int] == id);
                        r.set(at, (id, path));
                        assert(ids_of(r@) =~= ids_of(old_r));
                        assert(ids_of(old_r)[at as int] == id);
                        assert forall|q: int| 0 <= q < old_r.len() && q != at implies old_r[q].0
                            != id by {
                            assert(ids_of(old_r)[q] == old_r[q].0);
                        }
                        assert(r@ =~= old_r.map_values(
                            |p: (u8, String)|
                                if p.0 == id {
                                    (id, path)
                                } else {
                                    p
                                },
                        ));
                    } else {
                        assert(!ids_of(old_r).contains(id)) by {
                            if ids_of(old_r).contains(id) {
                                let q = choose|q: int| 0 <= q < ids_of(old_r).len() && ids_of(old_r)[q] == id;
                                assert(old_r[q].0 == id);
                            }
                        }
                        r.push((id, path));
                        assert(ids_of(r@) =~= ids_of(old_r).push(id));
                        assert(r@ == merged(es));
                    }
                    taken = taken + 1;
                },
                None => {
                    assert(indexed(post, ext@) == indexed(pre, ext@));
                },
            }
        } else {
            assert(indexed(post, ext@) == indexed(pre, ext@));
        }
        k = k + 1;
    }
    assert(entries@.subrange(0, entries.len() as int) =~= entries@);
    r
}

} // verus!
