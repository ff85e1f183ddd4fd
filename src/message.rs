use vstd::prelude::*;
use vstd::string::StrSliceExecFns;

use crate::server::ServerType;

verus! {

broadcast use vstd::string::is_ascii_spec_bytes;

/// A client's request.
#[derive(Clone, Copy, Debug, PartialEq, Eq, Structural)]
pub enum BrowserRequest {
    FileList,
    TextFileRequest(u8),
    MediaFileRequest(u8),
    ServerTypeRequest,
}

/// Bytes of an ASCII text.
pub open spec fn ascii(s: Seq<char>) -> Seq<u8> {
    Seq::new(s.len(), |i: int| s[i] as u8)
}

/// Decimal digits of `n`, without leading zeros.
pub open spec fn dec(n: u8) -> Seq<u8> {
    if n < 10 {
        seq![(48 + n) as u8]
    } else if n < 100 {
        seq![(48 + n / 10) as u8, (48 + n % 10) as u8]
    } else {
        seq![(48 + n / 100) as u8, (48 + (n / 10) % 10) as u8, (48 + n % 10) as u8]
    }
}

/// Decimal numbers of `ns`, separated by commas.
pub open spec fn dec_list(ns: Seq<u8>) -> Seq<u8>
    decreases ns.len(),
{
    if ns.len() == 0 {
        Seq::empty()
    } else if ns.len() == 1 {
        dec(ns[0])
    } else {
        dec_list(ns.drop_last()) + seq![44u8] + dec(ns.last())
    }
}

/// Lower-case hexadecimal digit of `d`.
pub open spec fn hex_digit(d: u8) -> u8 {
    if d < 10 {
        (48 + d) as u8
    } else {
        (87 + d) as u8
    }
}

/// JSON escape of one byte of a string's UTF-8 encoding.
pub open spec fn escape_byte(b: u8) -> Seq<u8> {
    if b == 34 {
        seq![92u8, 34u8]
    } else if b == 92 {
        seq![92u8, 92u8]
    } else if b == 8 {
        seq![92u8, 98u8]
    } else if b == 12 {
        seq![92u8, 102u8]
    } else if b == 10 {
        seq![92u8, 110u8]
    } else if b == 13 {
        seq![92u8, 114u8]
    } else if b == 9 {
        seq![92u8, 116u8]
    } else if b < 32 {
        seq![92u8, 117u8, 48u8, 48u8, hex_digit(b / 16), hex_digit(b % 16)]
    } else {
        seq![b]
    }
}

pub open spec fn escaped(s: Seq<u8>) -> Seq<u8>
    decreases s.len(),
{
    if s.len() == 0 {
        Seq::empty()
    } else {
        escaped(s.drop_last()) + escape_byte(s.last())
    }
}

/// Wire form of a request.
pub open spec fn request_bytes(q: BrowserRequest) -> Seq<u8> {
    match q {
        BrowserRequest::FileList => ascii("{\"type\":\"FileList\"}"@),
        BrowserRequest::TextFileRequest(id) => ascii("{\"type\":\"TextFile\",\"id\":"@) + dec(id)
            + ascii("}"@),
        BrowserRequest::MediaFileRequest(id) => ascii("{\"type\":\"MediaFile\",\"id\":"@) + dec(
            id,
        ) + ascii("}"@),
        BrowserRequest::ServerTypeRequest => ascii("{\"type\":\"ServerType\"}"@),
    }
}

/// Wire form of the answer listing file ids.
pub open spec fn file_list_bytes(ids: Seq<u8>) -> Seq<u8> {
    ascii("{\"type\":\"FileList\",\"ids\":["@) + dec_list(ids) + ascii("]}"@)
}

/// Wire form of the answer carrying a text file; `text` is UTF-8.
pub open spec fn text_file_bytes(id: u8, text: Seq<u8>) -> Seq<u8> {
    ascii("{\"type\":\"TextFile\",\"id\":"@) + dec(id) + ascii(",\"content\":\""@) + escaped(text)
        + ascii("\"}"@)
}

/// Wire form of the answer carrying a media file.
pub open spec fn media_file_bytes(id: u8, content: Seq<u8>) -> Seq<u8> {
    ascii("{\"type\":\"MediaFile\",\"id\":"@) + dec(id) + ascii(",\"content\":["@) + dec_list(
        content,
    ) + ascii("]}"@)
}

/// Wire form of the answer naming the server's type.
pub open spec fn server_type_bytes(t: ServerType) -> Seq<u8> {
    match t {
        ServerType::Text => ascii("{\"type\":\"ServerType\",\"value\":\"Text\"}"@),
        ServerType::Media => ascii("{\"type\":\"ServerType\",\"value\":\"Media\"}"@),
        ServerType::Chat => ascii("{\"type\":\"ServerType\",\"value\":\"Chat\"}"@),
    }
}

fn push_ascii(v: &mut Vec<u8>, s: &str)
    requires
        vstd::string::is_ascii(s),
    ensures
        final(v)@ == old(v)@ + ascii(s@),
{
    let mut b = s.as_bytes_vec();
    assert(b@ =~= ascii(s@));
    v.append(&mut b);
}

fn push_dec(v: &mut Vec<u8>, n: u8)
    ensures
        final(v)@ == old(v)@ + dec(n),
{
    if n < 10 {
        v.push(48 + n);
    } else if n < 100 {
        v.push(48 + n / 10);
        v.push(48 + n % 10);
    } else {
        v.push(48 + n / 100);
        v.push(48 + (n / 10) % 10);
        v.push(48 + n % 10);
    }
    assert(final(v)@ =~= old(v)@ + dec(n));
}

fn push_dec_list(v: &mut Vec<u8>, ns: &Vec<u8>)
    ensures
        final(v)@ == old(v)@ + dec_list(ns@),
{
    let mut k: usize = 0;
    while k < ns.len()
        invariant
            k <= ns.len(),
            v@ == old(v)@ + dec_list(ns@.subrange(0, k as int)),
        decreases ns.len() - k,
    {
        let ghost pre = ns@.subrange(0, k as int);
        let ghost post = ns@.subrange(0, k + 1);
        assert(post.drop_last() =~= pre);
        if k > 0 {
            v.push(44);
        }
        push_dec(v, ns[k]);
        if k == 0 {
            assert(v@ =~= old(v)@ + dec_list(post));
        } else {
            assert(v@ =~= old(v)@ + dec_list(post));
        }
        k = k + 1;
    }
    assert(ns@.subrange(0, ns.len() as int) =~= ns@);
}

fn hex(d: u8) -> (r: u8)
    requires
        d < 16,
    ensures
        r == hex_digit(d),
{
    if d < 10 {
        48 + d
    } else {
        87 + d
    }
}

fn push_escaped(v: &mut Vec<u8>, s: &Vec<u8>)
    ensures
        final(v)@ == old(v)@ + escaped(s@),
{
    let mut k: usize = 0;
    while k < s.len()
        invariant
            k <= s.len(),
            v@ == old(v)@ + escaped(s@.subrange(0, k as int)),
        decreases s.len() - k,
    {
        let ghost pre = v@;
        let b = s[k];
        if b == 34 {
            v.push(92);
            v.push(34);
        } else if b == 92 {
            v.push(92);
            v.push(92);
        } else if b == 8 {
            v.push(92);
            v.push(98);
        } else if b == 12 {
            v.push(92);
            v.push(102);
        } else if b == 10 {
            v.push(92);
            v.push(110);
        } else if b == 13 {
            v.push(92);
            v.push(114);
        } else if b == 9 {
            v.push(92);
            v.push(116);
        } else if b < 32 {
            v.push(92);
            v.push(117);
            v.push(48);
            v.push(48);
            v.push(hex(b / 16));
            v.push(hex(b % 16));
        } else {
            v.push(b);
        }
        assert(v@ =~= pre + escape_byte(b));
        assert(s@.subrange(0, k + 1).drop_last() =~= s@.subrange(0, k as int));
        k = k + 1;
    }
    assert(s@.subrange(0, s.len() as int) =~= s@);
}

/// Encodes a request in its wire form.
pub fn encode_request(q: BrowserRequest) -> (r: Vec<u8>)
    ensures
        r@ == request_bytes(q),
{
    let mut v: Vec<u8> = Vec::new();
    match q {
        BrowserRequest::FileList => {
            proof {
                reveal_strlit("{\"type\":\"FileList\"}");
            }
            push_ascii(&mut v, "{\"type\":\"FileList\"}");
        },
        BrowserRequest::TextFileRequest(id) => {
            proof {
                reveal_strlit("{\"type\":\"TextFile\",\"id\":");
                reveal_strlit("}");
            }
            push_ascii(&mut v, "{\"type\":\"TextFile\",\"id\":");
            push_dec(&mut v, id);
            push_ascii(&mut v, "}");
        },
        BrowserRequest::MediaFileRequest(id) => {
            proof {
                reveal_strlit("{\"type\":\"MediaFile\",\"id\":");
                reveal_strlit("}");
            }
            push_ascii(&mut v, "{\"type\":\"MediaFile\",\"id\":");
            push_dec(&mut v, id);
            push_ascii(&mut v, "}");
        },
        BrowserRequest::ServerTypeRequest => {
            proof {
                reveal_strlit("{\"type\":\"ServerType\"}");
            }
            push_ascii(&mut v, "{\"type\":\"ServerType\"}");
        },
    }
    assert(v@ =~= request_bytes(q));
    v
}

fn same_bytes(a: &Vec<u8>, b: &Vec<u8>) -> (r: bool)
    ensures
        r == (a@ == b@),
{
    if a.len() != b.len() {
        return false;
    }
    let mut k: usize = 0;
    while k < a.len()
        invariant
            a@.len() == b@.len(),
            k <= a.len(),
            forall|q: int| 0 <= q < k ==> a@[q] == b@[q],
        decreases a.len() - k,
    {
        if a[k] != b[k] {
            return false;
        }
        k = k + 1;
    }
    assert(a@ =~= b@);
    true
}

/// Reads a request from its wire form; `None` when the bytes are the wire
/// form of no request.
pub fn decode_request(b: &Vec<u8>) -> (r: Option<BrowserRequest>)
    ensures
        r is Some ==> request_bytes(r->Some_0) == b@,
        r is None ==> forall|q: BrowserRequest| request_bytes(q) != b@,
{
    if same_bytes(&encode_request(BrowserRequest::FileList), b) {
        return Some(BrowserRequest::FileList);
    }
    if same_bytes(&encode_request(BrowserRequest::ServerTypeRequest), b) {
        return Some(BrowserRequest::ServerTypeRequest);
    }
    let mut id: u16 = 0;
    while id < 256
        invariant
            id <= 256,
            request_bytes(BrowserRequest::FileList) != b@,
            request_bytes(BrowserRequest::ServerTypeRequest) != b@,
            forall|x: u8|
                (x as int) < id ==> request_bytes(BrowserRequest::TextFileRequest(x)) != b@
                    && request_bytes(BrowserRequest::MediaFileRequest(x)) != b@,
        decreases 256 - id,
    {
        let t = BrowserRequest::TextFileRequest(id as u8);
        if same_bytes(&encode_request(t), b) {
            return Some(t);
        }
        let m = BrowserRequest::MediaFileRequest(id as u8);
        if same_bytes(&encode_request(m), b) {
            return Some(m);
        }
        id = id + 1;
    }
    None
}

/// Encodes the answer listing `ids`.
pub fn encode_file_list(ids: &Vec<u8>) -> (r: Vec<u8>)
    ensures
        r@ == file_list_bytes(ids@),
{
    proof {
        reveal_strlit("{\"type\":\"FileList\",\"ids\":[");
        reveal_strlit("]}");
    }
    let mut v: Vec<u8> = Vec::new();
    push_ascii(&mut v, "{\"type\":\"FileList\",\"ids\":[");
    push_dec_list(&mut v, ids);
    push_ascii(&mut v, "]}");
    assert(v@ =~= file_list_bytes(ids@));
    v
}

/// Encodes the answer carrying text file `id` with UTF-8 content `text`.
pub fn encode_text_file(id: u8, text: &Vec<u8>) -> (r: Vec<u8>)
    ensures
        r@ == text_file_bytes(id, text@),
{
    proof {
        reveal_strlit("{\"type\":\"TextFile\",\"id\":");
        reveal_strlit(",\"content\":\"");
        reveal_strlit("\"}");
    }
    let mut v: Vec<u8> = Vec::new();
    push_ascii(&mut v, "{\"type\":\"TextFile\",\"id\":");
    push_dec(&mut v, id);
    push_ascii(&mut v, ",\"content\":\"");
    push_escaped(&mut v, text);
    push_ascii(&mut v, "\"}");
    assert(v@ =~= text_file_bytes(id, text@));
    v
}

/// Encodes the answer carrying media file `id`.
pub fn encode_media_file(id: u8, content: &Vec<u8>) -> (r: Vec<u8>)
    ensures
        r@ == media_file_bytes(id, content@),
{
    proof {
        reveal_strlit("{\"type\":\"MediaFile\",\"id\":");
        reveal_strlit(",\"content\":[");
        reveal_strlit("]}");
    }
    let mut v: Vec<u8> = Vec::new();
    push_ascii(&mut v, "{\"type\":\"MediaFile\",\"id\":");
    push_dec(&mut v, id);
    push_ascii(&mut v, ",\"content\":[");
    push_dec_list(&mut v, content);
    push_ascii(&mut v, "]}");
    assert(v@ =~= media_file_bytes(id, content@));
    v
}

/// Encodes the answer naming server type `t`.
pub fn encode_server_type(t: ServerType) -> (r: Vec<u8>)
    ensures
        r@ == server_type_bytes(t),
{
    let mut v: Vec<u8> = Vec::new();
    match t {
        ServerType::Text => {
            proof {
                reveal_strlit("{\"type\":\"ServerType\",\"value\":\"Text\"}");
            }
            push_ascii(&mut v, "{\"type\":\"ServerType\",\"value\":\"Text\"}");
        },
        ServerType::Media => {
            proof {
                reveal_strlit("{\"type\":\"ServerType\",\"value\":\"Media\"}");
            }
            push_ascii(&mut v, "{\"type\":\"ServerType\",\"value\":\"Media\"}");
        },
        ServerType::Chat => {
            proof {
                reveal_strlit("{\"type\":\"ServerType\",\"value\":\"Chat\"}");
            }
            push_ascii(&mut v, "{\"type\":\"ServerType\",\"value\":\"Chat\"}");
        },
    }
    assert(v@ =~= server_type_bytes(t));
    v
}

proof fn lemma_dec_shape(n: u8)
    ensures
        n < 10 ==> dec(n).len() == 1 && dec(n)[0] == 48 + n,
        10 <= n < 100 ==> dec(n).len() == 2 && dec(n)[0] == 48 + n / 10 && dec(n)[1] == 48 + n
            % 10,
        100 <= n ==> dec(n).len() == 3 && dec(n)[0] == 48 + n / 100 && dec(n)[1] == 48 + (n / 10)
            % 10 && dec(n)[2] == 48 + n % 10,
{
    let x = n as int;
    assert(0 <= x / 100 < 3 && 0 <= x / 10 < 26 && 0 <= x % 10 < 10 && 0 <= (x / 10) % 10 < 10)
        by (nonlinear_arith)
        requires
            0 <= x < 256,
    ;
    if n < 10 {
        assert(dec(n) =~= seq![(48 + n) as u8]);
    } else if n < 100 {
        assert(dec(n) =~= seq![(48 + n / 10) as u8, (48 + n % 10) as u8]);
    } else {
        assert(dec(n) =~= seq![(48 + n / 100) as u8, (48 + (n / 10) % 10) as u8, (48 + n % 10) as u8]);
    }
}

proof fn lemma_dec_injective(a: u8, b: u8)
    requires
        dec(a) == dec(b),
    ensures
        a == b,
{
    assert(dec(a).len() == dec(b).len());
    lemma_dec_shape(a);
    lemma_dec_shape(b);
    let (x, y) = (a as int, b as int);
    assert(0 <= x / 100 < 3 && 0 <= x / 10 < 26 && 0 <= x % 10 < 10 && 0 <= (x / 10) % 10 < 10
        && x == 10 * (x / 10) + x % 10 && x / 10 == 10 * (x / 100) + (x / 10) % 10)
        by (nonlinear_arith)
        requires
            0 <= x < 256,
    ;
    assert(0 <= y / 100 < 3 && 0 <= y / 10 < 26 && 0 <= y % 10 < 10 && 0 <= (y / 10) % 10 < 10
        && y == 10 * (y / 10) + y % 10 && y / 10 == 10 * (y / 100) + (y / 10) % 10)
        by (nonlinear_arith)
        requires
            0 <= y < 256,
    ;
    if a < 10 {
        assert(b < 10);
        assert(dec(a)[0] == dec(b)[0]);
        assert(x == y);
    } else if a < 100 {
        assert(10 <= b < 100);
        assert(dec(a)[0] == dec(b)[0] && dec(a)[1] == dec(b)[1]);
        assert(x / 10 == y / 10);
        assert(x % 10 == y % 10);
    } else {
        assert(b >= 100);
        assert(dec(a)[0] == dec(b)[0] && dec(a)[1] == dec(b)[1] && dec(a)[2] == dec(b)[2]);
        assert(x / 100 == y / 100);
        assert((x / 10) % 10 == (y / 10) % 10);
        assert(x % 10 == y % 10);
    }
}

proof fn lemma_tagged_injective(pre: Seq<u8>, a: u8, b: u8)
    requires
        pre + dec(a) + ascii("}"@) == pre + dec(b) + ascii("}"@),
    ensures
        a == b,
{
    reveal_strlit("}");
    let x = pre + dec(a) + ascii("}"@);
    let y = pre + dec(b) + ascii("}"@);
    assert(x.len() == y.len());
    assert(ascii("}"@).len() == 1);
    assert(x.len() == pre.len() + dec(a).len() + 1);
    assert(y.len() == pre.len() + dec(b).len() + 1);
    assert(dec(a) =~= x.subrange(pre.len() as int, pre.len() + dec(a).len() as int));
    assert(dec(b) =~= y.subrange(pre.len() as int, pre.len() + dec(b).len() as int));
    lemma_dec_injective(a, b);
}

/// Distinct requests have distinct wire forms, so reading one back is exact.
pub proof fn lemma_request_bytes_injective(q1: BrowserRequest, q2: BrowserRequest)
    ensures
        request_bytes(q1) == request_bytes(q2) ==> q1 == q2,
{
    reveal_strlit("{\"type\":\"FileList\"}");
    reveal_strlit("{\"type\":\"TextFile\",\"id\":");
    reveal_strlit("{\"type\":\"MediaFile\",\"id\":");
    reveal_strlit("{\"type\":\"ServerType\"}");
    reveal_strlit("}");
    if request_bytes(q1) == request_bytes(q2) {
        let b = request_bytes(q1);
        match q1 {
            BrowserRequest::TextFileRequest(a) => {
                assert(b[9] == 84u8);
                match q2 {
                    BrowserRequest::TextFileRequest(c) => {
                        lemma_tagged_injective(ascii("{\"type\":\"TextFile\",\"id\":"@), a, c);
                    },
                    _ => {},
                }
            },
            BrowserRequest::MediaFileRequest(a) => {
                assert(b[9] == 77u8);
                match q2 {
                    BrowserRequest::MediaFileRequest(c) => {
                        lemma_tagged_injective(ascii("{\"type\":\"MediaFile\",\"id\":"@), a, c);
                    },
                    _ => {},
                }
            },
            BrowserRequest::FileList => {
                assert(b[9] == 70u8);
            },
            BrowserRequest::ServerTypeRequest => {
                assert(b[9] == 83u8);
            },
        }
    }
}

/// A UTF-8 continuation byte.
pub open spec fn is_cont(b: u8) -> bool {
    0x80 <= b <= 0xbf
}

/// Length of the well-formed UTF-8 sequence at position `i` of `s`, or zero
/// when none starts there.
pub open spec fn utf8_len_at(s: Seq<u8>, i: int) -> int {
    let b = s[i];
    if b <= 0x7f {
        1
    } else if 0xc2 <= b <= 0xdf {
        if i + 1 < s.len() && is_cont(s[i + 1]) {
            2
        } else {
            0
        }
    } else if 0xe0 <= b <= 0xef {
        let lo: u8 = if b == 0xe0 {
            0xa0
        } else {
            0x80
        };
        let hi: u8 = if b == 0xed {
            0x9f
        } else {
            0xbf
        };
        if i + 2 < s.len() && lo <= s[i + 1] <= hi && is_cont(s[i + 2]) {
            3
        } else {
            0
        }
    } else if 0xf0 <= b <= 0xf4 {
        let lo: u8 = if b == 0xf0 {
            0x90
        } else {
            0x80
        };
        let hi: u8 = if b == 0xf4 {
            0x8f
        } else {
            0xbf
        };
        if i + 3 < s.len() && lo <= s[i + 1] <= hi && is_cont(s[i + 2]) && is_cont(s[i + 3]) {
            4
        } else {
            0
        }
    } else {
        0
    }
}

/// `s` from position `i` on is well-formed UTF-8.
pub open spec fn utf8_from(s: Seq<u8>, i: int) -> bool
    decreases s.len() - i,
{
    if i < 0 || i >= s.len() {
        true
    } else {
        let l = utf8_len_at(s, i);
        l > 0 && utf8_from(s, i + l)
    }
}

pub open spec fn is_utf8(s: Seq<u8>) -> bool {
    utf8_from(s, 0)
}

fn utf8_len(s: &Vec<u8>, i: usize) -> (r: usize)
    requires
        i < s@.len(),
    ensures
        r == utf8_len_at(s@, i as int),
{
    let n = s.len();
    let b = s[i];
    if b <= 0x7f {
        1
    } else if 0xc2 <= b && b <= 0xdf {
        if n - i > 1 && 0x80 <= s[i + 1] && s[i + 1] <= 0xbf {
            2
        } else {
            0
        }
    } else if 0xe0 <= b && b <= 0xef {
        let lo: u8 = if b == 0xe0 {
            0xa0
        } else {
            0x80
        };
        let hi: u8 = if b == 0xed {
            0x9f
        } else {
            0xbf
        };
        if n - i > 2 && lo <= s[i + 1] && s[i + 1] <= hi && 0x80 <= s[i + 2] && s[i + 2] <= 0xbf {
            3
        } else {
            0
        }
    } else if 0xf0 <= b && b <= 0xf4 {
        let lo: u8 = if b == 0xf0 {
            0x90
        } else {
            0x80
        };
        let hi: u8 = if b == 0xf4 {
            0x8f
        } else {
            0xbf
        };
        if n - i > 3 && lo <= s[i + 1] && s[i + 1] <= hi && 0x80 <= s[i + 2] && s[i + 2] <= 0xbf
            && 0x80 <= s[i + 3] && s[i + 3] <= 0xbf {
            4
        } else {
            0
        }
    } else {
        0
    }
}

/// Whether `s` is well-formed UTF-8 text.
pub fn check_utf8(s: &Vec<u8>) -> (r: bool)
    ensures
        r == is_utf8(s@),
{
    let mut i: usize = 0;
    while i < s.len()
        invariant
            i <= s.len(),
            is_utf8(s@) == utf8_from(s@, i as int),
        decreases s.len() - i,
    {
        let l = utf8_len(s, i);
        if l == 0 {
            return false;
        }
        i = i + l;
    }
    true
}

} // verus!
