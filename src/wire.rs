//! The signaling wire format: text lines ended by CR LF, a block ended by an
//! empty line. Codec configuration travels as raw bytes on a line of its own
//! and may not hold CR or LF.

use vstd::prelude::*;
use crate::endpoint::{
    endpoint_text, endpoint_to_text, is_digit, octet, parse_endpoint, Endpoint,
};
use crate::kinds::{ErrorKind, StreamType};

verus! {

/// The end of a line.
pub open spec fn crlf() -> Seq<u8> {
    seq![13u8, 10u8]
}

/// A line holds neither CR nor LF.
pub open spec fn line_free(l: Seq<u8>) -> bool {
    forall|k: int| 0 <= k < l.len() ==> #[trigger] l[k] != 13u8 && l[k] != 10u8
}

/// The line that starts at `pos` ends at `e`, where CR LF follows.
pub open spec fn line_at(s: Seq<u8>, pos: int, e: int) -> bool {
    &&& 0 <= pos <= e
    &&& e + 2 <= s.len()
    &&& line_free(s.subrange(pos, e))
    &&& s[e] == 13u8
    &&& s[e + 1] == 10u8
}

/// The line that names a stream kind.
pub open spec fn kind_text(k: StreamType) -> Seq<u8> {
    match k {
        StreamType::Video => seq![118u8, 105u8, 100u8, 101u8, 111u8],
        StreamType::Audio => seq![97u8, 117u8, 100u8, 105u8, 111u8],
    }
}

/// A codec configuration line: non-empty, without CR or LF.
pub open spec fn codec_line_ok(l: Seq<u8>) -> bool {
    l.len() > 0 && line_free(l)
}

/// The SPS and PPS lines of a block: present for video only.
pub open spec fn codec_lines(kind: StreamType, sps: Seq<u8>, pps: Seq<u8>) -> Seq<u8> {
    match kind {
        StreamType::Video => sps + crlf() + pps + crlf(),
        StreamType::Audio => Seq::empty(),
    }
}

/// Codec configuration that a block of `kind` can carry: two good lines for
/// video, none for audio.
pub open spec fn codec_ok(kind: StreamType, sps: Seq<u8>, pps: Seq<u8>) -> bool {
    match kind {
        StreamType::Video => codec_line_ok(sps) && codec_line_ok(pps),
        StreamType::Audio => sps.len() == 0 && pps.len() == 0,
    }
}

/// A join request: stream kind, the sender's signaling and media endpoints,
/// and for video its SPS and PPS.
#[verifier::opaque]
pub open spec fn request_bytes(
    kind: StreamType,
    signaling: Endpoint,
    media: Endpoint,
    sps: Seq<u8>,
    pps: Seq<u8>,
) -> Seq<u8> {
    kind_text(kind) + crlf() + endpoint_text(signaling) + crlf() + endpoint_text(media) + crlf()
        + codec_lines(kind, sps, pps) + crlf()
}

/// A join request, as read off the wire.
pub struct SignalingRequest {
    pub kind: StreamType,
    pub signaling_addr: Endpoint,
    pub media_addr: Endpoint,
    pub sps: Vec<u8>,
    pub pps: Vec<u8>,
}

proof fn lemma_endpoint_text_free(e: Endpoint)
    ensures
        line_free(endpoint_text(e)),
        endpoint_text(e).len() > 0,
{
    crate::endpoint::lemma_digits_of(octet(e.ip, 0));
    crate::endpoint::lemma_digits_of(octet(e.ip, 1));
    crate::endpoint::lemma_digits_of(octet(e.ip, 2));
    crate::endpoint::lemma_digits_of(octet(e.ip, 3));
    crate::endpoint::lemma_digits_of(e.port as nat);
    let t = endpoint_text(e);
    assert forall|k: int| 0 <= k < t.len() implies #[trigger] t[k] != 13u8 && t[k] != 10u8 by {
        assert(is_digit(t[k]) || t[k] == 46u8 || t[k] == 58u8);
    }
}

proof fn lemma_kind_text_free(k: StreamType)
    ensures
        line_free(kind_text(k)),
        kind_text(k).len() == 5,
{
}

/// A line stands between `pre` and CR LF.
proof fn lemma_line(s: Seq<u8>, pre: Seq<u8>, part: Seq<u8>, post: Seq<u8>)
    requires
        s == pre + part + crlf() + post,
        line_free(part),
    ensures
        line_at(s, pre.len() as int, (pre.len() + part.len()) as int),
        s.subrange(pre.len() as int, (pre.len() + part.len()) as int) == part,
{
    let p = pre.len() as int;
    let q = p + part.len();
    assert(s.subrange(p, q) =~= part);
    assert(s[q] == 13u8);
    assert(s[q + 1] == 10u8);
}

/// A line ends at one place only.
proof fn lemma_line_unique(s: Seq<u8>, pos: int, e1: int, e2: int)
    requires
        line_at(s, pos, e1),
        line_at(s, pos, e2),
    ensures
        e1 == e2,
{
    if e1 < e2 {
        assert(s.subrange(pos, e2)[e1 - pos] == s[e1]);
    } else if e2 < e1 {
        assert(s.subrange(pos, e1)[e2 - pos] == s[e2]);
    }
}

/// Where the lines of a request stand.
#[verifier::rlimit(40)]
proof fn lemma_request_layout(
    kind: StreamType,
    signaling: Endpoint,
    media: Endpoint,
    sps: Seq<u8>,
    pps: Seq<u8>,
)
    requires
        codec_ok(kind, sps, pps),
    ensures
        ({
            let s = request_bytes(kind, signaling, media, sps, pps);
            let e1 = 5int;
            let e2 = e1 + 2 + endpoint_text(signaling).len();
            let e3 = e2 + 2 + endpoint_text(media).len();
            let end = e3 + 2 + codec_lines(kind, sps, pps).len();
            &&& line_at(s, 0, e1)
            &&& s.subrange(0, e1) == kind_text(kind)
            &&& line_at(s, e1 + 2, e2)
            &&& s.subrange(e1 + 2, e2) == endpoint_text(signaling)
            &&& line_at(s, e2 + 2, e3)
            &&& s.subrange(e2 + 2, e3) == endpoint_text(media)
            &&& kind == StreamType::Video ==> {
                &&& line_at(s, e3 + 2, e3 + 2 + sps.len())
                &&& s.subrange(e3 + 2, e3 + 2 + sps.len()) == sps
                &&& line_at(s, e3 + 4 + sps.len(), e3 + 4 + sps.len() + pps.len())
                &&& s.subrange(e3 + 4 + sps.len(), e3 + 4 + sps.len() + pps.len()) == pps
                &&& end == e3 + 6 + sps.len() + pps.len()
            }
            &&& kind == StreamType::Audio ==> end == e3 + 2
            &&& s.len() == end + 2
            &&& s[end] == 13u8
            &&& s[end + 1] == 10u8
        }),
{
    reveal(request_bytes);
    let s = request_bytes(kind, signaling, media, sps, pps);
    let k = kind_text(kind);
    let a = endpoint_text(signaling);
    let m = endpoint_text(media);
    let c = codec_lines(kind, sps, pps);
    lemma_kind_text_free(kind);
    lemma_endpoint_text_free(signaling);
    lemma_endpoint_text_free(media);
    assert(s =~= Seq::empty() + k + crlf() + (a + crlf() + m + crlf() + c + crlf()));
    lemma_line(s, Seq::empty(), k, a + crlf() + m + crlf() + c + crlf());
    assert(s =~= (k + crlf()) + a + crlf() + (m + crlf() + c + crlf()));
    lemma_line(s, k + crlf(), a, m + crlf() + c + crlf());
    assert(s =~= (k + crlf() + a + crlf()) + m + crlf() + (c + crlf()));
    lemma_line(s, k + crlf() + a + crlf(), m, c + crlf());
    let pre = k + crlf() + a + crlf() + m + crlf();
    if kind == StreamType::Video {
        assert(s =~= pre + sps + crlf() + (pps + crlf() + crlf()));
        lemma_line(s, pre, sps, pps + crlf() + crlf());
        assert(s =~= (pre + sps + crlf()) + pps + crlf() + crlf());
        lemma_line(s, pre + sps + crlf(), pps, crlf());
    }
    assert(s =~= pre + c + crlf());
}

/// Compares a line with the text of a stream kind.
fn is_kind_line(l: &[u8], k: StreamType) -> (r: bool)
    ensures
        r == (l@ == kind_text(k)),
{
    let t: [u8; 5] = match k {
        StreamType::Video => [118u8, 105u8, 100u8, 101u8, 111u8],
        StreamType::Audio => [97u8, 117u8, 100u8, 105u8, 111u8],
    };
    assert(t@ =~= kind_text(k));
    if l.len() != 5 {
        return false;
    }
    let mut i: usize = 0;
    while i < 5
        invariant
            l@.len() == 5,
            t@ == kind_text(k),
            i <= 5,
            forall|j: int| 0 <= j < i ==> l@[j] == t@[j],
        decreases 5 - i,
    {
        if l[i] != t[i] {
            return false;
        }
        i = i + 1;
    }
    assert(l@ =~= t@);
    true
}

/// Finds the end of the line that starts at `pos`: the first CR, which LF
/// must follow. `None` when no line ends there.
pub fn next_line(s: &[u8], pos: usize) -> (r: Option<usize>)
    requires
        pos <= s@.len(),
    ensures
        match r {
            Some(e) => line_at(s@, pos as int, e as int),
            None => forall|e: int| !#[trigger] line_at(s@, pos as int, e),
        },
{
    let len = s.len();
    let mut i: usize = pos;
    while i < len
        invariant
            pos <= i <= len == s@.len(),
            line_free(s@.subrange(pos as int, i as int)),
        decreases len - i,
    {
        let b = s[i];
        if b == 13u8 || b == 10u8 {
            if b == 13u8 && i + 1 < len && s[i + 1] == 10u8 {
                return Some(i);
            }
            proof {
                assert forall|e: int| !#[trigger] line_at(s@, pos as int, e) by {
                    if line_at(s@, pos as int, e) {
                        if e > i {
                            assert(s@.subrange(pos as int, e)[i - pos] == s@[i as int]);
                        } else if e < i {
                            assert(s@.subrange(pos as int, i as int)[e - pos] == s@[e]);
                        }
                    }
                }
            }
            return None;
        }
        proof {
            assert forall|k: int| 0 <= k < i + 1 - pos implies #[trigger] s@.subrange(
                pos as int,
                i + 1,
            )[k] != 13u8 && s@.subrange(pos as int, i + 1)[k] != 10u8 by {
                if k < i - pos {
                    assert(s@.subrange(pos as int, i + 1)[k] == s@.subrange(pos as int, i as int)[k]);
                }
            }
        }
        i = i + 1;
    }
    proof {
        assert forall|e: int| !#[trigger] line_at(s@, pos as int, e) by {
            if line_at(s@, pos as int, e) {
                assert(s@.subrange(pos as int, i as int)[e - pos] == s@[e]);
            }
        }
    }
    None
}

/// Appends the bytes of `s`.
pub fn append_bytes(out: &mut Vec<u8>, s: &[u8])
    ensures
        final(out)@ == old(out)@ + s@,
{
    let mut i: usize = 0;
    while i < s.len()
        invariant
            i <= s@.len(),
            out@ == old(out)@ + s@.take(i as int),
        decreases s@.len() - i,
    {
        out.push(s[i]);
        i = i + 1;
        assert(out@ =~= old(out)@ + s@.take(i as int));
    }
    assert(s@.take(i as int) =~= s@);
}

fn push_crlf(out: &mut Vec<u8>)
    ensures
        final(out)@ == old(out)@ + crlf(),
{
    out.push(13u8);
    out.push(10u8);
    assert(out@ =~= old(out)@ + crlf());
}

fn push_kind(out: &mut Vec<u8>, k: StreamType)
    ensures
        final(out)@ == old(out)@ + kind_text(k),
{
    let t: [u8; 5] = match k {
        StreamType::Video => [118u8, 105u8, 100u8, 101u8, 111u8],
        StreamType::Audio => [97u8, 117u8, 100u8, 105u8, 111u8],
    };
    assert(t@ =~= kind_text(k));
    append_bytes(out, &t);
}

/// Whether a line can carry codec configuration.
pub fn is_codec_line(l: &[u8]) -> (r: bool)
    ensures
        r == codec_line_ok(l@),
{
    if l.len() == 0 {
        return false;
    }
    let mut i: usize = 0;
    while i < l.len()
        invariant
            i <= l@.len(),
            forall|k: int| 0 <= k < i ==> #[trigger] l@[k] != 13u8 && l@[k] != 10u8,
        decreases l@.len() - i,
    {
        if l[i] == 13u8 || l[i] == 10u8 {
            return false;
        }
        i = i + 1;
    }
    true
}

/// Writes a join request. For video, SPS and PPS must each be a non-empty
/// line without CR or LF, else the request is refused as invalid data; for
/// audio they are not sent.
pub fn build_request(
    kind: StreamType,
    signaling: &Endpoint,
    media: &Endpoint,
    sps: &[u8],
    pps: &[u8],
) -> (r: Result<Vec<u8>, ErrorKind>)
    ensures
        match r {
            Ok(b) => {
                &&& kind == StreamType::Video ==> codec_line_ok(sps@) && codec_line_ok(pps@)
                &&& b@ == request_bytes(kind, *signaling, *media, sps@, pps@)
            },
            Err(e) => {
                &&& e == ErrorKind::InvalidData
                &&& kind == StreamType::Video
                &&& !(codec_line_ok(sps@) && codec_line_ok(pps@))
            },
        },
{
    if kind == StreamType::Video && !(is_codec_line(sps) && is_codec_line(pps)) {
        return Err(ErrorKind::InvalidData);
    }
    let mut out: Vec<u8> = Vec::new();
    push_kind(&mut out, kind);
    push_crlf(&mut out);
    let st = endpoint_to_text(signaling);
    append_bytes(&mut out, st.as_slice());
    push_crlf(&mut out);
    let mt = endpoint_to_text(media);
    append_bytes(&mut out, mt.as_slice());
    push_crlf(&mut out);
    let ghost pre = out@;
    if kind == StreamType::Video {
        append_bytes(&mut out, sps);
        push_crlf(&mut out);
        append_bytes(&mut out, pps);
        push_crlf(&mut out);
    }
    assert(out@ =~= pre + codec_lines(kind, sps@, pps@));
    push_crlf(&mut out);
    reveal(request_bytes);
    assert(out@ =~= request_bytes(kind, *signaling, *media, sps@, pps@));
    Ok(out)
}

/// An endpoint line for `f` starts at `pos`.
pub open spec fn endpoint_line_at(s: Seq<u8>, pos: int, f: Endpoint) -> bool {
    &&& line_at(s, pos, pos + endpoint_text(f).len())
    &&& s.subrange(pos, pos + endpoint_text(f).len()) == endpoint_text(f)
}

/// A codec configuration line `x` starts at `pos`.
pub open spec fn codec_line_at(s: Seq<u8>, pos: int, x: Seq<u8>) -> bool {
    &&& codec_line_ok(x)
    &&& line_at(s, pos, pos + x.len())
    &&& s.subrange(pos, pos + x.len()) == x
}

/// The request of `k`, `a`, `m`, `x`, `y` is `s`.
pub open spec fn is_request(
    s: Seq<u8>,
    k: StreamType,
    a: Endpoint,
    m: Endpoint,
    x: Seq<u8>,
    y: Seq<u8>,
) -> bool {
    codec_ok(k, x, y) && s == request_bytes(k, a, m, x, y)
}

/// Reads the line at the start of `s` as a stream kind.
fn read_kind_line(s: &[u8]) -> (r: Option<(StreamType, usize)>)
    ensures
        match r {
            Some((k, e)) => e == 5 && line_at(s@, 0, e as int) && s@.subrange(0, e as int) == kind_text(k),
            None => forall|k: StreamType|
                !(line_at(s@, 0, 5) && s@.subrange(0, 5) == #[trigger] kind_text(k)),
        },
{
    let e = match next_line(s, 0) {
        Some(e) => e,
        None => {
            return None;
        },
    };
    if e != 5 {
        proof {
            assert forall|k: StreamType|
                !(line_at(s@, 0, 5) && s@.subrange(0, 5) == #[trigger] kind_text(k)) by {
                if line_at(s@, 0, 5) {
                    lemma_line_unique(s@, 0, e as int, 5);
                }
            }
        }
        return None;
    }
    if is_kind_line(&s[0..e], StreamType::Video) {
        Some((StreamType::Video, e))
    } else if is_kind_line(&s[0..e], StreamType::Audio) {
        Some((StreamType::Audio, e))
    } else {
        proof {
            assert forall|k: StreamType|
                !(line_at(s@, 0, 5) && s@.subrange(0, 5) == #[trigger] kind_text(k)) by {
                match k {
                    StreamType::Video => {},
                    StreamType::Audio => {},
                }
            }
        }
        None
    }
}

/// Reads the line at `pos` as an endpoint.
fn read_endpoint_line(s: &[u8], pos: usize) -> (r: Option<(Endpoint, usize)>)
    requires
        pos <= s@.len(),
    ensures
        match r {
            Some((e, end)) => {
                &&& endpoint_line_at(s@, pos as int, e)
                &&& end == pos + endpoint_text(e).len()
                &&& forall|f: Endpoint| #[trigger] endpoint_line_at(s@, pos as int, f) ==> f == e
            },
            None => forall|f: Endpoint| !#[trigger] endpoint_line_at(s@, pos as int, f),
        },
{
    let end = match next_line(s, pos) {
        Some(e) => e,
        None => {
            return None;
        },
    };
    match parse_endpoint(&s[pos..end]) {
        Some(e) => {
            proof {
                assert forall|f: Endpoint| #[trigger] endpoint_line_at(s@, pos as int, f) implies f
                    == e by {
                    lemma_line_unique(s@, pos as int, end as int, pos + endpoint_text(f).len());
                    crate::endpoint::lemma_text_injective(e, f);
                }
            }
            Some((e, end))
        },
        None => {
            proof {
                assert forall|f: Endpoint| !#[trigger] endpoint_line_at(s@, pos as int, f) by {
                    if endpoint_line_at(s@, pos as int, f) {
                        lemma_line_unique(s@, pos as int, end as int, pos + endpoint_text(f).len());
                    }
                }
            }
            None
        },
    }
}

/// Reads the line at `pos` as codec configuration.
fn read_codec_line(s: &[u8], pos: usize) -> (r: Option<usize>)
    requires
        pos <= s@.len(),
    ensures
        match r {
            Some(end) => {
                &&& pos < end
                &&& end + 2 <= s@.len()
                &&& codec_line_at(s@, pos as int, s@.subrange(pos as int, end as int))
                &&& forall|x: Seq<u8>| #[trigger] codec_line_at(s@, pos as int, x) ==> x
                    == s@.subrange(pos as int, end as int)
            },
            None => forall|x: Seq<u8>| !#[trigger] codec_line_at(s@, pos as int, x),
        },
{
    let end = match next_line(s, pos) {
        Some(e) => e,
        None => {
            return None;
        },
    };
    if end == pos {
        proof {
            assert forall|x: Seq<u8>| !#[trigger] codec_line_at(s@, pos as int, x) by {
                if codec_line_at(s@, pos as int, x) {
                    lemma_line_unique(s@, pos as int, end as int, pos + x.len());
                }
            }
        }
        return None;
    }
    proof {
        assert forall|x: Seq<u8>| #[trigger] codec_line_at(s@, pos as int, x) implies x
            == s@.subrange(pos as int, end as int) by {
            lemma_line_unique(s@, pos as int, end as int, pos + x.len());
        }
    }
    Some(end)
}

/// Where the lines of a request stand, told by line.
proof fn lemma_request_lines(s: Seq<u8>, k: StreamType, a: Endpoint, m: Endpoint, x: Seq<u8>, y: Seq<u8>)
    requires
        is_request(s, k, a, m, x, y),
    ensures
        line_at(s, 0, 5),
        s.subrange(0, 5) == kind_text(k),
        endpoint_line_at(s, 7, a),
        endpoint_line_at(s, 9 + endpoint_text(a).len() as int, m),
        ({
            let e3: int = 9 + endpoint_text(a).len() as int + endpoint_text(m).len() as int;
            let end: int = e3 + 2 + codec_lines(k, x, y).len() as int;
            &&& k == StreamType::Video ==> {
                &&& codec_line_at(s, e3 + 2, x)
                &&& codec_line_at(s, e3 + 4 + x.len(), y)
                &&& end == e3 + 6 + x.len() + y.len()
            }
            &&& k == StreamType::Audio ==> end == e3 + 2
            &&& s.len() == end + 2
            &&& s[end] == 13u8
            &&& s[end + 1] == 10u8
        }),
{
    lemma_request_layout(k, a, m, x, y);
}

proof fn lemma_request_assembled(
    s: Seq<u8>,
    k: StreamType,
    a: Endpoint,
    m: Endpoint,
    x: Seq<u8>,
    y: Seq<u8>,
    e1: int,
    e2: int,
    e3: int,
)
    requires
        line_at(s, 0, e1),
        s.subrange(0, e1) == kind_text(k),
        endpoint_line_at(s, e1 + 2, a),
        e2 == e1 + 2 + endpoint_text(a).len(),
        endpoint_line_at(s, e2 + 2, m),
        e3 == e2 + 2 + endpoint_text(m).len(),
        k == StreamType::Video ==> {
            &&& codec_line_at(s, e3 + 2, x)
            &&& codec_line_at(s, e3 + 4 + x.len(), y)
            &&& s.len() == e3 + 8 + x.len() + y.len()
            &&& s[e3 + 6 + x.len() + y.len()] == 13u8
            &&& s[e3 + 7 + x.len() + y.len()] == 10u8
        },
        k == StreamType::Audio ==> {
            &&& x.len() == 0
            &&& y.len() == 0
            &&& s.len() == e3 + 4
            &&& s[e3 + 2] == 13u8
            &&& s[e3 + 3] == 10u8
        },
    ensures
        is_request(s, k, a, m, x, y),
{
    reveal(request_bytes);
    if k == StreamType::Video {
        assert(s =~= s.subrange(0, e1) + crlf() + s.subrange(e1 + 2, e2) + crlf() + s.subrange(
            e2 + 2,
            e3,
        ) + crlf() + (x + crlf() + y + crlf()) + crlf());
    } else {
        assert(s =~= s.subrange(0, e1) + crlf() + s.subrange(e1 + 2, e2) + crlf() + s.subrange(
            e2 + 2,
            e3,
        ) + crlf() + Seq::<u8>::empty() + crlf());
    }
}

/// A request has one reading only.
#[verifier::rlimit(40)]
pub proof fn lemma_request_unique(
    s: Seq<u8>,
    k1: StreamType,
    a1: Endpoint,
    m1: Endpoint,
    x1: Seq<u8>,
    y1: Seq<u8>,
    k2: StreamType,
    a2: Endpoint,
    m2: Endpoint,
    x2: Seq<u8>,
    y2: Seq<u8>,
)
    requires
        is_request(s, k1, a1, m1, x1, y1),
        is_request(s, k2, a2, m2, x2, y2),
    ensures
        k1 == k2 && a1 == a2 && m1 == m2 && x1 == x2 && y1 == y2,
{
    lemma_request_lines(s, k1, a1, m1, x1, y1);
    lemma_request_lines(s, k2, a2, m2, x2, y2);
    if k1 != k2 {
        assert(kind_text(k1)[0] != kind_text(k2)[0]);
    }
    lemma_line_unique(s, 7, 7 + endpoint_text(a1).len() as int, 7 + endpoint_text(a2).len() as int);
    crate::endpoint::lemma_text_injective(a1, a2);
    let p = 9 + endpoint_text(a1).len() as int;
    lemma_line_unique(s, p, p + endpoint_text(m1).len() as int, p + endpoint_text(m2).len() as int);
    crate::endpoint::lemma_text_injective(m1, m2);
    if k1 == StreamType::Video {
        let e3 = p + endpoint_text(m1).len() as int;
        lemma_line_unique(s, e3 + 2, e3 + 2 + x1.len() as int, e3 + 2 + x2.len() as int);
        let q = e3 + 4 + x1.len() as int;
        lemma_line_unique(s, q, q + y1.len() as int, q + y2.len() as int);
    }
}

/// Reads a join request: `Ok` exactly when `s` is the request of some kind,
/// endpoints and acceptable codec configuration, which it returns; anything
/// else is invalid data.
#[verifier::rlimit(40)]
pub fn parse_request(s: &[u8]) -> (r: Result<SignalingRequest, ErrorKind>)
    ensures
        match r {
            Ok(q) => is_request(s@, q.kind, q.signaling_addr, q.media_addr, q.sps@, q.pps@),
            Err(e) => {
                &&& e == ErrorKind::InvalidData
                &&& forall|k: StreamType, a: Endpoint, m: Endpoint, x: Seq<u8>, y: Seq<u8>|
                    !#[trigger] is_request(s@, k, a, m, x, y)
            },
        },
{
    let len = s.len();
    let (kind, e1) = match read_kind_line(s) {
        Some(x) => x,
        None => {
            proof {
                assert forall|k: StreamType, a: Endpoint, m: Endpoint, x: Seq<u8>, y: Seq<u8>|
                    !#[trigger] is_request(s@, k, a, m, x, y) by {
                    if is_request(s@, k, a, m, x, y) {
                        lemma_request_lines(s@, k, a, m, x, y);
                    }
                }
            }
            return Err(ErrorKind::InvalidData);
        },
    };
    let (signaling_addr, e2) = match read_endpoint_line(s, e1 + 2) {
        Some(x) => x,
        None => {
            proof {
                assert forall|k: StreamType, a: Endpoint, m: Endpoint, x: Seq<u8>, y: Seq<u8>|
                    !#[trigger] is_request(s@, k, a, m, x, y) by {
                    if is_request(s@, k, a, m, x, y) {
                        lemma_request_lines(s@, k, a, m, x, y);
                        lemma_line_unique(s@, 0, e1 as int, 5);
                    }
                }
            }
            return Err(ErrorKind::InvalidData);
        },
    };
    let (media_addr, e3) = match read_endpoint_line(s, e2 + 2) {
        Some(x) => x,
        None => {
            proof {
                assert forall|k: StreamType, a: Endpoint, m: Endpoint, x: Seq<u8>, y: Seq<u8>|
                    !#[trigger] is_request(s@, k, a, m, x, y) by {
                    if is_request(s@, k, a, m, x, y) {
                        lemma_request_lines(s@, k, a, m, x, y);
                        lemma_line_unique(s@, 0, e1 as int, 5);
                    }
                }
            }
            return Err(ErrorKind::InvalidData);
        },
    };
    let mut sps: Vec<u8> = Vec::new();
    let mut pps: Vec<u8> = Vec::new();
    let mut end = e3 + 2;
    if kind == StreamType::Video {
        let e4 = match read_codec_line(s, e3 + 2) {
            Some(e) => e,
            None => {
                proof {
                    assert forall|k: StreamType, a: Endpoint, m: Endpoint, x: Seq<u8>, y: Seq<u8>|
                        !#[trigger] is_request(s@, k, a, m, x, y) by {
                        if is_request(s@, k, a, m, x, y) {
                            lemma_request_lines(s@, k, a, m, x, y);
                            lemma_line_unique(s@, 0, e1 as int, 5);
                            if k != kind {
                                assert(kind_text(k)[0] != kind_text(kind)[0]);
                            }
                        }
                    }
                }
                return Err(ErrorKind::InvalidData);
            },
        };
        let e5 = match read_codec_line(s, e4 + 2) {
            Some(e) => e,
            None => {
                proof {
                    assert forall|k: StreamType, a: Endpoint, m: Endpoint, x: Seq<u8>, y: Seq<u8>|
                        !#[trigger] is_request(s@, k, a, m, x, y) by {
                        if is_request(s@, k, a, m, x, y) {
                            lemma_request_lines(s@, k, a, m, x, y);
                            lemma_line_unique(s@, 0, e1 as int, 5);
                            if k != kind {
                                assert(kind_text(k)[0] != kind_text(kind)[0]);
                            }
                        }
                    }
                }
                return Err(ErrorKind::InvalidData);
            },
        };
        sps = vstd::slice::slice_to_vec(&s[e3 + 2..e4]);
        pps = vstd::slice::slice_to_vec(&s[e4 + 2..e5]);
        end = e5 + 2;
    }
    if !(end <= len && len - end == 2 && s[end] == 13u8 && s[end + 1] == 10u8) {
        proof {
            assert forall|k: StreamType, a: Endpoint, m: Endpoint, x: Seq<u8>, y: Seq<u8>|
                !#[trigger] is_request(s@, k, a, m, x, y) by {
                if is_request(s@, k, a, m, x, y) {
                    lemma_request_lines(s@, k, a, m, x, y);
                    lemma_line_unique(s@, 0, e1 as int, 5);
                    if k != kind {
                        assert(kind_text(k)[0] != kind_text(kind)[0]);
                    }
                }
            }
        }
        return Err(ErrorKind::InvalidData);
    }
    proof {
        lemma_request_assembled(s@, kind, signaling_addr, media_addr, sps@, pps@, e1 as int, e2 as int, e3 as int);
    }
    Ok(SignalingRequest { kind, signaling_addr, media_addr, sps, pps })
}

/// One text line per endpoint.
pub open spec fn peer_lines(ps: Seq<Endpoint>) -> Seq<u8>
    decreases ps.len(),
{
    if ps.len() == 0 {
        Seq::empty()
    } else {
        peer_lines(ps.drop_last()) + endpoint_text(ps.last()) + crlf()
    }
}

/// A join response: stream kind, the responder's media endpoint, for video
/// its SPS and PPS, then the signaling endpoints of the other peers that it
/// knows.
#[verifier::opaque]
pub open spec fn response_bytes(
    kind: StreamType,
    media: Endpoint,
    sps: Seq<u8>,
    pps: Seq<u8>,
    peers: Seq<Endpoint>,
) -> Seq<u8> {
    kind_text(kind) + crlf() + endpoint_text(media) + crlf() + codec_lines(kind, sps, pps)
        + peer_lines(peers) + crlf()
}

/// The response of `k`, `m`, `x`, `y`, `ps` is `s`.
pub open spec fn is_response(
    s: Seq<u8>,
    k: StreamType,
    m: Endpoint,
    x: Seq<u8>,
    y: Seq<u8>,
    ps: Seq<Endpoint>,
) -> bool {
    codec_ok(k, x, y) && s == response_bytes(k, m, x, y, ps)
}

/// A join response, as read off the wire.
pub struct SignalingResponse {
    pub kind: StreamType,
    pub media_addr: Endpoint,
    pub sps: Vec<u8>,
    pub pps: Vec<u8>,
    pub peers: Vec<Endpoint>,
}

proof fn lemma_peer_lines_prefix(ps: Seq<Endpoint>, j: int)
    requires
        0 <= j <= ps.len(),
    ensures
        peer_lines(ps) == peer_lines(ps.take(j)) + peer_lines(ps).skip(
            peer_lines(ps.take(j)).len() as int,
        ),
        peer_lines(ps.take(j)).len() <= peer_lines(ps).len(),
    decreases ps.len(),
{
    if j < ps.len() {
        lemma_peer_lines_prefix(ps.drop_last(), j);
        assert(ps.drop_last().take(j) =~= ps.take(j));
    } else {
        assert(ps.take(j) =~= ps);
    }
    assert(peer_lines(ps) =~= peer_lines(ps.take(j)) + peer_lines(ps).skip(
        peer_lines(ps.take(j)).len() as int,
    ));
}

/// Where the peer lines of a block stand.
proof fn lemma_peer_lines_at(s: Seq<u8>, base: int, ps: Seq<Endpoint>, post: Seq<u8>, k: int)
    requires
        s == s.take(base) + peer_lines(ps) + post,
        0 <= base <= s.len(),
        0 <= k < ps.len(),
    ensures
        endpoint_line_at(s, base + peer_lines(ps.take(k)).len(), ps[k]),
        base + peer_lines(ps.take(k + 1)).len() == base + peer_lines(ps.take(k)).len()
            + endpoint_text(ps[k]).len() + 2,
{
    lemma_peer_lines_prefix(ps, k + 1);
    let t = ps.take(k + 1);
    assert(t.drop_last() =~= ps.take(k));
    assert(t.last() == ps[k]);
    lemma_endpoint_text_free(ps[k]);
    let pre = s.take(base) + peer_lines(ps.take(k));
    let rest = peer_lines(ps).skip(peer_lines(t).len() as int) + post;
    assert(s =~= pre + endpoint_text(ps[k]) + crlf() + rest);
    lemma_line(s, pre, endpoint_text(ps[k]), rest);
}

/// Where the lines of a response stand.
#[verifier::rlimit(40)]
proof fn lemma_response_lines(
    s: Seq<u8>,
    k: StreamType,
    m: Endpoint,
    x: Seq<u8>,
    y: Seq<u8>,
    ps: Seq<Endpoint>,
)
    requires
        is_response(s, k, m, x, y, ps),
    ensures
        line_at(s, 0, 5),
        s.subrange(0, 5) == kind_text(k),
        endpoint_line_at(s, 7, m),
        ({
            let e2: int = 7 + endpoint_text(m).len() as int;
            let base: int = e2 + 2 + codec_lines(k, x, y).len() as int;
            &&& k == StreamType::Video ==> {
                &&& codec_line_at(s, e2 + 2, x)
                &&& codec_line_at(s, e2 + 4 + x.len(), y)
                &&& base == e2 + 6 + x.len() + y.len()
            }
            &&& k == StreamType::Audio ==> base == e2 + 2
            &&& s.len() == base + peer_lines(ps).len() + 2
            &&& s == s.take(base) + peer_lines(ps) + crlf()
            &&& s[base + peer_lines(ps).len()] == 13u8
            &&& s[base + peer_lines(ps).len() + 1] == 10u8
        }),
{
    reveal(response_bytes);
    let kt = kind_text(k);
    let mt = endpoint_text(m);
    let c = codec_lines(k, x, y);
    let pl = peer_lines(ps);
    lemma_kind_text_free(k);
    lemma_endpoint_text_free(m);
    assert(s =~= Seq::empty() + kt + crlf() + (mt + crlf() + c + pl + crlf()));
    lemma_line(s, Seq::empty(), kt, mt + crlf() + c + pl + crlf());
    assert(s =~= (kt + crlf()) + mt + crlf() + (c + pl + crlf()));
    lemma_line(s, kt + crlf(), mt, c + pl + crlf());
    let pre = kt + crlf() + mt + crlf();
    if k == StreamType::Video {
        assert(s =~= pre + x + crlf() + (y + crlf() + pl + crlf()));
        lemma_line(s, pre, x, y + crlf() + pl + crlf());
        assert(s =~= (pre + x + crlf()) + y + crlf() + (pl + crlf()));
        lemma_line(s, pre + x + crlf(), y, pl + crlf());
    }
    let base = pre.len() + c.len();
    assert(s.take(base as int) =~= pre + c);
    assert(s =~= s.take(base as int) + pl + crlf());
}

proof fn lemma_response_assembled(
    s: Seq<u8>,
    k: StreamType,
    m: Endpoint,
    x: Seq<u8>,
    y: Seq<u8>,
    ps: Seq<Endpoint>,
    e2: int,
    base: int,
)
    requires
        line_at(s, 0, 5),
        s.subrange(0, 5) == kind_text(k),
        endpoint_line_at(s, 7, m),
        e2 == 7 + endpoint_text(m).len(),
        k == StreamType::Video ==> {
            &&& codec_line_at(s, e2 + 2, x)
            &&& codec_line_at(s, e2 + 4 + x.len(), y)
            &&& base == e2 + 6 + x.len() + y.len()
        },
        k == StreamType::Audio ==> x.len() == 0 && y.len() == 0 && base == e2 + 2,
        base <= s.len(),
        s.subrange(base, s.len() as int) == peer_lines(ps) + crlf(),
    ensures
        is_response(s, k, m, x, y, ps),
{
    reveal(response_bytes);
    if k == StreamType::Video {
        assert(s =~= s.subrange(0, 5) + crlf() + s.subrange(7, e2) + crlf() + (x + crlf() + y
            + crlf()) + s.subrange(base, s.len() as int));
    } else {
        assert(s =~= s.subrange(0, 5) + crlf() + s.subrange(7, e2) + crlf() + Seq::<u8>::empty()
            + s.subrange(base, s.len() as int));
    }
    assert(s =~= response_bytes(k, m, x, y, ps));
}

/// Writes a join response. For video, SPS and PPS must each be a non-empty
/// line without CR or LF, else the response is refused as invalid data; for
/// audio they are not sent.
pub fn build_response(
    kind: StreamType,
    media: &Endpoint,
    sps: &[u8],
    pps: &[u8],
    peers: &[Endpoint],
) -> (r: Result<Vec<u8>, ErrorKind>)
    ensures
        match r {
            Ok(b) => {
                &&& kind == StreamType::Video ==> codec_line_ok(sps@) && codec_line_ok(pps@)
                &&& b@ == response_bytes(kind, *media, sps@, pps@, peers@)
            },
            Err(e) => {
                &&& e == ErrorKind::InvalidData
                &&& kind == StreamType::Video
                &&& !(codec_line_ok(sps@) && codec_line_ok(pps@))
            },
        },
{
    if kind == StreamType::Video && !(is_codec_line(sps) && is_codec_line(pps)) {
        return Err(ErrorKind::InvalidData);
    }
    let mut out: Vec<u8> = Vec::new();
    push_kind(&mut out, kind);
    push_crlf(&mut out);
    let mt = endpoint_to_text(media);
    append_bytes(&mut out, mt.as_slice());
    push_crlf(&mut out);
    let ghost pre = out@;
    if kind == StreamType::Video {
        append_bytes(&mut out, sps);
        push_crlf(&mut out);
        append_bytes(&mut out, pps);
        push_crlf(&mut out);
    }
    assert(out@ =~= pre + codec_lines(kind, sps@, pps@));
    let ghost head = out@;
    let mut i: usize = 0;
    while i < peers.len()
        invariant
            i <= peers@.len(),
            out@ == head + peer_lines(peers@.take(i as int)),
        decreases peers@.len() - i,
    {
        let t = endpoint_to_text(&peers[i]);
        append_bytes(&mut out, t.as_slice());
        push_crlf(&mut out);
        proof {
            let ps = peers@.take(i as int + 1);
            assert(ps.drop_last() =~= peers@.take(i as int));
            assert(out@ =~= head + peer_lines(ps));
        }
        i = i + 1;
    }
    assert(peers@.take(i as int) =~= peers@);
    push_crlf(&mut out);
    reveal(response_bytes);
    assert(out@ =~= response_bytes(kind, *media, sps@, pps@, peers@));
    Ok(out)
}

/// The peer lines `ps` and the closing empty line fill `s` from `base` on.
pub open spec fn peers_tail(s: Seq<u8>, base: int, ps: Seq<Endpoint>) -> bool {
    0 <= base <= s.len() && s.subrange(base, s.len() as int) == peer_lines(ps) + crlf()
}

proof fn lemma_tail_split(s: Seq<u8>, base: int, ps: Seq<Endpoint>)
    requires
        peers_tail(s, base, ps),
    ensures
        s == s.take(base) + peer_lines(ps) + crlf(),
{
    let t = s.subrange(base, s.len() as int);
    assert(s =~= s.take(base) + t);
    assert(s.take(base) + t =~= s.take(base) + peer_lines(ps) + crlf());
}

/// Reads endpoint lines from `base` up to the closing empty line, which must
/// end `s`.
fn read_peer_lines(s: &[u8], base: usize) -> (r: Option<Vec<Endpoint>>)
    requires
        base <= s@.len(),
    ensures
        match r {
            Some(ps) => peers_tail(s@, base as int, ps@),
            None => forall|ps: Seq<Endpoint>| !#[trigger] peers_tail(s@, base as int, ps),
        },
{
    let len = s.len();
    let mut pos = base;
    let mut peers: Vec<Endpoint> = Vec::new();
    assert(peers@.take(0) =~= peers@);
    while pos >= len || s[pos] != 13u8
        invariant
            base <= pos <= len == s@.len(),
            forall|ps: Seq<Endpoint>|
                #[trigger] peers_tail(s@, base as int, ps) ==> {
                    &&& peers@.len() <= ps.len()
                    &&& peers@ == ps.take(peers@.len() as int)
                    &&& pos == base + peer_lines(ps.take(peers@.len() as int)).len()
                },
            s@.subrange(base as int, pos as int) == peer_lines(peers@),
        decreases len - pos,
    {
        if pos >= len {
            proof {
                assert forall|ps: Seq<Endpoint>| !#[trigger] peers_tail(s@, base as int, ps) by {
                    if peers_tail(s@, base as int, ps) {
                        lemma_peer_lines_prefix(ps, peers@.len() as int);
                    }
                }
            }
            return None;
        }
        let (p, end) = match read_endpoint_line(s, pos) {
            Some(x) => x,
            None => {
                proof {
                    assert forall|ps: Seq<Endpoint>| !#[trigger] peers_tail(s@, base as int, ps) by {
                        if peers_tail(s@, base as int, ps) {
                            lemma_tail_split(s@, base as int, ps);
                            let i = peers@.len() as int;
                            if i < ps.len() {
                                lemma_peer_lines_at(s@, base as int, ps, crlf(), i);
                            } else {
                                assert(ps.take(i) =~= ps);
                            }
                        }
                    }
                }
                return None;
            },
        };
        proof {
            let i = peers@.len() as int;
            let np = peers@.push(p);
            assert forall|ps: Seq<Endpoint>| #[trigger] peers_tail(s@, base as int, ps) implies {
                &&& np.len() <= ps.len()
                &&& np == ps.take(np.len() as int)
                &&& end + 2 == base + peer_lines(ps.take(np.len() as int)).len()
            } by {
                lemma_tail_split(s@, base as int, ps);
                if i < ps.len() {
                    lemma_peer_lines_at(s@, base as int, ps, crlf(), i);
                    assert(np =~= ps.take(i + 1));
                } else {
                    assert(ps.take(i) =~= ps);
                    assert(s@[pos as int] == 13u8);
                }
            }
            assert(np.drop_last() =~= peers@);
            assert(s@.subrange(base as int, end + 2) =~= peer_lines(peers@) + endpoint_text(p)
                + crlf());
        }
        peers.push(p);
        pos = end + 2;
    }
    if !(len - pos == 2 && s[pos + 1] == 10u8) {
        proof {
            assert forall|ps: Seq<Endpoint>| !#[trigger] peers_tail(s@, base as int, ps) by {
                if peers_tail(s@, base as int, ps) {
                    lemma_tail_split(s@, base as int, ps);
                    let i = peers@.len() as int;
                    if i < ps.len() {
                        lemma_peer_lines_at(s@, base as int, ps, crlf(), i);
                        lemma_endpoint_text_free(ps[i]);
                        crate::endpoint::lemma_digits_of(octet(ps[i].ip, 0));
                        assert(s@[pos as int] == endpoint_text(ps[i])[0]);
                    } else {
                        assert(ps.take(i) =~= ps);
                        lemma_peer_lines_prefix(ps, i);
                    }
                }
            }
        }
        return None;
    }
    assert(s@.subrange(base as int, len as int) =~= peer_lines(peers@) + crlf());
    Some(peers)
}

#[verifier::rlimit(40)]
proof fn lemma_peers_prefix_equal(s: Seq<u8>, base: int, ps1: Seq<Endpoint>, ps2: Seq<Endpoint>, i: int)
    requires
        peers_tail(s, base, ps1),
        peers_tail(s, base, ps2),
        0 <= i <= ps1.len(),
        i <= ps2.len(),
    ensures
        ps1.take(i) == ps2.take(i),
    decreases i,
{
    if i > 0 {
        lemma_peers_prefix_equal(s, base, ps1, ps2, i - 1);
        lemma_tail_split(s, base, ps1);
        lemma_tail_split(s, base, ps2);
        lemma_peer_lines_at(s, base, ps1, crlf(), i - 1);
        lemma_peer_lines_at(s, base, ps2, crlf(), i - 1);
        let pos = base + peer_lines(ps1.take(i - 1)).len();
        lemma_line_unique(s, pos, pos + endpoint_text(ps1[i - 1]).len(), pos + endpoint_text(ps2[i - 1]).len());
        crate::endpoint::lemma_text_injective(ps1[i - 1], ps2[i - 1]);
        assert(ps1.take(i) =~= ps1.take(i - 1).push(ps1[i - 1]));
        assert(ps2.take(i) =~= ps2.take(i - 1).push(ps2[i - 1]));
    }
}

/// The peer lines of a block have one reading only.
#[verifier::rlimit(40)]
proof fn lemma_peers_tail_unique(s: Seq<u8>, base: int, ps1: Seq<Endpoint>, ps2: Seq<Endpoint>)
    requires
        peers_tail(s, base, ps1),
        peers_tail(s, base, ps2),
    ensures
        ps1 == ps2,
{
    let n = if ps1.len() <= ps2.len() { ps1.len() as int } else { ps2.len() as int };
    lemma_peers_prefix_equal(s, base, ps1, ps2, n);
    lemma_tail_split(s, base, ps1);
    lemma_tail_split(s, base, ps2);
    if ps1.len() < ps2.len() {
        assert(ps1.take(n) =~= ps1);
        lemma_peer_lines_at(s, base, ps2, crlf(), n);
        lemma_endpoint_text_free(ps2[n]);
        crate::endpoint::lemma_digits_of(octet(ps2[n].ip, 0));
        let pos = base + peer_lines(ps1).len();
        assert(s.subrange(base, s.len() as int)[peer_lines(ps1).len() as int] == 13u8);
        assert(s[pos] == endpoint_text(ps2[n])[0]);
    } else if ps2.len() < ps1.len() {
        assert(ps2.take(n) =~= ps2);
        lemma_peer_lines_at(s, base, ps1, crlf(), n);
        lemma_endpoint_text_free(ps1[n]);
        crate::endpoint::lemma_digits_of(octet(ps1[n].ip, 0));
        let pos = base + peer_lines(ps2).len();
        assert(s.subrange(base, s.len() as int)[peer_lines(ps2).len() as int] == 13u8);
        assert(s[pos] == endpoint_text(ps1[n])[0]);
    } else {
        assert(ps1.take(n) =~= ps1);
        assert(ps2.take(n) =~= ps2);
    }
}

/// A response has one reading only.
#[verifier::rlimit(40)]
pub proof fn lemma_response_unique(
    s: Seq<u8>,
    k1: StreamType,
    m1: Endpoint,
    x1: Seq<u8>,
    y1: Seq<u8>,
    ps1: Seq<Endpoint>,
    k2: StreamType,
    m2: Endpoint,
    x2: Seq<u8>,
    y2: Seq<u8>,
    ps2: Seq<Endpoint>,
)
    requires
        is_response(s, k1, m1, x1, y1, ps1),
        is_response(s, k2, m2, x2, y2, ps2),
    ensures
        k1 == k2 && m1 == m2 && x1 == x2 && y1 == y2 && ps1 == ps2,
{
    lemma_response_lines(s, k1, m1, x1, y1, ps1);
    lemma_response_lines(s, k2, m2, x2, y2, ps2);
    if k1 != k2 {
        assert(kind_text(k1)[0] != kind_text(k2)[0]);
    }
    lemma_line_unique(s, 7, 7 + endpoint_text(m1).len() as int, 7 + endpoint_text(m2).len() as int);
    crate::endpoint::lemma_text_injective(m1, m2);
    let e2 = 7 + endpoint_text(m1).len() as int;
    if k1 == StreamType::Video {
        lemma_line_unique(s, e2 + 2, e2 + 2 + x1.len() as int, e2 + 2 + x2.len() as int);
        let q = e2 + 4 + x1.len() as int;
        lemma_line_unique(s, q, q + y1.len() as int, q + y2.len() as int);
    }
    let base = e2 + 2 + codec_lines(k1, x1, y1).len() as int;
    assert(s.subrange(base, s.len() as int) =~= peer_lines(ps1) + crlf());
    assert(s.subrange(base, s.len() as int) =~= peer_lines(ps2) + crlf());
    lemma_peers_tail_unique(s, base, ps1, ps2);
}

/// Reads a join response: `Ok` exactly when `s` is the response of some
/// kind, media endpoint, acceptable codec configuration and list of peers,
/// which it returns; anything else is invalid data.
#[verifier::rlimit(40)]
pub fn parse_response(s: &[u8]) -> (r: Result<SignalingResponse, ErrorKind>)
    ensures
        match r {
            Ok(q) => is_response(s@, q.kind, q.media_addr, q.sps@, q.pps@, q.peers@),
            Err(e) => {
                &&& e == ErrorKind::InvalidData
                &&& forall|k: StreamType, m: Endpoint, x: Seq<u8>, y: Seq<u8>, ps: Seq<Endpoint>|
                    !#[trigger] is_response(s@, k, m, x, y, ps)
            },
        },
{
    let len = s.len();
    let (kind, e1) = match read_kind_line(s) {
        Some(x) => x,
        None => {
            proof {
                assert forall|k: StreamType, m: Endpoint, x: Seq<u8>, y: Seq<u8>, ps: Seq<Endpoint>|
                    !#[trigger] is_response(s@, k, m, x, y, ps) by {
                    if is_response(s@, k, m, x, y, ps) {
                        lemma_response_lines(s@, k, m, x, y, ps);
                    }
                }
            }
            return Err(ErrorKind::InvalidData);
        },
    };
    let (media_addr, e2) = match read_endpoint_line(s, e1 + 2) {
        Some(x) => x,
        None => {
            proof {
                assert forall|k: StreamType, m: Endpoint, x: Seq<u8>, y: Seq<u8>, ps: Seq<Endpoint>|
                    !#[trigger] is_response(s@, k, m, x, y, ps) by {
                    if is_response(s@, k, m, x, y, ps) {
                        lemma_response_lines(s@, k, m, x, y, ps);
                        lemma_line_unique(s@, 0, e1 as int, 5);
                    }
                }
            }
            return Err(ErrorKind::InvalidData);
        },
    };
    let mut sps: Vec<u8> = Vec::new();
    let mut pps: Vec<u8> = Vec::new();
    let mut pos = e2 + 2;
    if kind == StreamType::Video {
        let e3 = match read_codec_line(s, e2 + 2) {
            Some(e) => e,
            None => {
                proof {
                    assert forall|k: StreamType, m: Endpoint, x: Seq<u8>, y: Seq<u8>, ps: Seq<
                        Endpoint,
                    >| !#[trigger] is_response(s@, k, m, x, y, ps) by {
                        if is_response(s@, k, m, x, y, ps) {
                            lemma_response_lines(s@, k, m, x, y, ps);
                            if k != kind {
                                assert(kind_text(k)[0] != kind_text(kind)[0]);
                            }
                        }
                    }
                }
                return Err(ErrorKind::InvalidData);
            },
        };
        let e4 = match read_codec_line(s, e3 + 2) {
            Some(e) => e,
            None => {
                proof {
                    assert forall|k: StreamType, m: Endpoint, x: Seq<u8>, y: Seq<u8>, ps: Seq<
                        Endpoint,
                    >| !#[trigger] is_response(s@, k, m, x, y, ps) by {
                        if is_response(s@, k, m, x, y, ps) {
                            lemma_response_lines(s@, k, m, x, y, ps);
                            if k != kind {
                                assert(kind_text(k)[0] != kind_text(kind)[0]);
                            }
                        }
                    }
                }
                return Err(ErrorKind::InvalidData);
            },
        };
        sps = vstd::slice::slice_to_vec(&s[e2 + 2..e3]);
        pps = vstd::slice::slice_to_vec(&s[e3 + 2..e4]);
        pos = e4 + 2;
    }
    let base = pos;
    let peers = match read_peer_lines(s, base) {
        Some(ps) => ps,
        None => {
            proof {
                assert forall|k: StreamType, m: Endpoint, x: Seq<u8>, y: Seq<u8>, ps: Seq<Endpoint>|
                    !#[trigger] is_response(s@, k, m, x, y, ps) by {
                    if is_response(s@, k, m, x, y, ps) {
                        lemma_response_lines(s@, k, m, x, y, ps);
                        if k != kind {
                            assert(kind_text(k)[0] != kind_text(kind)[0]);
                        }
                        assert(m == media_addr);
                        assert(k == StreamType::Video ==> x == sps@ && y == pps@);
                        assert(s@.subrange(base as int, s@.len() as int) =~= peer_lines(ps) + crlf());
                        assert(peers_tail(s@, base as int, ps));
                    }
                }
            }
            return Err(ErrorKind::InvalidData);
        },
    };
    proof {
        lemma_response_assembled(s@, kind, media_addr, sps@, pps@, peers@, e2 as int, base as int);
    }
    Ok(SignalingResponse { kind, media_addr, sps, pps, peers })
}

} // verus!
