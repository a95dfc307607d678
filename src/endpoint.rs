//! IPv4 endpoints (address and port) and their text form `a.b.c.d:port`,
//! written in decimal without leading zeros.

use vstd::prelude::*;

verus! {

/// An IPv4 address and a port. `ip` holds the four octets, first octet in
/// the high byte.
#[derive(Clone, Copy, Debug, PartialEq, Eq, Hash, Structural)]
pub struct Endpoint {
    pub ip: u32,
    pub port: u16,
}

/// An ASCII decimal digit.
pub open spec fn is_digit(b: u8) -> bool {
    48 <= b <= 57
}

/// Decimal digits of `n`, most significant first, without leading zeros.
pub open spec fn dec(n: nat) -> Seq<u8>
    decreases n,
{
    if n < 10 {
        seq![(48 + n) as u8]
    } else {
        dec(n / 10).push((48 + n % 10) as u8)
    }
}

/// The value of a run of decimal digits.
pub open spec fn digits_value(t: Seq<u8>) -> nat
    decreases t.len(),
{
    if t.len() == 0 {
        0
    } else {
        digits_value(t.drop_last()) * 10 + (t.last() - 48) as nat
    }
}

/// Every byte of `t` is a decimal digit.
pub open spec fn all_digits(t: Seq<u8>) -> bool {
    forall|k: int| 0 <= k < t.len() ==> is_digit(#[trigger] t[k])
}

/// `t` stands in `s` at `i`, and no digit follows it.
pub open spec fn run_at(s: Seq<u8>, i: int, t: Seq<u8>) -> bool {
    &&& 0 <= i
    &&& i + t.len() <= s.len()
    &&& s.subrange(i, i + t.len()) == t
    &&& (i + t.len() == s.len() || !is_digit(s[i + t.len()]))
}

/// The `k`-th octet of an address, `k` counted from the first.
pub open spec fn octet(ip: u32, k: int) -> nat {
    if k == 0 {
        ((ip >> 24u32) & 0xffu32) as nat
    } else if k == 1 {
        ((ip >> 16u32) & 0xffu32) as nat
    } else if k == 2 {
        ((ip >> 8u32) & 0xffu32) as nat
    } else {
        (ip & 0xffu32) as nat
    }
}

/// The separator between octets.
pub open spec fn dot() -> Seq<u8> {
    seq![46u8]
}

/// The separator before the port.
pub open spec fn colon() -> Seq<u8> {
    seq![58u8]
}

/// The text form of an endpoint.
pub open spec fn endpoint_text(e: Endpoint) -> Seq<u8> {
    dec(octet(e.ip, 0)) + dot() + dec(octet(e.ip, 1)) + dot() + dec(octet(e.ip, 2)) + dot() + dec(
        octet(e.ip, 3),
    ) + colon() + dec(e.port as nat)
}

/// An integer key that identifies an endpoint.
pub open spec fn endpoint_key(e: Endpoint) -> u64 {
    ((e.ip as u64) << 16u64) | (e.port as u64)
}

proof fn lemma_dec(n: nat)
    ensures
        dec(n).len() >= 1,
        all_digits(dec(n)),
        digits_value(dec(n)) == n,
        dec(n)[0] == 48u8 ==> n == 0,
        n == 0 ==> dec(n) == seq![48u8],
    decreases n,
{
    if n >= 10 {
        lemma_dec(n / 10);
        let p = dec(n / 10);
        let t = dec(n);
        assert(t.drop_last() =~= p);
        assert(t[0] == p[0]);
        assert((n / 10) * 10 + n % 10 == n) by (nonlinear_arith);
        assert(digits_value(t) == digits_value(p) * 10 + (t.last() - 48) as nat);
        assert(t.last() == (48 + n % 10) as u8);
        assert(digits_value(p) == n / 10);
        assert(digits_value(t) == (n / 10) * 10 + n % 10);
        assert forall|k: int| 0 <= k < t.len() implies is_digit(#[trigger] t[k]) by {
            if k < p.len() {
                assert(t[k] == p[k]);
            }
        }
    } else {
        assert(dec(n).drop_last() =~= Seq::<u8>::empty());
        assert(digits_value(Seq::<u8>::empty()) == 0);
        assert(digits_value(dec(n)) == digits_value(dec(n).drop_last()) * 10 + (dec(n).last() - 48) as nat);
    }
}

/// The decimal text of a number is digits only.
pub proof fn lemma_digits_of(n: nat)
    ensures
        all_digits(dec(n)),
        dec(n).len() >= 1,
{
    lemma_dec(n);
}

proof fn lemma_digits_canonical(t: Seq<u8>)
    requires
        t.len() >= 1,
        all_digits(t),
        t[0] == 48u8 ==> t.len() == 1,
    ensures
        dec(digits_value(t)) == t,
        t[0] != 48u8 ==> digits_value(t) >= 1,
    decreases t.len(),
{
    if t.len() == 1 {
        assert(t.drop_last() =~= Seq::<u8>::empty());
        assert(is_digit(t[0]));
        assert(digits_value(Seq::<u8>::empty()) == 0);
        assert(digits_value(t) == (t[0] - 48) as nat);
        assert(dec(digits_value(t)) =~= t);
    } else {
        let p = t.drop_last();
        assert(p[0] == t[0]);
        assert(is_digit(t[t.len() - 1]));
        assert forall|k: int| 0 <= k < p.len() implies is_digit(#[trigger] p[k]) by {
            assert(p[k] == t[k]);
        }
        lemma_digits_canonical(p);
        let v = digits_value(t);
        let d = (t.last() - 48) as nat;
        assert(v == digits_value(p) * 10 + d);
        assert(v / 10 == digits_value(p) && v % 10 == d) by (nonlinear_arith)
            requires
                v == digits_value(p) * 10 + d,
                d < 10,
        ;
        assert(dec(v) == dec(v / 10).push((48 + v % 10) as u8));
        assert(dec(v) =~= t);
    }
}

proof fn lemma_digits_prefix(t: Seq<u8>, k: int)
    requires
        0 <= k <= t.len(),
        all_digits(t),
    ensures
        digits_value(t.take(k)) <= digits_value(t),
    decreases t.len(),
{
    if k < t.len() {
        let p = t.drop_last();
        assert forall|j: int| 0 <= j < p.len() implies is_digit(#[trigger] p[j]) by {
            assert(p[j] == t[j]);
        }
        lemma_digits_prefix(p, k);
        assert(p.take(k) =~= t.take(k));
        assert(is_digit(t[t.len() - 1]));
    } else {
        assert(t.take(k) =~= t);
    }
}

proof fn lemma_run_unique(s: Seq<u8>, i: int, t1: Seq<u8>, t2: Seq<u8>)
    requires
        run_at(s, i, t1),
        run_at(s, i, t2),
        all_digits(t1),
        all_digits(t2),
    ensures
        t1 == t2,
{
    if t1.len() < t2.len() {
        assert(s[i + t1.len()] == t2[t1.len() as int]);
    } else if t2.len() < t1.len() {
        assert(s[i + t2.len()] == t1[t2.len() as int]);
    }
}

/// Writes the decimal digits of `n`.
fn write_decimal(out: &mut Vec<u8>, n: u32)
    ensures
        final(out)@ == old(out)@ + dec(n as nat),
    decreases n,
{
    if n >= 10 {
        write_decimal(out, n / 10);
    }
    out.push(48u8 + (n % 10) as u8);
    assert(out@ =~= old(out)@ + dec(n as nat));
}

/// Reads the decimal number that starts at `start` and runs to the first
/// non-digit; `None` unless it is written without leading zeros and is at
/// most `max`.
fn read_decimal(s: &[u8], start: usize, max: u32) -> (r: Option<(u32, usize)>)
    requires
        max <= 65535,
    ensures
        match r {
            Some((v, end)) => {
                &&& start < end <= s@.len()
                &&& v <= max
                &&& run_at(s@, start as int, dec(v as nat))
                &&& end == start + dec(v as nat).len()
            },
            None => forall|n: nat| n <= max ==> !run_at(s@, start as int, #[trigger] dec(n)),
        },
{
    let len = s.len();
    if start >= len || !(48u8 <= s[start] && s[start] <= 57u8) {
        proof {
            assert forall|n: nat| n <= max implies !run_at(s@, start as int, #[trigger] dec(n)) by {
                lemma_dec(n);
                if run_at(s@, start as int, dec(n)) {
                    assert(s@[start as int] == dec(n)[0]);
                }
            }
        }
        return None;
    }
    if s[start] == 48u8 {
        if start + 1 < len && 48u8 <= s[start + 1] && s[start + 1] <= 57u8 {
            proof {
                assert forall|n: nat| n <= max implies !run_at(s@, start as int, #[trigger] dec(n))
                    by {
                    lemma_dec(n);
                    if run_at(s@, start as int, dec(n)) {
                        assert(s@[start as int] == dec(n)[0]);
                        assert(dec(n).len() == 1);
                    }
                }
            }
            return None;
        }
        proof {
            lemma_dec(0);
            assert(s@.subrange(start as int, start + 1) =~= dec(0));
        }
        return Some((0, start + 1));
    }
    let mut i: usize = start;
    let mut v: u32 = 0;
    while i < len && 48u8 <= s[i] && s[i] <= 57u8
        invariant
            start < len == s@.len(),
            start <= i <= len,
            s@[start as int] != 48u8,
            is_digit(s@[start as int]),
            all_digits(s@.subrange(start as int, i as int)),
            v == digits_value(s@.subrange(start as int, i as int)),
            v <= max <= 65535,
        ensures
            i > start,
            all_digits(s@.subrange(start as int, i as int)),
            v == digits_value(s@.subrange(start as int, i as int)),
            v <= max,
            i == len || !is_digit(s@[i as int]),
        decreases len - i,
    {
        let d = (s[i] - 48u8) as u32;
        let ghost t = s@.subrange(start as int, i as int + 1);
        proof {
            assert(t.drop_last() =~= s@.subrange(start as int, i as int));
            assert forall|k: int| 0 <= k < t.len() implies is_digit(#[trigger] t[k]) by {
                if k < t.len() - 1 {
                    assert(t[k] == s@.subrange(start as int, i as int)[k]);
                }
            }
        }
        if v * 10 + d > max {
            proof {
                assert forall|n: nat| n <= max implies !run_at(
                    s@,
                    start as int,
                    #[trigger] dec(n),
                ) by {
                    lemma_dec(n);
                    if run_at(s@, start as int, dec(n)) {
                        let m = dec(n).len() as int;
                        if m <= i - start {
                            assert(s@[start + m] == t[m]);
                        } else {
                            assert(dec(n).take(t.len() as int) =~= t);
                            lemma_digits_prefix(dec(n), t.len() as int);
                        }
                    }
                }
            }
            return None;
        }
        v = v * 10 + d;
        i = i + 1;
    }
    proof {
        let t = s@.subrange(start as int, i as int);
        assert(t[0] == s@[start as int]);
        lemma_digits_canonical(t);
    }
    Some((v, i))
}

/// The text form of an endpoint, `a.b.c.d:port`.
pub fn endpoint_to_text(e: &Endpoint) -> (r: Vec<u8>)
    ensures
        r@ == endpoint_text(*e),
{
    let mut out: Vec<u8> = Vec::new();
    write_decimal(&mut out, (e.ip >> 24u32) & 0xffu32);
    out.push(46u8);
    write_decimal(&mut out, (e.ip >> 16u32) & 0xffu32);
    out.push(46u8);
    write_decimal(&mut out, (e.ip >> 8u32) & 0xffu32);
    out.push(46u8);
    write_decimal(&mut out, e.ip & 0xffu32);
    out.push(58u8);
    write_decimal(&mut out, e.port as u32);
    assert(out@ =~= endpoint_text(*e));
    out
}

/// Where the parts of an endpoint's text stand.
proof fn lemma_text_layout(e: Endpoint)
    ensures
        ({
            let s = endpoint_text(e);
            let a = dec(octet(e.ip, 0));
            let b = dec(octet(e.ip, 1));
            let c = dec(octet(e.ip, 2));
            let d = dec(octet(e.ip, 3));
            let p = dec(e.port as nat);
            let p1 = a.len() as int;
            let p2 = p1 + 1 + b.len();
            let p3 = p2 + 1 + c.len();
            let p4 = p3 + 1 + d.len();
            &&& run_at(s, 0, a)
            &&& s[p1] == 46u8
            &&& run_at(s, p1 + 1, b)
            &&& s[p2] == 46u8
            &&& run_at(s, p2 + 1, c)
            &&& s[p3] == 46u8
            &&& run_at(s, p3 + 1, d)
            &&& s[p4] == 58u8
            &&& run_at(s, p4 + 1, p)
            &&& p4 + 1 + p.len() == s.len()
        }),
{
    let s = endpoint_text(e);
    let a = dec(octet(e.ip, 0));
    let b = dec(octet(e.ip, 1));
    let c = dec(octet(e.ip, 2));
    let d = dec(octet(e.ip, 3));
    let p = dec(e.port as nat);
    let p1 = a.len() as int;
    let p2 = p1 + 1 + b.len();
    let p3 = p2 + 1 + c.len();
    let p4 = p3 + 1 + d.len();
    assert(s.len() == p4 + 1 + p.len());
    assert(s.subrange(0, p1) =~= a);
    assert(s.subrange(p1 + 1, p2) =~= b);
    assert(s.subrange(p2 + 1, p3) =~= c);
    assert(s.subrange(p3 + 1, p4) =~= d);
    assert(s.subrange(p4 + 1, s.len() as int) =~= p);
    assert(s[p1] == 46u8);
    assert(s[p2] == 46u8);
    assert(s[p3] == 46u8);
    assert(s[p4] == 58u8);
}

proof fn lemma_octets(a: u32, b: u32, c: u32, d: u32)
    requires
        a <= 255,
        b <= 255,
        c <= 255,
        d <= 255,
    ensures
        ({
            let ip = (a << 24u32) | (b << 16u32) | (c << 8u32) | d;
            &&& octet(ip, 0) == a
            &&& octet(ip, 1) == b
            &&& octet(ip, 2) == c
            &&& octet(ip, 3) == d
        }),
{
    let ip = (a << 24u32) | (b << 16u32) | (c << 8u32) | d;
    assert((ip >> 24u32) & 0xffu32 == a && (ip >> 16u32) & 0xffu32 == b && (ip >> 8u32) & 0xffu32
        == c && ip & 0xffu32 == d) by (bit_vector)
        requires
            a <= 255,
            b <= 255,
            c <= 255,
            d <= 255,
            ip == (a << 24u32) | (b << 16u32) | (c << 8u32) | d,
    ;
}

proof fn lemma_octets_of(ip: u32)
    ensures
        octet(ip, 0) <= 255,
        octet(ip, 1) <= 255,
        octet(ip, 2) <= 255,
        octet(ip, 3) <= 255,
        ((octet(ip, 0) as u32) << 24u32) | ((octet(ip, 1) as u32) << 16u32) | ((octet(ip, 2) as u32)
            << 8u32) | (octet(ip, 3) as u32) == ip,
{
    let a = (ip >> 24u32) & 0xffu32;
    let b = (ip >> 16u32) & 0xffu32;
    let c = (ip >> 8u32) & 0xffu32;
    let d = ip & 0xffu32;
    assert(a <= 255 && b <= 255 && c <= 255 && d <= 255 && (a << 24u32) | (b << 16u32) | (c
        << 8u32) | d == ip) by (bit_vector)
        requires
            a == (ip >> 24u32) & 0xffu32,
            b == (ip >> 16u32) & 0xffu32,
            c == (ip >> 8u32) & 0xffu32,
            d == ip & 0xffu32,
    ;
}

/// A field read at `pos` of the text of `e` is the field that the text holds there.
proof fn lemma_same_field(s: Seq<u8>, pos: int, n: nat, m: nat)
    requires
        run_at(s, pos, dec(n)),
        run_at(s, pos, dec(m)),
    ensures
        n == m,
{
    lemma_dec(n);
    lemma_dec(m);
    lemma_run_unique(s, pos, dec(n), dec(m));
}

/// Reads an endpoint from its text form: `Some(e)` exactly when `s` is the
/// text of `e`.
pub fn parse_endpoint(s: &[u8]) -> (r: Option<Endpoint>)
    ensures
        match r {
            Some(e) => s@ == endpoint_text(e),
            None => forall|e: Endpoint| s@ != #[trigger] endpoint_text(e),
        },
{
    let len = s.len();
    let (a, i1) = match read_decimal(s, 0, 255) {
        Some(x) => x,
        None => {
            proof {
                assert forall|e: Endpoint| s@ != #[trigger] endpoint_text(e) by {
                    lemma_text_layout(e);
                    lemma_octets_of(e.ip);
                }
            }
            return None;
        },
    };
    proof {
        assert forall|e: Endpoint| s@ == #[trigger] endpoint_text(e) implies octet(e.ip, 0) == a
            by {
            lemma_text_layout(e);
            lemma_same_field(s@, 0, a as nat, octet(e.ip, 0));
        }
    }
    if i1 >= len || s[i1] != 46u8 {
        proof {
            assert forall|e: Endpoint| s@ != #[trigger] endpoint_text(e) by {
                lemma_text_layout(e);
                lemma_dec(a as nat);
            }
        }
        return None;
    }
    let (b, i2) = match read_decimal(s, i1 + 1, 255) {
        Some(x) => x,
        None => {
            proof {
                assert forall|e: Endpoint| s@ != #[trigger] endpoint_text(e) by {
                    lemma_text_layout(e);
                    lemma_octets_of(e.ip);
                }
            }
            return None;
        },
    };
    proof {
        assert forall|e: Endpoint| s@ == #[trigger] endpoint_text(e) implies octet(e.ip, 1) == b
            by {
            lemma_text_layout(e);
            lemma_same_field(s@, i1 + 1, b as nat, octet(e.ip, 1));
        }
    }
    if i2 >= len || s[i2] != 46u8 {
        proof {
            assert forall|e: Endpoint| s@ != #[trigger] endpoint_text(e) by {
                lemma_text_layout(e);
            }
        }
        return None;
    }
    let (c, i3) = match read_decimal(s, i2 + 1, 255) {
        Some(x) => x,
        None => {
            proof {
                assert forall|e: Endpoint| s@ != #[trigger] endpoint_text(e) by {
                    lemma_text_layout(e);
                    lemma_octets_of(e.ip);
                }
            }
            return None;
        },
    };
    proof {
        assert forall|e: Endpoint| s@ == #[trigger] endpoint_text(e) implies octet(e.ip, 2) == c
            by {
            lemma_text_layout(e);
            lemma_same_field(s@, i2 + 1, c as nat, octet(e.ip, 2));
        }
    }
    if i3 >= len || s[i3] != 46u8 {
        proof {
            assert forall|e: Endpoint| s@ != #[trigger] endpoint_text(e) by {
                lemma_text_layout(e);
            }
        }
        return None;
    }
    let (d, i4) = match read_decimal(s, i3 + 1, 255) {
        Some(x) => x,
        None => {
            proof {
                assert forall|e: Endpoint| s@ != #[trigger] endpoint_text(e) by {
                    lemma_text_layout(e);
                    lemma_octets_of(e.ip);
                }
            }
            return None;
        },
    };
    proof {
        assert forall|e: Endpoint| s@ == #[trigger] endpoint_text(e) implies octet(e.ip, 3) == d
            by {
            lemma_text_layout(e);
            lemma_same_field(s@, i3 + 1, d as nat, octet(e.ip, 3));
        }
    }
    if i4 >= len || s[i4] != 58u8 {
        proof {
            assert forall|e: Endpoint| s@ != #[trigger] endpoint_text(e) by {
                lemma_text_layout(e);
            }
        }
        return None;
    }
    let (port, i5) = match read_decimal(s, i4 + 1, 65535) {
        Some(x) => x,
        None => {
            proof {
                assert forall|e: Endpoint| s@ != #[trigger] endpoint_text(e) by {
                    lemma_text_layout(e);
                }
            }
            return None;
        },
    };
    proof {
        assert forall|e: Endpoint| s@ == #[trigger] endpoint_text(e) implies e.port == port by {
            lemma_text_layout(e);
            lemma_same_field(s@, i4 + 1, port as nat, e.port as nat);
        }
    }
    if i5 != len {
        proof {
            assert forall|e: Endpoint| s@ != #[trigger] endpoint_text(e) by {
                lemma_text_layout(e);
            }
        }
        return None;
    }
    let e = Endpoint { ip: (a << 24u32) | (b << 16u32) | (c << 8u32) | d, port: port as u16 };
    proof {
        lemma_octets(a, b, c, d);
        let t = endpoint_text(e);
        assert(s@.subrange(0, i1 as int) == dec(a as nat));
        assert(s@.subrange(i1 + 1, i2 as int) == dec(b as nat));
        assert(s@.subrange(i2 + 1, i3 as int) == dec(c as nat));
        assert(s@.subrange(i3 + 1, i4 as int) == dec(d as nat));
        assert(s@.subrange(i4 + 1, i5 as int) == dec(port as nat));
        assert(s@ =~= s@.subrange(0, i1 as int) + dot() + s@.subrange(i1 + 1, i2 as int) + dot()
            + s@.subrange(i2 + 1, i3 as int) + dot() + s@.subrange(i3 + 1, i4 as int) + colon()
            + s@.subrange(i4 + 1, i5 as int));
    }
    Some(e)
}

/// Distinct endpoints have distinct texts.
pub proof fn lemma_text_injective(e: Endpoint, f: Endpoint)
    requires
        endpoint_text(e) == endpoint_text(f),
    ensures
        e == f,
{
    let s = endpoint_text(e);
    lemma_text_layout(e);
    lemma_text_layout(f);
    lemma_same_field(s, 0, octet(e.ip, 0), octet(f.ip, 0));
    let p1 = dec(octet(e.ip, 0)).len() as int;
    lemma_same_field(s, p1 + 1, octet(e.ip, 1), octet(f.ip, 1));
    let p2 = p1 + 1 + dec(octet(e.ip, 1)).len();
    lemma_same_field(s, p2 + 1, octet(e.ip, 2), octet(f.ip, 2));
    let p3 = p2 + 1 + dec(octet(e.ip, 2)).len();
    lemma_same_field(s, p3 + 1, octet(e.ip, 3), octet(f.ip, 3));
    let p4 = p3 + 1 + dec(octet(e.ip, 3)).len();
    lemma_same_field(s, p4 + 1, e.port as nat, f.port as nat);
    lemma_octets_of(e.ip);
    lemma_octets_of(f.ip);
}

/// The key of an endpoint in integer-keyed sets.
pub fn endpoint_to_key(e: &Endpoint) -> (r: u64)
    ensures
        r == endpoint_key(*e),
{
    ((e.ip as u64) << 16u64) | (e.port as u64)
}

/// The endpoint that a key stands for.
pub fn endpoint_from_key(k: u64) -> (r: Endpoint)
    ensures
        k < 0x1_0000_0000_0000 ==> endpoint_key(r) == k,
{
    let r = Endpoint { ip: (k >> 16u64) as u32, port: (k & 0xffffu64) as u16 };
    assert(k < 0x1_0000_0000_0000 ==> ((((k >> 16u64) as u32) as u64) << 16u64) | (((k
        & 0xffffu64) as u16) as u64) == k) by (bit_vector);
    r
}

/// Distinct endpoints have distinct keys, and every key is below 2^48.
pub proof fn lemma_endpoint_key(e: Endpoint, f: Endpoint)
    ensures
        endpoint_key(e) < 0x1_0000_0000_0000,
        endpoint_key(e) == endpoint_key(f) ==> e == f,
{
    let (ei, ep, fi, fp) = (e.ip, e.port, f.ip, f.port);
    assert(((ei as u64) << 16u64) | (ep as u64) < 0x1_0000_0000_0000 && ((((ei as u64) << 16u64)
        | (ep as u64)) == (((fi as u64) << 16u64) | (fp as u64)) ==> ei == fi && ep == fp))
        by (bit_vector);
}

} // verus!
