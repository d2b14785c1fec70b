use vstd::prelude::*;
use vstd::string::StringExecFns;

use crate::util::{hex_digit_value, is_hex_digit, seq_views, spec_split, split_bytes};

verus! {

/// An ASCII decimal digit.
pub open spec fn is_digit(c: u8) -> bool {
    48 <= c && c <= 57
}

/// Every byte of the string is a decimal digit.
pub open spec fn all_digits(s: Seq<u8>) -> bool {
    forall|i: int| 0 <= i < s.len() ==> is_digit(#[trigger] s[i])
}

/// The value of a decimal digit string.
pub open spec fn dec_value(s: Seq<u8>) -> int
    decreases s.len(),
{
    if s.len() == 0 {
        0
    } else {
        dec_value(s.drop_last()) * 10 + (s.last() - 48)
    }
}

/// The value of a digit string is never negative.
proof fn lemma_dec_value_nonneg(s: Seq<u8>)
    requires
        all_digits(s),
    ensures
        dec_value(s) >= 0,
    decreases s.len(),
{
    if s.len() > 0 {
        assert(all_digits(s.drop_last())) by {
            assert(forall|i: int| 0 <= i < s.len() - 1 ==> s.drop_last()[i] == s[i]);
        }
        lemma_dec_value_nonneg(s.drop_last());
    }
}

/// A digit string is worth at least any of its prefixes.
proof fn lemma_dec_value_prefix(s: Seq<u8>, i: int)
    requires
        0 <= i <= s.len(),
        all_digits(s),
    ensures
        dec_value(s.take(i)) <= dec_value(s),
    decreases s.len() - i,
{
    if i == s.len() {
        assert(s.take(i) =~= s);
    } else {
        assert(s.take(i + 1).drop_last() =~= s.take(i));
        assert(all_digits(s.take(i))) by {
            assert(forall|j: int| 0 <= j < i ==> s.take(i)[j] == s[j]);
        }
        lemma_dec_value_nonneg(s.take(i));
        assert(dec_value(s.take(i + 1)) >= dec_value(s.take(i)));
        lemma_dec_value_prefix(s, i + 1);
    }
}

/// A valid port string: decimal digits whose value lies in 1 to 65535.
pub open spec fn valid_port(s: Seq<u8>) -> bool {
    s.len() > 0 && all_digits(s) && 1 <= dec_value(s) <= 65535
}

/// Parse a port number. Succeeds exactly on digit strings whose value lies
/// in 1 to 65535; in particular `0` and the empty string are rejected.
pub fn parse_port(s: &[u8]) -> (r: Option<u16>)
    ensures
        (r is Some) <==> valid_port(s@),
        r matches Some(p) ==> 1 <= p && p as int == dec_value(s@),
{
    if s.len() == 0 {
        return None;
    }
    let mut acc: u32 = 0;
    let mut i: usize = 0;
    while i < s.len()
        invariant
            0 <= i <= s.len(),
            acc <= 65535,
            all_digits(s@.take(i as int)),
            acc as int == dec_value(s@.take(i as int)),
        decreases s.len() - i,
    {
        let c = s[i];
        if c < 48 || c > 57 {
            assert(!all_digits(s@));
            return None;
        }
        proof {
            assert(s@.take(i + 1).drop_last() =~= s@.take(i as int));
            assert(all_digits(s@.take(i + 1))) by {
                assert(forall|j: int|
                    0 <= j < i + 1 ==> s@.take(i + 1)[j] == s@.take(i as int).push(s@[i as int])[
                    j]);
            }
        }
        let next: u32 = acc * 10 + (c - 48) as u32;
        if next > 65535 {
            proof {
                if all_digits(s@) {
                    lemma_dec_value_prefix(s@, i + 1);
                }
            }
            return None;
        }
        acc = next;
        i = i + 1;
    }
    proof {
        assert(s@.take(s@.len() as int) =~= s@);
    }
    if acc == 0 {
        return None;
    }
    Some(acc as u16)
}

/// A valid dotted-quad octet: one to three digits, value at most 255, and
/// no leading zero.
pub open spec fn valid_octet(s: Seq<u8>) -> bool {
    1 <= s.len() <= 3 && all_digits(s) && dec_value(s) <= 255 && (s.len() == 1 || s[0] != 48)
}

/// Parse one octet of a dotted-quad address.
pub fn parse_octet(s: &[u8]) -> (r: Option<u8>)
    ensures
        (r is Some) <==> valid_octet(s@),
        r matches Some(v) ==> v as int == dec_value(s@),
{
    if s.len() == 0 || s.len() > 3 {
        return None;
    }
    if s.len() > 1 && s[0] == 48 {
        return None;
    }
    let mut acc: u32 = 0;
    let mut i: usize = 0;
    while i < s.len()
        invariant
            0 <= i <= s.len(),
            s@.len() <= 3,
            i == 0 ==> acc == 0,
            i == 1 ==> acc <= 9,
            i == 2 ==> acc <= 99,
            i == 3 ==> acc <= 999,
            all_digits(s@.take(i as int)),
            acc as int == dec_value(s@.take(i as int)),
        decreases s.len() - i,
    {
        let c = s[i];
        if c < 48 || c > 57 {
            assert(!all_digits(s@));
            return None;
        }
        proof {
            assert(s@.take(i + 1).drop_last() =~= s@.take(i as int));
            assert(all_digits(s@.take(i + 1))) by {
                assert(forall|j: int|
                    0 <= j < i + 1 ==> s@.take(i + 1)[j] == s@.take(i as int).push(s@[i as int])[
                    j]);
            }
        }
        acc = acc * 10 + (c - 48) as u32;
        i = i + 1;
    }
    proof {
        assert(s@.take(s@.len() as int) =~= s@);
    }
    if acc > 255 {
        return None;
    }
    Some(acc as u8)
}

/// An IPv4 address as four octet values.
#[derive(PartialEq, Eq, Structural, Debug, Clone, Copy)]
pub struct Ipv4 {
    pub a: u8,
    pub b: u8,
    pub c: u8,
    pub d: u8,
}

/// A valid dotted-quad IPv4 literal: four valid octets joined by dots.
pub open spec fn valid_ipv4(s: Seq<u8>) -> bool {
    let p = spec_split(s, 46u8);
    p.len() == 4 && valid_octet(p[0]) && valid_octet(p[1]) && valid_octet(p[2]) && valid_octet(
        p[3],
    )
}

/// Parse a dotted-quad IPv4 literal.
pub fn parse_ipv4(s: &[u8]) -> (r: Option<Ipv4>)
    ensures
        (r is Some) <==> valid_ipv4(s@),
        r matches Some(ip) ==> {
            let p = spec_split(s@, 46u8);
            ip.a as int == dec_value(p[0]) && ip.b as int == dec_value(p[1]) && ip.c as int
                == dec_value(p[2]) && ip.d as int == dec_value(p[3])
        },
{
    let pieces = split_bytes(s, 46u8);
    if pieces.len() != 4 {
        return None;
    }
    let a = parse_octet(pieces[0].as_slice());
    let b = parse_octet(pieces[1].as_slice());
    let c = parse_octet(pieces[2].as_slice());
    let d = parse_octet(pieces[3].as_slice());
    proof {
        assert(pieces@[0]@ == seq_views(pieces@)[0]);
        assert(pieces@[1]@ == seq_views(pieces@)[1]);
        assert(pieces@[2]@ == seq_views(pieces@)[2]);
        assert(pieces@[3]@ == seq_views(pieces@)[3]);
    }
    match (a, b, c, d) {
        (Some(a), Some(b), Some(c), Some(d)) => Some(Ipv4 { a, b, c, d }),
        _ => None,
    }
}

/// Every byte of the string is a hex digit.
pub open spec fn all_hex(s: Seq<u8>) -> bool {
    forall|i: int| 0 <= i < s.len() ==> is_hex_digit(#[trigger] s[i])
}

/// The value of a hex digit string.
pub open spec fn hex_value(s: Seq<u8>) -> int
    decreases s.len(),
{
    if s.len() == 0 {
        0
    } else {
        hex_value(s.drop_last()) * 16 + hex_digit_value(s.last())
    }
}

/// A valid 16-bit group of an IPv6 literal: one to four hex digits.
pub open spec fn valid_h16(s: Seq<u8>) -> bool {
    1 <= s.len() <= 4 && all_hex(s)
}

/// Parse one 16-bit group of an IPv6 literal.
pub fn parse_h16(s: &[u8]) -> (r: Option<u16>)
    ensures
        (r is Some) <==> valid_h16(s@),
        r matches Some(v) ==> v as int == hex_value(s@),
{
    if s.len() == 0 || s.len() > 4 {
        return None;
    }
    let mut acc: u32 = 0;
    let mut i: usize = 0;
    while i < s.len()
        invariant
            0 <= i <= s.len(),
            s@.len() <= 4,
            i == 0 ==> acc == 0,
            i == 1 ==> acc <= 15,
            i == 2 ==> acc <= 255,
            i == 3 ==> acc <= 4095,
            i == 4 ==> acc <= 65535,
            all_hex(s@.take(i as int)),
            acc as int == hex_value(s@.take(i as int)),
        decreases s.len() - i,
    {
        let d = match crate::util::hex_digit_of(s[i]) {
            Some(d) => d,
            None => {
                assert(!all_hex(s@));
                return None;
            },
        };
        proof {
            assert(s@.take(i + 1).drop_last() =~= s@.take(i as int));
            assert(all_hex(s@.take(i + 1))) by {
                assert(forall|j: int|
                    0 <= j < i + 1 ==> s@.take(i + 1)[j] == s@.take(i as int).push(s@[i as int])[
                    j]);
            }
        }
        acc = acc * 16 + d as u32;
        i = i + 1;
    }
    proof {
        assert(s@.take(s@.len() as int) =~= s@);
    }
    Some(acc as u16)
}

/// A 16-bit group is never also a dotted quad: it has no dot.
proof fn lemma_h16_not_ipv4(s: Seq<u8>)
    requires
        valid_h16(s),
    ensures
        !valid_ipv4(s),
{
    assert(forall|j: int| 0 <= j < s.len() ==> s[j] != 46u8);
    crate::util::lemma_split_no_sep(s, 46u8);
}

/// The index values of a list of positions.
pub open spec fn usize_views(v: Seq<usize>) -> Seq<int> {
    Seq::new(v.len(), |i: int| v[i] as int)
}

/// The indices of the empty pieces of a piece list, in order.
pub open spec fn spec_empty_indices(p: Seq<Seq<u8>>) -> Seq<int>
    decreases p.len(),
{
    if p.len() == 0 {
        Seq::empty()
    } else if p.last().len() == 0 {
        spec_empty_indices(p.drop_last()).push(p.len() - 1)
    } else {
        spec_empty_indices(p.drop_last())
    }
}

/// The empty-index list points at exactly the empty pieces, in increasing
/// order.
proof fn lemma_empty_indices(p: Seq<Seq<u8>>)
    ensures
        forall|j: int|
            0 <= j < spec_empty_indices(p).len() ==> 0 <= #[trigger] spec_empty_indices(p)[j]
                < p.len() && p[spec_empty_indices(p)[j]].len() == 0,
        forall|i: int| 0 <= i < p.len() && p[i].len() == 0 ==> spec_empty_indices(p).contains(i),
        forall|j1: int, j2: int|
            0 <= j1 < j2 < spec_empty_indices(p).len() ==> #[trigger] spec_empty_indices(p)[j1]
                < #[trigger] spec_empty_indices(p)[j2],
    decreases p.len(),
{
    if p.len() > 0 {
        lemma_empty_indices(p.drop_last());
        let e = spec_empty_indices(p);
        let ep = spec_empty_indices(p.drop_last());
        assert(forall|i: int| 0 <= i < p.len() - 1 ==> p.drop_last()[i] == p[i]);
        if p.last().len() == 0 {
            assert(e == ep.push(p.len() - 1));
            assert forall|i: int| 0 <= i < p.len() && p[i].len() == 0 implies e.contains(i) by {
                if i < p.len() - 1 {
                    assert(ep.contains(i));
                    let j = choose|j: int| 0 <= j < ep.len() && ep[j] == i;
                    assert(e[j] == i);
                } else {
                    assert(e[e.len() - 1] == i);
                }
            }
        } else {
            assert forall|i: int| 0 <= i < p.len() && p[i].len() == 0 implies e.contains(i) by {
                assert(i < p.len() - 1);
                assert(ep.contains(i));
                let j = choose|j: int| 0 <= j < ep.len() && ep[j] == i;
                assert(e[j] == i);
            }
        }
    }
}

/// Collect the indices of the empty pieces.
#[verifier::loop_isolation(false)]
fn empty_indices(pieces: &Vec<Vec<u8>>) -> (r: Vec<usize>)
    ensures
        usize_views(r@) == spec_empty_indices(seq_views(pieces@)),
{
    let ghost pv = seq_views(pieces@);
    let mut out: Vec<usize> = Vec::new();
    let mut i: usize = 0;
    proof {
        assert(pv.take(0) =~= Seq::<Seq<u8>>::empty());
        assert(usize_views(out@) =~= spec_empty_indices(pv.take(0)));
    }
    while i < pieces.len()
        invariant
            0 <= i <= pieces.len(),
            usize_views(out@) == spec_empty_indices(pv.take(i as int)),
        decreases pieces.len() - i,
    {
        let ghost old_out = out@;
        proof {
            assert(pv.take(i + 1).drop_last() =~= pv.take(i as int));
            assert(pv.take(i + 1).last() == pv[i as int]);
        }
        if pieces[i].len() == 0 {
            out.push(i);
            proof {
                assert(usize_views(out@) =~= usize_views(old_out).push(i as int));
            }
        }
        i = i + 1;
    }
    proof {
        assert(pv.take(pieces@.len() as int) =~= pv);
    }
    out
}

/// Where the `::` gap of an IPv6 literal stands among its colon-separated
/// pieces: the pieces before `h` are the head groups, those from `t` on
/// the closing run. `(0, 0)` marks a literal without `::`; `None`, a
/// malformed arrangement of colons.
pub open spec fn spec_gap(p: Seq<Seq<u8>>) -> Option<(int, int)> {
    let e = spec_empty_indices(p);
    let n = p.len() as int;
    if e.len() == 0 {
        Some((0, 0))
    } else if e.len() == 1 && 1 <= e[0] <= n - 2 {
        Some((e[0], e[0] + 1))
    } else if n == 3 && e.len() == 3 {
        Some((0, 3))
    } else if n >= 3 && e.len() == 2 && e[0] == 0 && e[1] == 1 {
        Some((0, 2))
    } else if n >= 3 && e.len() == 2 && e[0] == n - 2 && e[1] == n - 1 {
        Some((n - 2, n))
    } else {
        None
    }
}

/// All pieces are 16-bit groups.
pub open spec fn head_ok(p: Seq<Seq<u8>>) -> bool {
    forall|i: int| 0 <= i < p.len() ==> valid_h16(#[trigger] p[i])
}

/// The group values of plain 16-bit pieces.
pub open spec fn head_groups(p: Seq<Seq<u8>>) -> Seq<int> {
    Seq::new(p.len(), |i: int| hex_value(p[i]))
}

/// The two groups an embedded dotted quad stands for.
pub open spec fn v4_groups(s: Seq<u8>) -> Seq<int> {
    let q = spec_split(s, 46u8);
    seq![
        dec_value(q[0]) * 256 + dec_value(q[1]),
        dec_value(q[2]) * 256 + dec_value(q[3]),
    ]
}

/// The closing run of an IPv6 literal: 16-bit groups, of which the last
/// may instead be an embedded dotted-quad IPv4 address.
pub open spec fn end_ok(p: Seq<Seq<u8>>) -> bool {
    if p.len() > 0 && valid_ipv4(p.last()) {
        head_ok(p.drop_last())
    } else {
        head_ok(p)
    }
}

/// The group values of a closing run.
pub open spec fn end_groups(p: Seq<Seq<u8>>) -> Seq<int> {
    if p.len() > 0 && valid_ipv4(p.last()) {
        head_groups(p.drop_last()) + v4_groups(p.last())
    } else {
        head_groups(p)
    }
}

/// A valid textual IPv6 literal: hex groups joined by colons, at most one
/// `::` standing for the missing zero groups, an embedded dotted quad
/// allowed as the final 32 bits; eight groups in all.
pub open spec fn valid_ipv6(s: Seq<u8>) -> bool {
    let p = spec_split(s, 58u8);
    match spec_gap(p) {
        None => false,
        Some((h, t)) => {
            let head = p.take(h);
            let tail = p.skip(t);
            head_ok(head) && end_ok(tail) && (if t == 0 {
                end_groups(tail).len() == 8
            } else {
                h + end_groups(tail).len() <= 7
            })
        },
    }
}

/// The eight 16-bit groups an IPv6 literal stands for, most significant
/// first, the `::` gap filled with zeros.
pub open spec fn ipv6_groups(s: Seq<u8>) -> Seq<int> {
    let p = spec_split(s, 58u8);
    let g = spec_gap(p)->Some_0;
    let head = p.take(g.0);
    let tail = p.skip(g.1);
    head_groups(head) + Seq::new((8 - head.len() - end_groups(tail).len()) as nat, |i: int| 0)
        + end_groups(tail)
}

/// An IPv6 address as eight 16-bit groups, most significant first.
#[derive(PartialEq, Eq, Debug, Clone)]
pub struct Ipv6 {
    /// The eight groups.
    pub groups: Vec<u16>,
}

/// Parse a textual IPv6 literal.
#[verifier::loop_isolation(false)]
#[verifier::rlimit(80)]
pub fn parse_ipv6(s: &[u8]) -> (r: Option<Ipv6>)
    ensures
        (r is Some) <==> valid_ipv6(s@),
        r matches Some(ip) ==> ip.groups@.len() == 8 && ip.groups@.map_values(|g: u16| g as int)
            == ipv6_groups(s@),
{
    let pieces = split_bytes(s, 58u8);
    let ghost pv = seq_views(pieces@);
    proof {
        lemma_empty_indices(pv);
    }
    let e = empty_indices(&pieces);
    let n = pieces.len();
    let h: usize;
    let t: usize;
    if e.len() == 0 {
        h = 0;
        t = 0;
    } else if e.len() == 1 && e[0] >= 1 && n >= 2 && e[0] <= n - 2 {
        h = e[0];
        t = e[0] + 1;
    } else if n == 3 && e.len() == 3 {
        h = 0;
        t = 3;
    } else if n >= 3 && e.len() == 2 && e[0] == 0 && e[1] == 1 {
        h = 0;
        t = 2;
    } else if n >= 3 && e.len() == 2 && e[0] == n - 2 && e[1] == n - 1 {
        h = n - 2;
        t = n;
    } else {
        proof {
            assert(spec_gap(pv) is None);
        }
        return None;
    }
    proof {
        assert(spec_gap(pv) == Some((h as int, t as int)));
        assert(forall|k: int| 0 <= k < h ==> pv.take(h as int)[k] == pv[k]);
        assert(forall|k: int| 0 <= k < pv.len() - t ==> pv.skip(t as int)[k] == pv[t + k]);
    }
    let ghost head = pv.take(h as int);
    let ghost tail = pv.skip(t as int);
    let mut groups: Vec<u16> = Vec::new();
    let mut i: usize = 0;
    while i < h
        invariant
            0 <= i <= h,
            groups@.len() == i,
            forall|k: int|
                0 <= k < i ==> valid_h16(#[trigger] pv[k]) && groups@[k] as int == hex_value(
                    pv[k],
                ),
        decreases h - i,
    {
        match parse_h16(pieces[i].as_slice()) {
            Some(g) => {
                groups.push(g);
            },
            None => {
                proof {
                    assert(!valid_h16(head[i as int]));
                    assert(!head_ok(head));
                }
                return None;
            },
        }
        i = i + 1;
    }
    proof {
        assert(head_ok(head)) by {
            assert(forall|k: int| 0 <= k < head.len() ==> valid_h16(#[trigger] head[k]));
        }
    }
    let mut tailg: Vec<u16> = Vec::new();
    if t < n {
        let mut j: usize = t;
        while j < n - 1
            invariant
                t <= j <= n - 1,
                t < n,
                tailg@.len() == j - t,
                forall|k: int|
                    t <= k < j ==> valid_h16(#[trigger] pv[k]) && tailg@[k - t] as int == hex_value(
                        pv[k],
                    ),
            decreases n - j,
        {
            match parse_h16(pieces[j].as_slice()) {
                Some(g) => {
                    tailg.push(g);
                },
                None => {
                    proof {
                        assert(!valid_h16(tail[j - t]));
                        assert(!head_ok(tail));
                        if tail.len() > 0 && valid_ipv4(tail.last()) {
                            assert(tail.drop_last()[j - t] == tail[j - t]);
                            assert(!head_ok(tail.drop_last()));
                        }
                        assert(!end_ok(tail));
                    }
                    return None;
                },
            }
            j = j + 1;
        }
        let last = &pieces[n - 1];
        proof {
            assert(tail.last() == pv[n - 1]);
        }
        match parse_h16(last.as_slice()) {
            Some(g) => {
                tailg.push(g);
                proof {
                    lemma_h16_not_ipv4(pv[n - 1]);
                    assert(end_ok(tail) && end_groups(tail) =~= head_groups(tail)) by {
                        assert(forall|k: int| 0 <= k < tail.len() ==> valid_h16(#[trigger] tail[k]));
                    }
                    assert(tailg@.map_values(|g: u16| g as int) =~= end_groups(tail));
                }
            },
            None => {
                match parse_ipv4(last.as_slice()) {
                    Some(ip) => {
                        tailg.push(ip.a as u16 * 256 + ip.b as u16);
                        tailg.push(ip.c as u16 * 256 + ip.d as u16);
                        proof {
                            assert(valid_ipv4(tail.last()));
                            assert(end_ok(tail)) by {
                                assert(forall|k: int|
                                    0 <= k < tail.len() - 1 ==> tail.drop_last()[k] == tail[k]
                                        && valid_h16(#[trigger] tail.drop_last()[k]));
                            }
                            assert(tailg@.map_values(|g: u16| g as int) =~= end_groups(tail));
                        }
                    },
                    None => {
                        proof {
                            assert(!valid_h16(tail.last()) && !valid_ipv4(tail.last()));
                            assert(!head_ok(tail));
                            assert(!end_ok(tail));
                        }
                        return None;
                    },
                }
            },
        }
    } else {
        proof {
            assert(tail =~= Seq::<Seq<u8>>::empty());
            assert(end_ok(tail));
            assert(tailg@.map_values(|g: u16| g as int) =~= end_groups(tail));
        }
    }
    let ghost egroups = end_groups(tail);
    if t == 0 {
        if tailg.len() != 8 {
            return None;
        }
    } else {
        if h + tailg.len() > 7 {
            return None;
        }
    }
    let mut z: usize = 0;
    let zeros: usize = 8 - h - tailg.len();
    while z < zeros
        invariant
            0 <= z <= zeros,
            zeros == 8 - h - tailg@.len(),
            groups@.len() == h + z,
            forall|k: int|
                0 <= k < h ==> valid_h16(#[trigger] pv[k]) && groups@[k] as int == hex_value(
                    pv[k],
                ),
            forall|k: int| h <= k < h + z ==> groups@[k] == 0u16,
        decreases zeros - z,
    {
        groups.push(0);
        z = z + 1;
    }
    let mut w: usize = 0;
    while w < tailg.len()
        invariant
            0 <= w <= tailg@.len(),
            zeros == 8 - h - tailg@.len(),
            groups@.len() == h + zeros + w,
            forall|k: int|
                0 <= k < h ==> valid_h16(#[trigger] pv[k]) && groups@[k] as int == hex_value(
                    pv[k],
                ),
            forall|k: int| h <= k < h + zeros ==> groups@[k] == 0u16,
            forall|k: int| 0 <= k < w ==> groups@[h + zeros + k] == tailg@[k],
        decreases tailg.len() - w,
    {
        let g = tailg[w];
        groups.push(g);
        w = w + 1;
    }
    proof {
        assert(valid_ipv6(s@));
        assert(head_groups(head).len() == h as int);
        assert(forall|k: int| 0 <= k < h ==> head_groups(head)[k] == hex_value(pv[k]));
        assert(groups@.map_values(|g: u16| g as int) =~= ipv6_groups(s@));
    }
    Some(Ipv6 { groups })
}

/// A bind address of either family.
#[derive(PartialEq, Eq, Debug, Clone)]
pub enum BindAddr {
    /// A dotted-quad IPv4 address.
    V4(Ipv4),
    /// An IPv6 address as eight groups.
    V6(Ipv6),
}

/// A valid IP literal: a dotted-quad IPv4 or a textual IPv6 address.
pub open spec fn valid_ip(s: Seq<u8>) -> bool {
    valid_ipv4(s) || valid_ipv6(s)
}

/// The parsed address stands for the literal: an IPv4 literal as its four
/// octet values, any other valid literal as its eight IPv6 groups.
pub open spec fn addr_of(a: BindAddr, s: Seq<u8>) -> bool {
    match a {
        BindAddr::V4(ip) => valid_ipv4(s) && {
            let q = spec_split(s, 46u8);
            ip.a as int == dec_value(q[0]) && ip.b as int == dec_value(q[1]) && ip.c as int
                == dec_value(q[2]) && ip.d as int == dec_value(q[3])
        },
        BindAddr::V6(ip) => valid_ipv6(s) && !valid_ipv4(s) && ip.groups@.len() == 8
            && ip.groups@.map_values(|g: u16| g as int) == ipv6_groups(s),
    }
}

/// Parse an IP literal of either family.
pub fn parse_ip(s: &[u8]) -> (r: Option<BindAddr>)
    ensures
        (r is Some) <==> valid_ip(s@),
        r matches Some(a) ==> addr_of(a, s@),
{
    match parse_ipv4(s) {
        Some(ip) => Some(BindAddr::V4(ip)),
        None => match parse_ipv6(s) {
            Some(ip) => Some(BindAddr::V6(ip)),
            None => None,
        },
    }
}

/// Why a configuration was refused.
#[derive(PartialEq, Eq, Structural, Debug, Clone, Copy)]
pub enum ConfigError {
    /// The bind address is not an IP literal of either family.
    BadAddress,
    /// The port is not a decimal number in 1 to 65535.
    BadPort,
    /// The root path does not name an existing directory.
    NotADirectory,
    /// The index file name is empty.
    EmptyIndex,
}

/// The validated, immutable server configuration.
#[derive(Debug, Clone, PartialEq, Eq)]
pub struct ServerConfig {
    /// The address the listener binds.
    pub addr: BindAddr,
    /// The port the listener binds, never zero.
    pub port: u16,
    /// The root directory served, validated to exist at load time.
    pub root: String,
    /// The index file name looked for in a requested directory.
    pub index: String,
    /// Whether responses carry an `ETag` header.
    pub etag: bool,
    /// Whether responses carry a `Last-Modified` header.
    pub last_modified: bool,
    /// Whether hidden entries are served.
    pub show_hidden: bool,
}

impl ServerConfig {
    /// A well-formed configuration: the port is usable and the index file
    /// has a name.
    pub open spec fn wf(&self) -> bool {
        self.port >= 1 && self.index@.len() > 0
    }
}

/// Build a configuration from raw command-line values, given whether the
/// chosen root names a directory. Validation order: address, port,
/// directory, index name.
pub fn make_config(
    addr_s: &[u8],
    port_s: &[u8],
    dir: &str,
    dir_is_dir: bool,
    index: &str,
    etag: bool,
    last_modified: bool,
    show_hidden: bool,
) -> (r: Result<ServerConfig, ConfigError>)
    ensures
        (r is Ok) <==> (valid_ip(addr_s@) && valid_port(port_s@) && dir_is_dir && index@.len()
            > 0),
        r matches Ok(c) ==> c.wf() && addr_of(c.addr, addr_s@) && c.port as int == dec_value(
            port_s@,
        ) && c.root@ == dir@ && c.index@ == index@ && c.etag == etag && c.last_modified
            == last_modified && c.show_hidden == show_hidden,
        r == Err::<ServerConfig, ConfigError>(ConfigError::BadAddress) <==> !valid_ip(addr_s@),
        r == Err::<ServerConfig, ConfigError>(ConfigError::BadPort) <==> (valid_ip(addr_s@)
            && !valid_port(port_s@)),
        r == Err::<ServerConfig, ConfigError>(ConfigError::NotADirectory) <==> (valid_ip(addr_s@)
            && valid_port(port_s@) && !dir_is_dir),
        r == Err::<ServerConfig, ConfigError>(ConfigError::EmptyIndex) <==> (valid_ip(addr_s@)
            && valid_port(port_s@) && dir_is_dir && index@.len() == 0),
{
    let addr = match parse_ip(addr_s) {
        Some(a) => a,
        None => {
            return Err(ConfigError::BadAddress);
        },
    };
    let port = match parse_port(port_s) {
        Some(p) => p,
        None => {
            return Err(ConfigError::BadPort);
        },
    };
    if !dir_is_dir {
        return Err(ConfigError::NotADirectory);
    }
    if index.is_empty() {
        return Err(ConfigError::EmptyIndex);
    }
    Ok(
        ServerConfig {
            addr,
            port,
            root: dir.to_owned(),
            index: index.to_owned(),
            etag,
            last_modified,
            show_hidden,
        },
    )
}

/// Relies on std::path::Path::is_dir: whether the path names an existing
/// directory on disk. Nothing is promised of the answer; what is built from
/// it is verified for either answer.
#[verifier::external_body]
fn fs_is_dir(s: &str) -> bool {
    std::path::Path::new(s).is_dir()
}

/// Turn the directory answer for a candidate root into the original's
/// result: the path itself when it is a directory, else the message naming
/// it.
pub fn dir_checked(s: &str, is_dir: bool) -> (r: Result<String, String>)
    ensures
        (r is Ok) <==> is_dir,
        r matches Ok(p) ==> p@ == s@,
        r matches Err(e) ==> e@ == s@ + " is not a directory"@,
{
    if is_dir {
        Ok(s.to_owned())
    } else {
        Err(s.to_owned().concat(" is not a directory"))
    }
}

/// Validate that a candidate root names a directory on disk, returning it
/// unchanged, or the error message naming it.
pub fn verify_pathdir(s: &str) -> (r: Result<String, String>)
    ensures
        r matches Ok(p) ==> p@ == s@,
        r matches Err(e) ==> e@ == s@ + " is not a directory"@,
{
    let d = fs_is_dir(s);
    dir_checked(s, d)
}

/// Make a root path value out of a literal.
pub fn construct_path(p: &str) -> (r: String)
    ensures
        r@ == p@,
{
    p.to_owned()
}

/// Build a configuration from raw command-line values, asking the
/// filesystem whether the chosen root names a directory.
pub fn load_config(
    addr_s: &[u8],
    port_s: &[u8],
    dir: &str,
    index: &str,
    etag: bool,
    last_modified: bool,
    show_hidden: bool,
) -> (r: Result<ServerConfig, ConfigError>)
    ensures
        (r is Ok) ==> (valid_ip(addr_s@) && valid_port(port_s@) && index@.len() > 0),
        r matches Ok(c) ==> c.wf() && addr_of(c.addr, addr_s@) && c.port as int == dec_value(
            port_s@,
        ) && c.root@ == dir@ && c.index@ == index@ && c.etag == etag && c.last_modified
            == last_modified && c.show_hidden == show_hidden,
        r == Err::<ServerConfig, ConfigError>(ConfigError::BadAddress) <==> !valid_ip(addr_s@),
        r == Err::<ServerConfig, ConfigError>(ConfigError::BadPort) <==> (valid_ip(addr_s@)
            && !valid_port(port_s@)),
        r == Err::<ServerConfig, ConfigError>(ConfigError::EmptyIndex) ==> index@.len() == 0,
        r == Err::<ServerConfig, ConfigError>(ConfigError::NotADirectory) ==> (valid_ip(addr_s@)
            && valid_port(port_s@)),
        valid_ip(addr_s@) && valid_port(port_s@) && index@.len() > 0 ==> (r is Ok || r
            == Err::<ServerConfig, ConfigError>(ConfigError::NotADirectory)),
{
    let d = fs_is_dir(dir);
    make_config(addr_s, port_s, dir, d, index, etag, last_modified, show_hidden)
}

} // verus!
