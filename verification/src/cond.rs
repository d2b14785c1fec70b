use vstd::prelude::*;

use crate::util::{eq_bytes, lemma_split_no_sep, push_all, seq_views, spec_split, split_bytes};

verus! {

/// The lowercase hex digit for a value below 16.
pub open spec fn hex_digit(v: int) -> u8 {
    if v < 10 {
        (48 + v) as u8
    } else {
        (87 + v) as u8
    }
}

/// The lowercase hexadecimal form of a number, without leading zeros.
pub open spec fn spec_hex(n: int) -> Seq<u8>
    decreases n when n >= 0
{
    if n < 16 {
        seq![hex_digit(n)]
    } else {
        spec_hex(n / 16).push(hex_digit(n % 16))
    }
}

fn hex_byte(v: u8) -> (r: u8)
    requires
        v < 16,
    ensures
        r == hex_digit(v as int),
{
    if v < 10 {
        48 + v
    } else {
        87 + v
    }
}

/// Write a number in lowercase hexadecimal.
pub fn hex_u64(n: u64) -> (r: Vec<u8>)
    ensures
        r@ == spec_hex(n as int),
    decreases n,
{
    if n < 16 {
        let mut v: Vec<u8> = Vec::new();
        v.push(hex_byte(n as u8));
        proof {
            assert(v@ =~= seq![hex_digit(n as int)]);
        }
        v
    } else {
        let mut v = hex_u64(n / 16);
        v.push(hex_byte((n % 16) as u8));
        v
    }
}

/// The entity tag derived from a file's metadata: the size and the
/// modification time in hex, dash-joined, inside quotes.
pub open spec fn spec_etag(size: u64, mtime: u64) -> Seq<u8> {
    seq![34u8] + spec_hex(size as int) + seq![45u8] + spec_hex(mtime as int) + seq![34u8]
}

/// Compute the entity tag for a file from its size and its modification
/// time in seconds since the Unix epoch.
pub fn etag_of(size: u64, mtime: u64) -> (r: Vec<u8>)
    ensures
        r@ == spec_etag(size, mtime),
{
    let mut v: Vec<u8> = Vec::new();
    v.push(34);
    let hs = hex_u64(size);
    push_all(&mut v, hs.as_slice());
    v.push(45);
    let hm = hex_u64(mtime);
    push_all(&mut v, hm.as_slice());
    v.push(34);
    proof {
        assert(v@ =~= spec_etag(size, mtime));
    }
    v
}

/// Linear whitespace that may surround a list member in a header value.
pub open spec fn is_ws(c: u8) -> bool {
    c == 32 || c == 9
}

/// The string without its leading whitespace.
pub open spec fn spec_trim_start(s: Seq<u8>) -> Seq<u8>
    decreases s.len(),
{
    if s.len() > 0 && is_ws(s[0]) {
        spec_trim_start(s.drop_first())
    } else {
        s
    }
}

/// The string without its trailing whitespace.
pub open spec fn spec_trim_end(s: Seq<u8>) -> Seq<u8>
    decreases s.len(),
{
    if s.len() > 0 && is_ws(s.last()) {
        spec_trim_end(s.drop_last())
    } else {
        s
    }
}

/// The string without whitespace on either side.
pub open spec fn spec_trim(s: Seq<u8>) -> Seq<u8> {
    spec_trim_end(spec_trim_start(s))
}

/// Strip whitespace from both ends of a byte string.
pub fn trim_ws(s: &[u8]) -> (r: Vec<u8>)
    ensures
        r@ == spec_trim(s@),
{
    let mut lo: usize = 0;
    proof {
        assert(s@.skip(0) =~= s@);
    }
    while lo < s.len() && (s[lo] == 32 || s[lo] == 9)
        invariant
            0 <= lo <= s.len(),
            spec_trim_start(s@) == spec_trim_start(s@.skip(lo as int)),
        decreases s.len() - lo,
    {
        proof {
            assert(s@.skip(lo as int)[0] == s@[lo as int]);
            assert(s@.skip(lo as int).drop_first() =~= s@.skip(lo + 1));
        }
        lo = lo + 1;
    }
    let ghost t = s@.skip(lo as int);
    proof {
        if lo < s@.len() {
            assert(t[0] == s@[lo as int]);
            assert(!is_ws(t[0]));
        } else {
            assert(t =~= Seq::<u8>::empty());
        }
        assert(spec_trim_start(s@) == t);
    }
    let mut hi: usize = s.len();
    proof {
        assert(t.take(s@.len() - lo as int) =~= t);
    }
    while hi > lo && (s[hi - 1] == 32 || s[hi - 1] == 9)
        invariant
            lo <= hi <= s.len(),
            t == s@.skip(lo as int),
            spec_trim_end(t) == spec_trim_end(t.take(hi - lo as int)),
        decreases hi,
    {
        proof {
            let cur = t.take(hi - lo as int);
            assert(cur.last() == s@[hi - 1]);
            assert(cur.drop_last() =~= t.take(hi - 1 - lo as int));
        }
        hi = hi - 1;
    }
    proof {
        let cur = t.take(hi - lo as int);
        if hi > lo {
            assert(cur.last() == s@[hi - 1]);
            assert(!is_ws(cur.last()));
        } else {
            assert(cur =~= Seq::<u8>::empty());
        }
        assert(spec_trim_end(t) == cur);
    }
    let mut out: Vec<u8> = Vec::new();
    let mut k: usize = lo;
    while k < hi
        invariant
            lo <= k <= hi <= s.len(),
            out@ =~= s@.subrange(lo as int, k as int),
        decreases hi - k,
    {
        out.push(s[k]);
        k = k + 1;
    }
    proof {
        assert(out@ =~= t.take(hi - lo as int));
    }
    out
}

/// An `If-None-Match` value matches an entity tag when some comma-separated
/// member, once trimmed, is that tag or the wildcard `*`.
pub open spec fn spec_none_match(header: Seq<u8>, etag: Seq<u8>) -> bool {
    exists|i: int|
        0 <= i < spec_split(header, 44u8).len() && (spec_trim(
            #[trigger] spec_split(header, 44u8)[i],
        ) == etag || spec_trim(spec_split(header, 44u8)[i]) == seq![42u8])
}

/// Decide whether an `If-None-Match` header value matches an entity tag.
pub fn none_match(header: &[u8], etag: &[u8]) -> (r: bool)
    ensures
        r == spec_none_match(header@, etag@),
{
    let pieces = split_bytes(header, 44);
    let ghost pviews = seq_views(pieces@);
    let mut i: usize = 0;
    while i < pieces.len()
        invariant
            0 <= i <= pieces.len(),
            pviews == seq_views(pieces@),
            pviews == spec_split(header@, 44u8),
            forall|k: int|
                0 <= k < i ==> spec_trim(#[trigger] pviews[k]) != etag@ && spec_trim(pviews[k])
                    != seq![42u8],
        decreases pieces.len() - i,
    {
        let t = trim_ws(pieces[i].as_slice());
        proof {
            assert(pviews[i as int] == spec_split(header@, 44u8)[i as int]);
        }
        if eq_bytes(t.as_slice(), etag) {
            proof {
                assert(spec_trim(spec_split(header@, 44u8)[i as int]) == etag@);
            }
            return true;
        }
        if t.len() == 1 && t[0] == 42 {
            proof {
                assert(t@ =~= seq![42u8]);
                assert(spec_trim(spec_split(header@, 44u8)[i as int]) == seq![42u8]);
            }
            return true;
        }
        proof {
            assert(t@ != seq![42u8]);
        }
        i = i + 1;
    }
    false
}

/// Seconds since the Unix epoch read from an HTTP date header, by
/// httpdate's grammar; nothing when the header is not a date.
pub uninterp spec fn parsed_http_date_of(s: Seq<char>) -> Option<u64>;

/// Relies on httpdate::parse_http_date: reads a date header in the three
/// HTTP forms; the result is a function of the characters alone.
#[verifier::external_body]
fn parse_date(s: &str) -> (r: Option<u64>)
    ensures
        r == parsed_http_date_of(s@),
{
    match httpdate::parse_http_date(s) {
        Ok(t) => match t.duration_since(std::time::UNIX_EPOCH) {
            Ok(d) => Some(d.as_secs()),
            Err(_) => None,
        },
        Err(_) => None,
    }
}

/// The IMF-fixdate form of a Unix timestamp, as `Last-Modified` carries it.
pub uninterp spec fn http_date_of(secs: u64) -> Seq<char>;

/// Relies on httpdate::fmt_http_date: the IMF-fixdate form of a timestamp,
/// a function of the seconds alone. From year 10000 on it panics, so such
/// timestamps are refused here.
#[verifier::external_body]
fn fmt_date(secs: u64) -> (r: String)
    requires
        secs < 253402300800,
    ensures
        r@ == http_date_of(secs),
{
    httpdate::fmt_http_date(std::time::UNIX_EPOCH + std::time::Duration::from_secs(secs))
}

/// The `Last-Modified` value for a modification time, when the time can be
/// written as an HTTP date at all (the format ends with year 9999).
pub fn last_modified_value(secs: u64) -> (r: Option<String>)
    ensures
        (r is Some) <==> secs < 253402300800,
        r matches Some(v) ==> v@ == http_date_of(secs),
{
    if secs < 253402300800 {
        Some(fmt_date(secs))
    } else {
        None
    }
}

/// The view of an optional header value.
pub open spec fn opt_view(o: Option<&[u8]>) -> Option<Seq<u8>> {
    match o {
        Some(s) => Some(s@),
        None => None,
    }
}

/// When a request is answered 304 Not Modified: an `If-None-Match` that
/// matches the tag, with ETags enabled, or else an `If-Modified-Since` no
/// older than the modification time, with Last-Modified enabled. A present
/// `If-None-Match` takes precedence over `If-Modified-Since`.
pub open spec fn spec_not_modified(
    etag_on: bool,
    inm: Option<Seq<u8>>,
    etag: Seq<u8>,
    lm_on: bool,
    ims: Option<u64>,
    mtime: u64,
) -> bool {
    if etag_on && inm is Some {
        spec_none_match(inm->Some_0, etag)
    } else if lm_on && ims is Some {
        mtime <= ims->Some_0
    } else {
        false
    }
}

/// The seconds a raw `If-Modified-Since` header stands for, if any.
pub open spec fn spec_ims_secs(ims: Option<Seq<char>>) -> Option<u64> {
    match ims {
        Some(h) => parsed_http_date_of(h),
        None => None,
    }
}

/// The view of an optional header string.
pub open spec fn opt_str_view(o: Option<&str>) -> Option<Seq<char>> {
    match o {
        Some(s) => Some(s@),
        None => None,
    }
}

/// Decide whether a request is answered 304 Not Modified, from the raw
/// conditional headers, the file's entity tag and modification time, and
/// the two feature toggles.
pub fn not_modified(
    etag_on: bool,
    inm: Option<&[u8]>,
    etag: &[u8],
    lm_on: bool,
    ims: Option<&str>,
    mtime: u64,
) -> (r: bool)
    ensures
        r == spec_not_modified(
            etag_on,
            opt_view(inm),
            etag@,
            lm_on,
            spec_ims_secs(opt_str_view(ims)),
            mtime,
        ),
{
    if etag_on && inm.is_some() {
        let h = inm.unwrap();
        none_match(h, etag)
    } else if lm_on && ims.is_some() {
        let h = ims.unwrap();
        match parse_date(h) {
            Some(secs) => mtime <= secs,
            None => false,
        }
    } else {
        false
    }
}

/// Every byte of a hex number is a digit or a lowercase letter `a` to `f`.
proof fn lemma_hex_bytes(n: int)
    requires
        n >= 0,
    ensures
        forall|j: int|
            0 <= j < spec_hex(n).len() ==> (48 <= #[trigger] spec_hex(n)[j] <= 57 || 97 <= spec_hex(
                n,
            )[j] <= 102),
    decreases n,
{
    if n < 16 {
        assert(spec_hex(n)[0] == hex_digit(n));
    } else {
        lemma_hex_bytes(n / 16);
        assert forall|j: int| 0 <= j < spec_hex(n).len() implies (48 <= #[trigger] spec_hex(n)[j]
            <= 57 || 97 <= spec_hex(n)[j] <= 102) by {
            if j < spec_hex(n).len() - 1 {
                assert(spec_hex(n)[j] == spec_hex(n / 16)[j]);
            } else {
                assert(spec_hex(n)[j] == hex_digit(n % 16));
            }
        }
    }
}

/// With ETags enabled, a request that sends back the entity tag of an
/// unchanged file as `If-None-Match` is answered 304 Not Modified,
/// whatever the other conditional header says.
pub proof fn lemma_etag_round_trip(
    size: u64,
    mtime: u64,
    lm_on: bool,
    ims: Option<u64>,
    file_mtime: u64,
)
    ensures
        spec_not_modified(
            true,
            Some(spec_etag(size, mtime)),
            spec_etag(size, mtime),
            lm_on,
            ims,
            file_mtime,
        ),
{
    let e = spec_etag(size, mtime);
    lemma_hex_bytes(size as int);
    lemma_hex_bytes(mtime as int);
    assert(e[0] == 34u8);
    assert(e.last() == 34u8);
    assert(forall|j: int| 0 <= j < e.len() ==> e[j] != 44u8);
    lemma_split_no_sep(e, 44u8);
    assert(spec_split(e, 44u8) == seq![e]);
    assert(spec_trim_start(e) == e);
    assert(spec_trim_end(e) == e);
    assert(spec_trim(spec_split(e, 44u8)[0]) == e);
    assert(spec_none_match(e, e));
}

} // verus!
