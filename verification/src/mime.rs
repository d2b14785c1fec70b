use vstd::prelude::*;

verus! {

/// The media type known for a file extension, as bytes;
/// `application/octet-stream` for an unknown or empty extension.
pub uninterp spec fn mime_of(ext: Seq<u8>) -> Seq<u8>;

/// Relies on mime_guess::from_ext and MimeGuess::first_or_octet_stream:
/// the first media type registered for the extension, or
/// `application/octet-stream` when none is (also for an extension that is
/// not UTF-8, for which no type is registered); a function of the bytes
/// alone.
#[verifier::external_body]
fn mime_lookup(ext: &[u8]) -> (r: Vec<u8>)
    ensures
        r@ == mime_of(ext@),
{
    let m = match core::str::from_utf8(ext) {
        Ok(e) => mime_guess::from_ext(e).first_or_octet_stream(),
        Err(_) => mime_guess::mime::APPLICATION_OCTET_STREAM,
    };
    m.essence_str().as_bytes().to_vec()
}

/// The position of the last dot of a name, `-1` when it has none.
pub open spec fn last_dot(name: Seq<u8>) -> int
    decreases name.len(),
{
    if name.len() == 0 {
        -1
    } else if name.last() == 46u8 {
        name.len() - 1
    } else {
        last_dot(name.drop_last())
    }
}

/// The extension of a file name: what follows its last dot, when that dot
/// stands past the first byte. A name without a dot, and a hidden name
/// whose only dot begins it, have none.
pub open spec fn spec_ext(name: Seq<u8>) -> Seq<u8> {
    if last_dot(name) >= 1 {
        name.skip(last_dot(name) + 1)
    } else {
        Seq::empty()
    }
}

/// Take the extension of a file name.
pub fn extension_of(name: &[u8]) -> (r: Vec<u8>)
    ensures
        r@ == spec_ext(name@),
{
    let mut j: usize = name.len();
    proof {
        assert(name@.take(name@.len() as int) =~= name@);
    }
    while j > 0 && name[j - 1] != 46
        invariant
            0 <= j <= name.len(),
            last_dot(name@) == last_dot(name@.take(j as int)),
        decreases j,
    {
        proof {
            assert(name@.take(j as int).last() == name@[j - 1]);
            assert(name@.take(j as int).drop_last() =~= name@.take(j - 1));
        }
        j = j - 1;
    }
    let mut out: Vec<u8> = Vec::new();
    if j <= 1 {
        proof {
            if j == 0 {
                assert(last_dot(name@.take(0)) == -1);
            } else {
                assert(name@.take(1).last() == name@[0]);
                assert(last_dot(name@.take(1)) == 0);
            }
            assert(out@ =~= spec_ext(name@));
        }
        return out;
    }
    proof {
        assert(name@.take(j as int).last() == name@[j - 1]);
        assert(last_dot(name@.take(j as int)) == j - 1);
    }
    let mut k: usize = j;
    while k < name.len()
        invariant
            j <= k <= name.len(),
            out@ =~= name@.subrange(j as int, k as int),
        decreases name.len() - k,
    {
        out.push(name[k]);
        k = k + 1;
    }
    proof {
        assert(out@ =~= name@.skip(j as int));
    }
    out
}

/// The charset note appended to text types: `; charset=utf-8`.
pub open spec fn charset_suffix() -> Seq<u8> {
    seq![59u8, 32u8, 99u8, 104u8, 97u8, 114u8, 115u8, 101u8, 116u8, 61u8, 117u8, 116u8, 102u8, 45u8, 56u8]
}

/// A media type under `text/` is served with an explicit UTF-8 charset
/// preference; any other is served as it is.
pub open spec fn spec_with_charset(m: Seq<u8>) -> Seq<u8> {
    if m.len() >= 5 && m[0] == 116u8 && m[1] == 101u8 && m[2] == 120u8 && m[3] == 116u8 && m[4]
        == 47u8 {
        m + charset_suffix()
    } else {
        m
    }
}

/// The `Content-Type` value for a file name: the media type of its
/// extension, with the UTF-8 charset preference for text types.
pub fn content_type_for(name: &[u8]) -> (r: Vec<u8>)
    ensures
        r@ == spec_with_charset(mime_of(spec_ext(name@))),
{
    let ext = extension_of(name);
    let mut m = mime_lookup(ext.as_slice());
    if m.len() >= 5 && m[0] == 116 && m[1] == 101 && m[2] == 120 && m[3] == 116 && m[4] == 47 {
        let ghost base = m@;
        m.push(59);
        m.push(32);
        m.push(99);
        m.push(104);
        m.push(97);
        m.push(114);
        m.push(115);
        m.push(101);
        m.push(116);
        m.push(61);
        m.push(117);
        m.push(116);
        m.push(102);
        m.push(45);
        m.push(56);
        proof {
            assert(m@ =~= base + charset_suffix());
        }
    }
    m
}

} // verus!
