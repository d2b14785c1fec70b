use vstd::prelude::*;

verus! {

/// The views of a sequence of byte vectors, element by element.
pub open spec fn seq_views(v: Seq<Vec<u8>>) -> Seq<Seq<u8>> {
    Seq::new(v.len(), |i: int| v[i]@)
}

/// Splitting `s` on `sep`, having consumed the first `i` bytes with `cur`
/// holding the piece begun and not yet ended. Every separator ends a piece,
/// so empty pieces are kept: splitting `a..b` on `.` gives `a`, ``, `b`.
pub open spec fn split_from(s: Seq<u8>, sep: u8, i: int, cur: Seq<u8>) -> Seq<Seq<u8>>
    decreases s.len() - i when 0 <= i <= s.len()
{
    if i == s.len() {
        seq![cur]
    } else if s[i] == sep {
        seq![cur] + split_from(s, sep, i + 1, Seq::empty())
    } else {
        split_from(s, sep, i + 1, cur.push(s[i]))
    }
}

/// The pieces of `s` between occurrences of `sep`, in order.
pub open spec fn spec_split(s: Seq<u8>, sep: u8) -> Seq<Seq<u8>> {
    split_from(s, sep, 0, Seq::empty())
}

/// Split a byte string on a separator, keeping empty pieces.
pub fn split_bytes(s: &[u8], sep: u8) -> (r: Vec<Vec<u8>>)
    ensures
        seq_views(r@) == spec_split(s@, sep),
{
    let mut out: Vec<Vec<u8>> = Vec::new();
    let mut cur: Vec<u8> = Vec::new();
    let mut i: usize = 0;
    while i < s.len()
        invariant
            0 <= i <= s.len(),
            seq_views(out@) + split_from(s@, sep, i as int, cur@) == spec_split(s@, sep),
        decreases s.len() - i,
    {
        if s[i] == sep {
            let ghost old_out = out@;
            let ghost old_cur = cur@;
            out.push(cur);
            cur = Vec::new();
            proof {
                assert(seq_views(out@) =~= seq_views(old_out) + seq![old_cur]);
                assert(seq_views(old_out) + (seq![old_cur] + split_from(
                    s@,
                    sep,
                    i + 1,
                    Seq::empty(),
                )) =~= (seq_views(old_out) + seq![old_cur]) + split_from(
                    s@,
                    sep,
                    i + 1,
                    Seq::empty(),
                ));
            }
        } else {
            cur.push(s[i]);
        }
        i = i + 1;
    }
    let ghost old_out = out@;
    let ghost old_cur = cur@;
    out.push(cur);
    proof {
        assert(seq_views(out@) =~= seq_views(old_out) + seq![old_cur]);
    }
    out
}

/// Append a byte string to a buffer.
pub fn push_all(dst: &mut Vec<u8>, src: &[u8])
    ensures
        final(dst)@ == old(dst)@ + src@,
{
    let mut i: usize = 0;
    while i < src.len()
        invariant
            0 <= i <= src.len(),
            dst@ == old(dst)@ + src@.take(i as int),
        decreases src.len() - i,
    {
        let ghost prev = dst@;
        dst.push(src[i]);
        proof {
            assert(old(dst)@ + src@.take(i + 1) =~= prev.push(src@[i as int]));
        }
        i = i + 1;
    }
    proof {
        assert(src@.take(src@.len() as int) =~= src@);
    }
}

/// An ASCII hex digit, either case.
pub open spec fn is_hex_digit(c: u8) -> bool {
    (48 <= c && c <= 57) || (97 <= c && c <= 102) || (65 <= c && c <= 70)
}

/// The value of an ASCII hex digit.
pub open spec fn hex_digit_value(c: u8) -> int {
    if 48 <= c && c <= 57 {
        c - 48
    } else if 97 <= c && c <= 102 {
        c - 87
    } else {
        c - 55
    }
}

/// Read one hex digit, of either case.
pub fn hex_digit_of(c: u8) -> (r: Option<u8>)
    ensures
        (r is Some) <==> is_hex_digit(c),
        r matches Some(v) ==> v as int == hex_digit_value(c) && v < 16,
{
    if 48 <= c && c <= 57 {
        Some(c - 48)
    } else if 97 <= c && c <= 102 {
        Some(c - 87)
    } else if 65 <= c && c <= 70 {
        Some(c - 55)
    } else {
        None
    }
}

/// Compare two byte strings for equality.
pub fn eq_bytes(a: &[u8], b: &[u8]) -> (r: bool)
    ensures
        r <==> a@ == b@,
{
    if a.len() != b.len() {
        return false;
    }
    let mut i: usize = 0;
    while i < a.len()
        invariant
            0 <= i <= a.len(),
            a@.len() == b@.len(),
            forall|k: int| 0 <= k < i ==> a@[k] == b@[k],
        decreases a.len() - i,
    {
        if a[i] != b[i] {
            return false;
        }
        i = i + 1;
    }
    proof {
        assert(a@ =~= b@);
    }
    true
}

/// A byte string without the separator splits into itself alone.
pub proof fn lemma_split_from_no_sep(s: Seq<u8>, sep: u8, i: int, cur: Seq<u8>)
    requires
        0 <= i <= s.len(),
        forall|j: int| i <= j < s.len() ==> s[j] != sep,
    ensures
        split_from(s, sep, i, cur) == seq![cur + s.skip(i)],
    decreases s.len() - i,
{
    if i == s.len() {
        assert(cur + s.skip(i) =~= cur);
    } else {
        lemma_split_from_no_sep(s, sep, i + 1, cur.push(s[i]));
        assert(cur.push(s[i]) + s.skip(i + 1) =~= cur + s.skip(i));
    }
}

/// A byte string without the separator splits into itself alone.
pub proof fn lemma_split_no_sep(s: Seq<u8>, sep: u8)
    requires
        forall|j: int| 0 <= j < s.len() ==> s[j] != sep,
    ensures
        spec_split(s, sep) == seq![s],
{
    lemma_split_from_no_sep(s, sep, 0, Seq::empty());
    assert(Seq::<u8>::empty() + s.skip(0) =~= s);
}

/// No piece of a split contains the separator.
pub proof fn lemma_split_from_pieces(s: Seq<u8>, sep: u8, i: int, cur: Seq<u8>)
    requires
        0 <= i <= s.len(),
        forall|j: int| 0 <= j < cur.len() ==> cur[j] != sep,
    ensures
        forall|k: int, j: int|
            0 <= k < split_from(s, sep, i, cur).len() && 0 <= j < split_from(
                s,
                sep,
                i,
                cur,
            )[k].len() ==> split_from(s, sep, i, cur)[k][j] != sep,
    decreases s.len() - i,
{
    if i == s.len() {
        assert(split_from(s, sep, i, cur) =~= seq![cur]);
    } else if s[i] == sep {
        lemma_split_from_pieces(s, sep, i + 1, Seq::empty());
        assert forall|k: int, j: int|
            0 <= k < split_from(s, sep, i, cur).len() && 0 <= j < split_from(
                s,
                sep,
                i,
                cur,
            )[k].len() implies split_from(s, sep, i, cur)[k][j] != sep by {
            if k == 0 {
                assert(split_from(s, sep, i, cur)[0] == cur);
            } else {
                assert(split_from(s, sep, i, cur)[k] == split_from(s, sep, i + 1, Seq::empty())[k
                    - 1]);
            }
        }
    } else {
        assert(forall|j: int| 0 <= j < cur.push(s[i]).len() ==> cur.push(s[i])[j] != sep);
        lemma_split_from_pieces(s, sep, i + 1, cur.push(s[i]));
        assert(split_from(s, sep, i, cur) == split_from(s, sep, i + 1, cur.push(s[i])));
    }
}

/// No piece of a split contains the separator.
pub proof fn lemma_split_pieces(s: Seq<u8>, sep: u8)
    ensures
        forall|k: int, j: int|
            0 <= k < spec_split(s, sep).len() && 0 <= j < spec_split(s, sep)[k].len()
                ==> spec_split(s, sep)[k][j] != sep,
{
    lemma_split_from_pieces(s, sep, 0, Seq::empty());
}

} // verus!
