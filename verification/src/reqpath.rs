use vstd::prelude::*;

use crate::util::{hex_digit_of, hex_digit_value, is_hex_digit, lemma_split_pieces, seq_views, spec_split, split_bytes};

verus! {

/// The current-directory path segment, a single dot.
pub open spec fn dot_seg() -> Seq<u8> {
    seq![46u8]
}

/// The parent-directory path segment, two dots.
pub open spec fn dotdot_seg() -> Seq<u8> {
    seq![46u8, 46u8]
}

/// A segment names a hidden entry when it begins with a dot.
pub open spec fn spec_hidden(name: Seq<u8>) -> bool {
    name.len() > 0 && name[0] == 46u8
}

/// Decide whether a single path segment names a hidden entry.
pub fn is_hidden(name: &[u8]) -> (r: bool)
    ensures
        r == spec_hidden(name@),
{
    name.len() > 0 && name[0] == 46u8
}

/// The non-empty pieces of a request path between slashes. Dropping the
/// empty pieces collapses duplicate slashes and makes a trailing slash
/// equivalent to none: `/foo//bar/` has the segments `foo`, `bar`.
pub open spec fn spec_segments(path: Seq<u8>) -> Seq<Seq<u8>> {
    spec_split(path, 47u8).filter(|t: Seq<u8>| t.len() != 0)
}

/// Normalize a request path into its non-empty segments.
pub fn path_segments(path: &[u8]) -> (r: Vec<Vec<u8>>)
    ensures
        seq_views(r@) == spec_segments(path@),
{
    let pieces = split_bytes(path, 47u8);
    let ghost pviews = seq_views(pieces@);
    let mut out: Vec<Vec<u8>> = Vec::new();
    let mut i: usize = 0;
    while i < pieces.len()
        invariant
            0 <= i <= pieces.len(),
            pviews == seq_views(pieces@),
            pviews == spec_split(path@, 47u8),
            seq_views(out@) == pviews.take(i as int).filter(|t: Seq<u8>| t.len() != 0),
        decreases pieces.len() - i,
    {
        let ghost old_out = out@;
        let keep = pieces[i].len() != 0;
        if keep {
            let piece = pieces[i].clone();
            assert(piece@ == pviews[i as int]);
            out.push(piece);
        }
        proof {
            reveal(Seq::filter);
            let pred = |t: Seq<u8>| t.len() != 0;
            assert(pviews.take(i + 1).drop_last() =~= pviews.take(i as int));
            assert(pviews.take(i + 1).last() == pviews[i as int]);
            if keep {
                assert(seq_views(out@) =~= seq_views(old_out).push(pviews[i as int]));
                assert(pviews.take(i + 1).filter(pred) == pviews.take(i as int).filter(pred).push(
                    pviews[i as int],
                ));
            } else {
                assert(pviews.take(i + 1).filter(pred) == pviews.take(i as int).filter(pred));
            }
        }
        i = i + 1;
    }
    proof {
        assert(pviews.take(pieces@.len() as int) =~= pviews);
    }
    out
}

/// Resolve the relative segments of a request against the root: a `.`
/// segment is dropped, a `..` segment removes the segment before it, and a
/// `..` with nothing before it escapes the root, on which resolution fails.
pub open spec fn spec_resolve(segs: Seq<Seq<u8>>) -> Option<Seq<Seq<u8>>>
    decreases segs.len(),
{
    if segs.len() == 0 {
        Some(Seq::empty())
    } else {
        match spec_resolve(segs.drop_last()) {
            None => None,
            Some(pre) => {
                if segs.last() == dot_seg() {
                    Some(pre)
                } else if segs.last() == dotdot_seg() {
                    if pre.len() == 0 {
                        None
                    } else {
                        Some(pre.drop_last())
                    }
                } else {
                    Some(pre.push(segs.last()))
                }
            },
        }
    }
}

/// What became of a request path once resolved against the root.
#[derive(Debug, PartialEq, Eq)]
pub enum Resolved {
    /// The path walks out of the root directory: fail closed.
    Escapes,
    /// The path reaches a hidden entry while hidden entries are not served.
    HiddenDenied,
    /// The path stays within the root; the segments lead to the target.
    Within(Vec<Vec<u8>>),
}

/// Some segment of a resolved path names a hidden entry.
pub open spec fn any_hidden(v: Seq<Seq<u8>>) -> bool {
    exists|i: int| 0 <= i < v.len() && spec_hidden(v[i])
}

/// Normalize and resolve a request path, applying the hidden-file policy.
///
/// The escape guard comes first; a surviving path is then refused when some
/// resolved segment is hidden and `show_hidden` is off.
pub fn resolve_path(path: &[u8], show_hidden: bool) -> (r: Resolved)
    ensures
        (r is Escapes) <==> spec_resolve(spec_segments(path@)) is None,
        (r is HiddenDenied) <==> (spec_resolve(spec_segments(path@)) is Some && !show_hidden
            && any_hidden(spec_resolve(spec_segments(path@))->Some_0)),
        (r is Within) ==> spec_resolve(spec_segments(path@)) == Some(seq_views(r->Within_0@)) && (
        show_hidden || !any_hidden(seq_views(r->Within_0@))),
{
    let segs = path_segments(path);
    let ghost sviews = seq_views(segs@);
    let mut stack: Vec<Vec<u8>> = Vec::new();
    let mut i: usize = 0;
    while i < segs.len()
        invariant
            0 <= i <= segs.len(),
            sviews == seq_views(segs@),
            sviews == spec_segments(path@),
            spec_resolve(sviews.take(i as int)) == Some(seq_views(stack@)),
        decreases segs.len() - i,
    {
        let ghost old_stack = stack@;
        let seg = &segs[i];
        proof {
            assert(sviews.take(i + 1).drop_last() =~= sviews.take(i as int));
            assert(sviews.take(i + 1).last() == seg@);
        }
        if seg.len() == 1 && seg[0] == 46u8 {
            proof {
                assert(seg@ =~= dot_seg());
            }
        } else if seg.len() == 2 && seg[0] == 46u8 && seg[1] == 46u8 {
            proof {
                assert(seg@ =~= dotdot_seg());
            }
            if stack.len() == 0 {
                proof {
                    assert(spec_resolve(sviews.take(i + 1)) is None);
                    lemma_resolve_none_extends(sviews, i + 1);
                }
                return Resolved::Escapes;
            } else {
                stack.pop();
                proof {
                    assert(seq_views(stack@) =~= seq_views(old_stack).drop_last());
                }
            }
        } else {
            proof {
                assert(seg@ != dot_seg());
                assert(seg@ != dotdot_seg());
            }
            let s = seg.clone();
            stack.push(s);
            proof {
                assert(seq_views(stack@) =~= seq_views(old_stack).push(seg@));
            }
        }
        i = i + 1;
    }
    proof {
        assert(sviews.take(segs@.len() as int) =~= sviews);
    }
    if !show_hidden {
        let mut j: usize = 0;
        while j < stack.len()
            invariant
                0 <= j <= stack.len(),
                !show_hidden,
                spec_resolve(spec_segments(path@)) == Some(seq_views(stack@)),
                forall|k: int| 0 <= k < j ==> !spec_hidden(seq_views(stack@)[k]),
            decreases stack.len() - j,
        {
            if is_hidden(stack[j].as_slice()) {
                proof {
                    assert(0 <= (j as int) && (j as int) < seq_views(stack@).len() && spec_hidden(
                        seq_views(stack@)[j as int],
                    ));
                    assert(any_hidden(seq_views(stack@)));
                }
                return Resolved::HiddenDenied;
            }
            j = j + 1;
        }
    }
    Resolved::Within(stack)
}

/// A request path with its percent-escapes decoded; a malformed escape (a
/// `%` not followed by two hex digits) stays as it is.
pub open spec fn spec_pct_decode(s: Seq<u8>) -> Seq<u8>
    decreases s.len(),
{
    if s.len() == 0 {
        Seq::empty()
    } else if s[0] == 37u8 && s.len() >= 3 && is_hex_digit(s[1]) && is_hex_digit(s[2]) {
        seq![(16 * hex_digit_value(s[1]) + hex_digit_value(s[2])) as u8] + spec_pct_decode(
            s.skip(3),
        )
    } else {
        seq![s[0]] + spec_pct_decode(s.skip(1))
    }
}

/// Decode the percent-escapes of a request path.
pub fn percent_decode(s: &[u8]) -> (r: Vec<u8>)
    ensures
        r@ == spec_pct_decode(s@),
{
    let mut out: Vec<u8> = Vec::new();
    let mut i: usize = 0;
    proof {
        assert(s@.skip(0) =~= s@);
    }
    while i < s.len()
        invariant
            0 <= i <= s.len(),
            spec_pct_decode(s@) == out@ + spec_pct_decode(s@.skip(i as int)),
        decreases s.len() - i,
    {
        let ghost prev = out@;
        let ghost rest = s@.skip(i as int);
        let c = s[i];
        proof {
            assert(rest[0] == s@[i as int]);
            if i + 2 < s.len() {
                assert(rest[1] == s@[i + 1]);
                assert(rest[2] == s@[i + 2]);
            }
        }
        let mut decoded = false;
        if c == 37 && s.len() - i > 2 {
            let h1 = hex_digit_of(s[i + 1]);
            let h2 = hex_digit_of(s[i + 2]);
            if h1.is_some() && h2.is_some() {
                let a = h1.unwrap();
                let b = h2.unwrap();
                out.push(16 * a + b);
                decoded = true;
                proof {
                    assert(rest.skip(3) =~= s@.skip(i + 3));
                    assert(out@ =~= prev + seq![
                        (16 * hex_digit_value(rest[1]) + hex_digit_value(rest[2])) as u8,
                    ]);
                    assert(prev + (seq![
                        (16 * hex_digit_value(rest[1]) + hex_digit_value(rest[2])) as u8,
                    ] + spec_pct_decode(rest.skip(3))) =~= out@ + spec_pct_decode(s@.skip(i + 3)));
                }
                i = i + 3;
            }
        }
        if !decoded {
            out.push(c);
            proof {
                assert(rest.skip(1) =~= s@.skip(i + 1));
                assert(out@ =~= prev + seq![rest[0]]);
                assert(prev + (seq![rest[0]] + spec_pct_decode(rest.skip(1))) =~= out@
                    + spec_pct_decode(s@.skip(i + 1)));
            }
            i = i + 1;
        }
    }
    proof {
        assert(s@.skip(s@.len() as int) =~= Seq::<u8>::empty());
        assert(out@ + spec_pct_decode(Seq::<u8>::empty()) =~= out@);
    }
    out
}

/// What the filesystem holds at a resolved path.
#[derive(Debug, PartialEq, Eq, Clone, Copy)]
pub enum FsNode {
    /// Nothing exists there.
    Missing,
    /// A regular file.
    File,
    /// A directory.
    Dir,
}

/// How a request within the root is answered.
#[derive(Debug, PartialEq, Eq, Clone, Copy)]
pub enum Action {
    /// The target does not exist: not found.
    NotFound,
    /// The target is a regular file: stream it.
    ServeFile,
    /// The target is a directory holding the configured index file: serve
    /// that file.
    ServeIndex,
    /// The target is a directory without the index file: serve a generated
    /// listing of its entries.
    Listing,
}

/// Resolve a raw request path: decode its percent-escapes, then normalize,
/// resolve against the root and apply the hidden-file policy. Decoding
/// comes first, so an escaped `..` meets the traversal guard like a
/// literal one.
pub fn resolve_request_path(path: &[u8], show_hidden: bool) -> (r: Resolved)
    ensures
        (r is Escapes) <==> spec_resolve(spec_segments(spec_pct_decode(path@))) is None,
        (r is HiddenDenied) <==> (spec_resolve(spec_segments(spec_pct_decode(path@))) is Some
            && !show_hidden && any_hidden(spec_resolve(spec_segments(spec_pct_decode(path@)))->Some_0)),
        (r is Within) ==> spec_resolve(spec_segments(spec_pct_decode(path@))) == Some(seq_views(r->Within_0@))
            && (show_hidden || !any_hidden(seq_views(r->Within_0@))),
{
    let decoded = percent_decode(path);
    resolve_path(decoded.as_slice(), show_hidden)
}

/// Choose the response for a path that stays within the root, from what the
/// filesystem holds there and whether the configured index file exists in a
/// directory target.
pub fn classify(node: &FsNode, index_exists: bool) -> (r: Action)
    ensures
        (r is NotFound) <==> (node is Missing),
        (r is ServeFile) <==> (node is File),
        (r is ServeIndex) <==> (node is Dir && index_exists),
        (r is Listing) <==> (node is Dir && !index_exists),
{
    match node {
        FsNode::Missing => Action::NotFound,
        FsNode::File => Action::ServeFile,
        FsNode::Dir => if index_exists {
            Action::ServeIndex
        } else {
            Action::Listing
        },
    }
}

/// A resolved segment is clean: non-empty, no relative step left, and free
/// of slashes, so it names exactly one child of the directory above it.
pub open spec fn clean_seg(t: Seq<u8>) -> bool {
    t.len() > 0 && t != dot_seg() && t != dotdot_seg() && (forall|j: int|
        0 <= j < t.len() ==> t[j] != 47u8)
}

/// Filtering keeps a property that all elements of a sequence have.
proof fn lemma_filter_preserves(
    s: Seq<Seq<u8>>,
    pred: spec_fn(Seq<u8>) -> bool,
    q: spec_fn(Seq<u8>) -> bool,
)
    requires
        forall|i: int| 0 <= i < s.len() ==> q(s[i]),
    ensures
        forall|i: int| 0 <= i < s.filter(pred).len() ==> q(#[trigger] s.filter(pred)[i]),
    decreases s.len(),
{
    reveal(Seq::filter);
    if s.len() > 0 {
        lemma_filter_preserves(s.drop_last(), pred, q);
        let out = s.filter(pred);
        let sub = s.drop_last().filter(pred);
        assert forall|i: int| 0 <= i < out.len() implies q(#[trigger] out[i]) by {
            if pred(s.last()) && i == out.len() - 1 {
                assert(out[i] == s.last());
            } else {
                assert(out[i] == sub[i]);
            }
        }
    }
}

/// Resolution of clean-or-relative segments yields only clean segments.
proof fn lemma_resolve_clean(segs: Seq<Seq<u8>>)
    requires
        forall|i: int|
            0 <= i < segs.len() ==> (#[trigger] segs[i]).len() > 0 && (forall|j: int|
                0 <= j < segs[i].len() ==> segs[i][j] != 47u8),
        spec_resolve(segs) is Some,
    ensures
        forall|i: int|
            0 <= i < spec_resolve(segs)->Some_0.len() ==> clean_seg(
                #[trigger] spec_resolve(segs)->Some_0[i],
            ),
    decreases segs.len(),
{
    if segs.len() > 0 {
        assert(spec_resolve(segs.drop_last()) is Some);
        lemma_resolve_clean(segs.drop_last());
        let pre = spec_resolve(segs.drop_last())->Some_0;
        let v = spec_resolve(segs)->Some_0;
        let last = segs.last();
        if last == dot_seg() || last == dotdot_seg() {
            assert(forall|i: int| 0 <= i < v.len() ==> v[i] == pre[i]);
        } else {
            assert(clean_seg(last));
            assert(forall|i: int| 0 <= i < v.len() - 1 ==> v[i] == pre[i]);
            assert(v.last() == last);
        }
    }
}

/// A path that resolves within the root cannot reach outside it: every
/// resolved segment is non-empty, is neither `.` nor `..`, and holds no
/// slash, so each names one child of the directory above it and joining
/// them under the root stays under the root.
pub proof fn lemma_resolved_within_root(path: Seq<u8>, v: Seq<Seq<u8>>)
    requires
        spec_resolve(spec_segments(path)) == Some(v),
    ensures
        forall|i: int| 0 <= i < v.len() ==> clean_seg(#[trigger] v[i]),
{
    let pieces = spec_split(path, 47u8);
    let pred = |t: Seq<u8>| t.len() != 0;
    lemma_split_pieces(path, 47u8);
    let q = |t: Seq<u8>| t.len() > 0 && (forall|j: int| 0 <= j < t.len() ==> t[j] != 47u8);
    assert forall|i: int| 0 <= i < spec_segments(path).len() implies q(
        #[trigger] spec_segments(path)[i],
    ) by {
        assert forall|i: int| 0 <= i < pieces.len() implies q(#[trigger] pieces[i]) || pieces[i]
            =~= Seq::<u8>::empty() by {
            assert(forall|j: int| 0 <= j < pieces[i].len() ==> pieces[i][j] != 47u8);
        }
        let qq = |t: Seq<u8>| q(t) || t =~= Seq::<u8>::empty();
        lemma_filter_preserves(pieces, pred, qq);
        pieces.lemma_filter_pred(pred, i);
        assert(qq(spec_segments(path)[i]));
    }
    let segs = spec_segments(path);
    assert(forall|i: int|
        0 <= i < segs.len() ==> (#[trigger] segs[i]).len() > 0 && (forall|j: int|
            0 <= j < segs[i].len() ==> segs[i][j] != 47u8));
    lemma_resolve_clean(segs);
    assert(spec_resolve(segs)->Some_0 == v);
}

/// Once a prefix of the segments escapes the root, the whole path does.
pub proof fn lemma_resolve_none_extends(segs: Seq<Seq<u8>>, i: int)
    requires
        0 <= i <= segs.len(),
        spec_resolve(segs.take(i)) is None,
    ensures
        spec_resolve(segs) is None,
    decreases segs.len() - i,
{
    if i == segs.len() {
        assert(segs.take(i) =~= segs);
    } else {
        assert(segs.take(i + 1).drop_last() =~= segs.take(i));
        lemma_resolve_none_extends(segs, i + 1);
    }
}

} // verus!
