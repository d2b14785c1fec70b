use vstd::prelude::*;

use crate::reqpath::spec_hidden;
use crate::util::{push_all, seq_views};

verus! {

/// Byte-lexicographic order on names: the order of the first differing
/// byte, a prefix before what extends it.
pub open spec fn spec_lex_le(a: Seq<u8>, b: Seq<u8>) -> bool
    decreases a.len(),
{
    if a.len() == 0 {
        true
    } else if b.len() == 0 {
        false
    } else if a[0] < b[0] {
        true
    } else if a[0] > b[0] {
        false
    } else {
        spec_lex_le(a.drop_first(), b.drop_first())
    }
}

/// Any two names are ordered one way or the other.
pub proof fn lemma_lex_total(a: Seq<u8>, b: Seq<u8>)
    ensures
        spec_lex_le(a, b) || spec_lex_le(b, a),
    decreases a.len(),
{
    if a.len() > 0 && b.len() > 0 && a[0] == b[0] {
        lemma_lex_total(a.drop_first(), b.drop_first());
    }
}

/// Compare two names byte-lexicographically.
pub fn lex_le(a: &[u8], b: &[u8]) -> (r: bool)
    ensures
        r == spec_lex_le(a@, b@),
{
    let mut i: usize = 0;
    proof {
        assert(a@.skip(0) =~= a@);
        assert(b@.skip(0) =~= b@);
    }
    while i < a.len() && i < b.len() && a[i] == b[i]
        invariant
            0 <= i <= a.len(),
            0 <= i <= b.len(),
            spec_lex_le(a@, b@) == spec_lex_le(a@.skip(i as int), b@.skip(i as int)),
        decreases a.len() - i,
    {
        proof {
            assert(a@.skip(i as int)[0] == a@[i as int]);
            assert(b@.skip(i as int)[0] == b@[i as int]);
            assert(a@.skip(i as int).drop_first() =~= a@.skip(i + 1));
            assert(b@.skip(i as int).drop_first() =~= b@.skip(i + 1));
        }
        i = i + 1;
    }
    proof {
        if i < a.len() {
            assert(a@.skip(i as int)[0] == a@[i as int]);
        }
        if i < b.len() {
            assert(b@.skip(i as int)[0] == b@[i as int]);
        }
        if i >= a.len() {
            assert(a@.skip(i as int).len() == 0);
        } else if i >= b.len() {
            assert(b@.skip(i as int).len() == 0);
        }
    }
    if i >= a.len() {
        true
    } else if i >= b.len() {
        false
    } else {
        a[i] < b[i]
    }
}

/// The names stand in byte-lexicographic order.
pub open spec fn sorted_names(v: Seq<Seq<u8>>) -> bool {
    forall|i: int| 0 <= i < v.len() - 1 ==> spec_lex_le(#[trigger] v[i], v[i + 1])
}

/// Insert a name into a sorted list, keeping it sorted.
fn insert_sorted(v: &mut Vec<Vec<u8>>, x: Vec<u8>)
    requires
        sorted_names(seq_views(old(v)@)),
    ensures
        sorted_names(seq_views(final(v)@)),
        seq_views(final(v)@).to_multiset() == seq_views(old(v)@).to_multiset().insert(x@),
{
    broadcast use vstd::seq_lib::group_to_multiset_ensures;

    let mut p: usize = 0;
    while p < v.len() && lex_le(v[p].as_slice(), x.as_slice())
        invariant
            0 <= p <= v.len(),
            forall|k: int| 0 <= k < p ==> spec_lex_le(seq_views(v@)[k], x@),
        decreases v.len() - p,
    {
        p = p + 1;
    }
    proof {
        if p < v@.len() {
            lemma_lex_total(seq_views(v@)[p as int], x@);
            assert(spec_lex_le(x@, seq_views(v@)[p as int]));
        }
    }
    let ghost oldv = seq_views(v@);
    v.insert(p, x);
    proof {
        let newv = seq_views(v@);
        assert(newv =~= oldv.insert(p as int, x@));
        assert(newv.remove(p as int) =~= oldv);
        assert(newv[p as int] == x@);
        assert(newv.remove(p as int).to_multiset() =~= newv.to_multiset().remove(x@));
        assert(newv.contains(x@));
        assert(newv.to_multiset().count(x@) > 0);
        assert(newv.to_multiset() =~= oldv.to_multiset().insert(x@));
        assert forall|i: int| 0 <= i < newv.len() - 1 implies spec_lex_le(
            #[trigger] newv[i],
            newv[i + 1],
        ) by {
            if i + 1 < p {
                assert(newv[i] == oldv[i] && newv[i + 1] == oldv[i + 1]);
            } else if i + 1 == p {
                assert(newv[i] == oldv[i] && newv[i + 1] == x@);
            } else if i == p {
                assert(newv[i] == x@ && newv[i + 1] == oldv[i]);
            } else {
                assert(newv[i] == oldv[i - 1] && newv[i + 1] == oldv[i]);
            }
        }
    }
}

/// Sort names byte-lexicographically. The result holds exactly the given
/// names, in a deterministic order.
pub fn sort_names(names: Vec<Vec<u8>>) -> (r: Vec<Vec<u8>>)
    ensures
        sorted_names(seq_views(r@)),
        seq_views(r@).to_multiset() == seq_views(names@).to_multiset(),
{
    broadcast use vstd::seq_lib::group_to_multiset_ensures;

    let ghost nviews = seq_views(names@);
    let mut out: Vec<Vec<u8>> = Vec::new();
    let mut i: usize = 0;
    proof {
        assert(seq_views(out@) =~= Seq::<Seq<u8>>::empty());
        assert(nviews.take(0) =~= Seq::<Seq<u8>>::empty());
        assert(seq_views(out@).to_multiset() =~= nviews.take(0).to_multiset());
    }
    while i < names.len()
        invariant
            0 <= i <= names.len(),
            nviews == seq_views(names@),
            sorted_names(seq_views(out@)),
            seq_views(out@).to_multiset() == nviews.take(i as int).to_multiset(),
        decreases names.len() - i,
    {
        broadcast use vstd::seq_lib::group_to_multiset_ensures;

        let x = names[i].clone();
        proof {
            assert(x@ == nviews[i as int]);
            assert(nviews.take(i + 1) =~= nviews.take(i as int).push(nviews[i as int]));
            assert(nviews.take(i as int).push(nviews[i as int]).to_multiset() =~= nviews.take(
                i as int,
            ).to_multiset().insert(nviews[i as int]));
        }
        insert_sorted(&mut out, x);
        i = i + 1;
    }
    proof {
        assert(nviews.take(names@.len() as int) =~= nviews);
    }
    out
}

/// Drop the hidden names from a directory's entries when hidden entries
/// are not served; with `show_hidden` on, every entry stays. A listing
/// then shows exactly the children that the hidden-file policy lets a
/// request reach.
pub fn visible_names(names: Vec<Vec<u8>>, show_hidden: bool) -> (r: Vec<Vec<u8>>)
    ensures
        show_hidden ==> seq_views(r@) == seq_views(names@),
        !show_hidden ==> seq_views(r@) == seq_views(names@).filter(
            |t: Seq<u8>| !spec_hidden(t),
        ),
{
    if show_hidden {
        return names;
    }
    let ghost nviews = seq_views(names@);
    let mut out: Vec<Vec<u8>> = Vec::new();
    let mut i: usize = 0;
    while i < names.len()
        invariant
            0 <= i <= names.len(),
            nviews == seq_views(names@),
            seq_views(out@) == nviews.take(i as int).filter(|t: Seq<u8>| !spec_hidden(t)),
        decreases names.len() - i,
    {
        let ghost old_out = out@;
        let keep = !crate::reqpath::is_hidden(names[i].as_slice());
        if keep {
            let name = names[i].clone();
            assert(name@ == nviews[i as int]);
            out.push(name);
        }
        proof {
            reveal(Seq::filter);
            let pred = |t: Seq<u8>| !spec_hidden(t);
            assert(nviews.take(i + 1).drop_last() =~= nviews.take(i as int));
            assert(nviews.take(i + 1).last() == nviews[i as int]);
            if keep {
                assert(seq_views(out@) =~= seq_views(old_out).push(nviews[i as int]));
                assert(nviews.take(i + 1).filter(pred) == nviews.take(i as int).filter(pred).push(
                    nviews[i as int],
                ));
            } else {
                assert(nviews.take(i + 1).filter(pred) == nviews.take(i as int).filter(pred));
            }
        }
        i = i + 1;
    }
    proof {
        assert(nviews.take(names@.len() as int) =~= nviews);
    }
    out
}

/// The rendered listing: each name on a line of its own, in order.
pub open spec fn spec_listing(names: Seq<Seq<u8>>) -> Seq<u8>
    decreases names.len(),
{
    if names.len() == 0 {
        Seq::empty()
    } else {
        spec_listing(names.drop_last()) + names.last() + seq![10u8]
    }
}

/// A rendered listing shows every name it was given: each stands in the
/// body, terminated by the newline that ends its line.
pub proof fn lemma_listing_contains(names: Seq<Seq<u8>>, i: int)
    requires
        0 <= i < names.len(),
    ensures
        exists|p: int|
            0 <= p && p + names[i].len() + 1 <= spec_listing(names).len() && #[trigger] spec_listing(
                names,
            ).subrange(p, p + names[i].len() as int) == names[i] && spec_listing(names)[p
                + names[i].len()] == 10u8,
    decreases names.len(),
{
    let body = spec_listing(names);
    if i == names.len() - 1 {
        let pre = spec_listing(names.drop_last());
        let p = pre.len() as int;
        assert(body =~= pre + names[i] + seq![10u8]);
        assert(body.subrange(p, p + names[i].len() as int) =~= names[i]);
        assert(body[p + names[i].len()] == 10u8);
        assert(0 <= p && p + names[i].len() + 1 <= body.len() && body.subrange(
            p,
            p + names[i].len() as int,
        ) == names[i] && body[p + names[i].len()] == 10u8);
    } else {
        lemma_listing_contains(names.drop_last(), i);
        let pre = spec_listing(names.drop_last());
        let nm = names.drop_last()[i];
        assert(nm == names[i]);
        let p = choose|p: int|
            0 <= p && p + nm.len() + 1 <= pre.len() && #[trigger] pre.subrange(
                p,
                p + nm.len() as int,
            ) == nm && pre[p + nm.len()] == 10u8;
        assert(body =~= pre + names.last() + seq![10u8]);
        assert(body.subrange(p, p + names[i].len() as int) =~= pre.subrange(
            p,
            p + nm.len() as int,
        ));
        assert(body[p + names[i].len()] == pre[p + nm.len()]);
        assert(0 <= p && p + names[i].len() + 1 <= body.len() && body.subrange(
            p,
            p + names[i].len() as int,
        ) == names[i] && body[p + names[i].len()] == 10u8);
    }
}

/// Render a directory listing: the given names, one per line, in the order
/// given. Sorting first makes the page deterministic.
pub fn render_listing(names: &Vec<Vec<u8>>) -> (r: Vec<u8>)
    ensures
        r@ == spec_listing(seq_views(names@)),
{
    let ghost nviews = seq_views(names@);
    let mut out: Vec<u8> = Vec::new();
    let mut i: usize = 0;
    proof {
        assert(nviews.take(0) =~= Seq::<Seq<u8>>::empty());
    }
    while i < names.len()
        invariant
            0 <= i <= names.len(),
            nviews == seq_views(names@),
            out@ == spec_listing(nviews.take(i as int)),
        decreases names.len() - i,
    {
        let ghost prev = out@;
        push_all(&mut out, names[i].as_slice());
        out.push(10);
        proof {
            assert(nviews.take(i + 1).drop_last() =~= nviews.take(i as int));
            assert(nviews.take(i + 1).last() == nviews[i as int]);
            assert(out@ =~= prev + nviews[i as int] + seq![10u8]);
        }
        i = i + 1;
    }
    proof {
        assert(nviews.take(names@.len() as int) =~= nviews);
    }
    out
}

} // verus!
