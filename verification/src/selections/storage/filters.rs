//! What a filter keeps of a sequence.
use vstd::prelude::*;

verus! {

/// A predicate that holds exactly on the run `lo..hi` of a sequence filters
/// that run out of it.
pub proof fn lemma_filter_run<A>(s: Seq<A>, pred: spec_fn(A) -> bool, lo: int, hi: int)
    requires
        0 <= lo <= hi <= s.len(),
        forall|i: int| 0 <= i < s.len() ==> (pred(#[trigger] s[i]) <==> lo <= i < hi),
    ensures
        s.filter(pred) == s.subrange(lo, hi),
    decreases s.len(),
{
    reveal(Seq::filter);
    if s.len() == 0 {
        assert(s.filter(pred) =~= s.subrange(lo, hi));
    } else {
        let rest = s.drop_last();
        let n = s.len() - 1;
        assert(forall|i: int| 0 <= i < rest.len() ==> rest[i] == s[i]);
        if pred(s.last()) {
            lemma_filter_run(rest, pred, lo, n);
            assert(rest.subrange(lo, n).push(s.last()) =~= s.subrange(lo, hi));
        } else if hi <= n {
            lemma_filter_run(rest, pred, lo, hi);
            assert(rest.subrange(lo, hi) =~= s.subrange(lo, hi));
        } else {
            lemma_filter_run(rest, pred, n, n);
            assert(rest.subrange(n, n) =~= s.subrange(lo, hi));
        }
    }
}

/// A predicate that, along a sequence, never holds again once it has failed
/// filters a prefix out of it.
pub proof fn lemma_filter_prefix<A>(s: Seq<A>, pred: spec_fn(A) -> bool)
    requires
        forall|i: int, j: int|
            #![trigger s[i], s[j]]
            0 <= i < j < s.len() && pred(s[j]) ==> pred(s[i]),
    ensures
        s.filter(pred).len() <= s.len(),
        forall|i: int| 0 <= i < s.len() ==> (pred(#[trigger] s[i]) <==> i < s.filter(pred).len()),
    decreases s.len(),
{
    reveal(Seq::filter);
    if s.len() > 0 {
        let rest = s.drop_last();
        assert(forall|i: int| 0 <= i < rest.len() ==> rest[i] == s[i]);
        assert forall|i: int, j: int|
            #![trigger rest[i], rest[j]]
            0 <= i < j < rest.len() && pred(rest[j]) implies pred(rest[i]) by {
            assert(s[i] == rest[i] && s[j] == rest[j]);
        }
        lemma_filter_prefix(rest, pred);
        if pred(s.last()) {
            assert forall|i: int| 0 <= i < rest.len() implies pred(#[trigger] rest[i]) by {
                assert(s[i] == rest[i] && s[s.len() - 1] == s.last());
            }
            if rest.filter(pred).len() < rest.len() {
                assert(pred(rest[rest.filter(pred).len() as int]));
            }
        }
    }
}

/// A predicate that, along a sequence, holds for good once it has held
/// filters a suffix out of it.
pub proof fn lemma_filter_suffix<A>(s: Seq<A>, pred: spec_fn(A) -> bool)
    requires
        forall|i: int, j: int|
            #![trigger s[i], s[j]]
            0 <= i < j < s.len() && pred(s[i]) ==> pred(s[j]),
    ensures
        s.filter(pred).len() <= s.len(),
        forall|i: int|
            0 <= i < s.len() ==> (pred(#[trigger] s[i]) <==> s.len() - s.filter(pred).len() <= i),
    decreases s.len(),
{
    reveal(Seq::filter);
    if s.len() > 0 {
        let rest = s.drop_last();
        assert(forall|i: int| 0 <= i < rest.len() ==> rest[i] == s[i]);
        assert forall|i: int, j: int|
            #![trigger rest[i], rest[j]]
            0 <= i < j < rest.len() && pred(rest[i]) implies pred(rest[j]) by {
            assert(s[i] == rest[i] && s[j] == rest[j]);
        }
        lemma_filter_suffix(rest, pred);
        if !pred(s.last()) {
            assert forall|i: int| 0 <= i < rest.len() implies !pred(#[trigger] rest[i]) by {
                assert(s[i] == rest[i] && s[s.len() - 1] == s.last());
            }
            if rest.filter(pred).len() > 0 {
                assert(pred(rest[rest.len() - rest.filter(pred).len()]));
            }
        }
    }
}

/// The last element for which a predicate holds is the last that a filter
/// keeps.
pub proof fn lemma_filter_last<A>(s: Seq<A>, pred: spec_fn(A) -> bool, i: int)
    requires
        0 <= i < s.len(),
        pred(s[i]),
        forall|k: int| i < k < s.len() ==> !pred(#[trigger] s[k]),
    ensures
        s.filter(pred).len() > 0,
        s.filter(pred).last() == s[i],
    decreases s.len(),
{
    reveal(Seq::filter);
    if i < s.len() - 1 {
        let rest = s.drop_last();
        assert(forall|k: int| 0 <= k < rest.len() ==> rest[k] == s[k]);
        assert(!pred(s[s.len() - 1]));
        lemma_filter_last(rest, pred, i);
    }
}

/// Filtering one element more of a sequence keeps that element or not, and
/// changes nothing before it.
pub proof fn lemma_filter_next<A>(s: Seq<A>, pred: spec_fn(A) -> bool, i: int)
    requires
        0 <= i < s.len(),
    ensures
        s.take(i + 1).filter(pred) == if pred(s[i]) {
            s.take(i).filter(pred).push(s[i])
        } else {
            s.take(i).filter(pred)
        },
{
    reveal(Seq::filter);
    assert(s.take(i + 1).drop_last() =~= s.take(i));
}

/// What a filter keeps are elements of the sequence for which the
/// predicate holds.
pub proof fn lemma_filter_kept<A>(s: Seq<A>, pred: spec_fn(A) -> bool, k: int)
    requires
        0 <= k < s.filter(pred).len(),
    ensures
        pred(s.filter(pred)[k]),
        exists|i: int| 0 <= i < s.len() && #[trigger] s[i] == s.filter(pred)[k],
{
    s.lemma_filter_pred(pred, k);
    let x = s.filter(pred)[k];
    assert(s.filter(pred).contains(x));
    s.lemma_filter_contains_rev(pred, x);
    let i = choose|i: int| 0 <= i < s.len() && s[i] == x;
    assert(s[i] == s.filter(pred)[k]);
}

/// The first element that a filter keeps is the first for which the
/// predicate holds.
pub proof fn lemma_filter_first<A>(s: Seq<A>, pred: spec_fn(A) -> bool, i: int)
    requires
        0 <= i < s.len(),
        pred(s[i]),
        s.take(i).filter(pred).len() == 0,
    ensures
        s.filter(pred).len() > 0,
        s.filter(pred)[0] == s[i],
    decreases s.len() - i,
{
    lemma_filter_next(s, pred, i);
    lemma_filter_grows(s, pred, i + 1);
}

/// What a filter keeps of a prefix it keeps of the whole, in the same
/// places.
pub proof fn lemma_filter_grows<A>(s: Seq<A>, pred: spec_fn(A) -> bool, i: int)
    requires
        0 <= i <= s.len(),
    ensures
        s.take(i).filter(pred).len() <= s.filter(pred).len(),
        forall|k: int|
            0 <= k < s.take(i).filter(pred).len() ==> #[trigger] s.filter(pred)[k] == s.take(
                i,
            ).filter(pred)[k],
    decreases s.len() - i,
{
    if i < s.len() {
        lemma_filter_next(s, pred, i);
        lemma_filter_grows(s, pred, i + 1);
    } else {
        assert(s.take(i) =~= s);
    }
}

} // verus!
