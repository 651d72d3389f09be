//! Runs: stretches of equal neighbours in a list of keys.
use itertools::Itertools;
use vstd::prelude::*;

verus! {

/// The lengths as integers.
pub open spec fn lengths_of(lengths: Seq<usize>) -> Seq<int> {
    lengths.map_values(|length: usize| length as int)
}

/// The lengths of the runs of `keys`, in order. A run is a stretch of equal
/// keys that is as long as it can be: each key either makes the run before
/// it one longer or begins a run of its own.
pub open spec fn runs<K>(keys: Seq<K>) -> Seq<int>
    decreases keys.len(),
{
    if keys.len() == 0 {
        Seq::empty()
    } else if keys.len() == 1 {
        seq![1int]
    } else {
        let before = runs(keys.drop_last());
        if keys[keys.len() - 1] == keys[keys.len() - 2] {
            before.drop_last().push(before.last() + 1)
        } else {
            before.push(1int)
        }
    }
}

/// The sum of `lengths`.
pub open spec fn total(lengths: Seq<int>) -> int
    decreases lengths.len(),
{
    if lengths.len() == 0 {
        0
    } else {
        total(lengths.drop_last()) + lengths.last()
    }
}

/// For each element of runs of the given lengths, its place within its
/// run, counted from 1.
pub open spec fn ranks(lengths: Seq<int>) -> Seq<int>
    decreases lengths.len(),
{
    if lengths.len() == 0 {
        Seq::empty()
    } else {
        ranks(lengths.drop_last()) + Seq::new(lengths.last() as nat, |j: int| j + 1)
    }
}

/// The runs of a list of keys are not empty, and together they are as long
/// as the list.
pub proof fn lemma_runs_total<K>(keys: Seq<K>)
    ensures
        total(runs(keys)) == keys.len(),
        keys.len() > 0 ==> runs(keys).len() > 0,
        forall|k: int| 0 <= k < runs(keys).len() ==> 1 <= #[trigger] runs(keys)[k] <= keys.len(),
    decreases keys.len(),
{
    if keys.len() == 1 {
        assert(runs(keys).drop_last() =~= Seq::empty());
        assert(total(runs(keys)) == total(Seq::empty()) + 1);
    } else if keys.len() > 1 {
        let before = runs(keys.drop_last());
        lemma_runs_total(keys.drop_last());
        if keys[keys.len() - 1] == keys[keys.len() - 2] {
            let grown = before.drop_last().push(before.last() + 1);
            assert(grown.drop_last() =~= before.drop_last());
            assert(runs(keys) == grown);
            assert forall|k: int| 0 <= k < grown.len() implies 1 <= #[trigger] grown[k]
                <= keys.len() by {
                if k < grown.len() - 1 {
                    assert(grown[k] == before[k]);
                }
            }
        } else {
            assert(before.push(1int).drop_last() =~= before);
            assert forall|k: int| 0 <= k < runs(keys).len() implies 1 <= #[trigger] runs(keys)[k]
                <= keys.len() by {
                if k < before.len() {
                    assert(runs(keys)[k] == before[k]);
                }
            }
        }
    }
}

/// The first runs of a list are no longer together than all of them, and
/// there are as many ranks as elements.
pub proof fn lemma_total_take(lengths: Seq<int>, k: int)
    requires
        0 <= k <= lengths.len(),
        forall|i: int| 0 <= i < lengths.len() ==> 0 <= #[trigger] lengths[i],
    ensures
        0 <= total(lengths.take(k)) <= total(lengths),
        k < lengths.len() ==> total(lengths.take(k)) + lengths[k] == total(lengths.take(k + 1)),
        ranks(lengths.take(k)).len() == total(lengths.take(k)),
        k < lengths.len() ==> ranks(lengths.take(k + 1)) == ranks(lengths.take(k)) + Seq::new(
            lengths[k] as nat,
            |j: int| j + 1,
        ),
    decreases lengths.len() - k,
{
    lemma_ranks_len(lengths.take(k));
    if k < lengths.len() {
        assert(lengths.take(k + 1).drop_last() =~= lengths.take(k));
        lemma_total_take(lengths, k + 1);
    } else {
        assert(lengths.take(k) =~= lengths);
    }
}

/// There are as many ranks as the runs have elements.
pub proof fn lemma_ranks_len(lengths: Seq<int>)
    requires
        forall|i: int| 0 <= i < lengths.len() ==> 0 <= #[trigger] lengths[i],
    ensures
        ranks(lengths).len() == total(lengths),
        total(lengths) >= 0,
    decreases lengths.len(),
{
    if lengths.len() > 0 {
        lemma_ranks_len(lengths.drop_last());
    }
}

/// Two lists whose neighbours are equal in the same places have the same
/// runs.
pub proof fn lemma_runs_alike<K, J>(a: Seq<K>, b: Seq<J>)
    requires
        a.len() == b.len(),
        forall|i: int| 0 < i < a.len() ==> (a[i] == a[i - 1]) == (#[trigger] b[i] == b[i - 1]),
    ensures
        runs(a) == runs(b),
    decreases a.len(),
{
    if a.len() > 1 {
        lemma_runs_alike(a.drop_last(), b.drop_last());
        assert((a[a.len() - 1] == a[a.len() - 2]) == (b[b.len() - 1] == b[b.len() - 2]));
    }
}

/// The element `j` of run `g` has rank `j + 1`, and stands where the runs
/// before it end and `j` further.
pub proof fn lemma_rank_at(lengths: Seq<int>, g: int, j: int)
    requires
        forall|i: int| 0 <= i < lengths.len() ==> 0 <= #[trigger] lengths[i],
        0 <= g < lengths.len(),
        0 <= j < lengths[g],
    ensures
        0 <= total(lengths.take(g)) + j < total(lengths),
        ranks(lengths).len() == total(lengths),
        ranks(lengths)[total(lengths.take(g)) + j] == j + 1,
    decreases lengths.len(),
{
    lemma_ranks_len(lengths);
    lemma_ranks_len(lengths.drop_last());
    lemma_total_take(lengths, g);
    if g == lengths.len() - 1 {
        assert(lengths.take(g) =~= lengths.drop_last());
    } else {
        assert(lengths.drop_last().take(g) =~= lengths.take(g));
        lemma_rank_at(lengths.drop_last(), g, j);
    }
}

/// The ranks of a list of keys are those of the list without its last key,
/// and one rank more: one more than the rank before it if the last key is
/// equal to the one before it, and 1 if it begins a run.
pub proof fn lemma_ranks_grow<K>(keys: Seq<K>)
    requires
        keys.len() >= 1,
    ensures
        ranks(runs(keys)).len() == keys.len(),
        ranks(runs(keys)).drop_last() == ranks(runs(keys.drop_last())),
        ranks(runs(keys)).last() == if keys.len() >= 2 && keys[keys.len() - 1] == keys[keys.len()
            - 2] {
            ranks(runs(keys.drop_last())).last() + 1
        } else {
            1
        },
        ranks(runs(keys)).last() == runs(keys).last(),
    decreases keys.len(),
{
    lemma_runs_total(keys);
    lemma_ranks_len(runs(keys));
    let all = runs(keys);
    if keys.len() == 1 {
        assert(all.drop_last() =~= Seq::empty());
        assert(ranks(all) =~= seq![1int]);
        assert(runs(keys.drop_last()) =~= Seq::empty());
        assert(ranks(all).drop_last() =~= ranks(runs(keys.drop_last())));
    } else {
        let before = runs(keys.drop_last());
        lemma_runs_total(keys.drop_last());
        lemma_ranks_len(before);
        lemma_ranks_grow(keys.drop_last());
        lemma_ranks_len(before.drop_last());
        if keys[keys.len() - 1] == keys[keys.len() - 2] {
            assert(all.drop_last() =~= before.drop_last());
            assert(ranks(all) =~= ranks(before).push(before.last() + 1));
            assert(ranks(all).drop_last() =~= ranks(before));
        } else {
            assert(all.drop_last() =~= before);
            assert(ranks(all) =~= ranks(before).push(1));
            assert(ranks(all).drop_last() =~= ranks(before));
        }
    }
}

/// The rank of a key is 1 if it is the first or differs from the key
/// before it, and one more than the rank of that key otherwise.
pub proof fn lemma_rank_follows<K>(keys: Seq<K>, i: int)
    requires
        0 <= i < keys.len(),
    ensures
        ranks(runs(keys)).len() == keys.len(),
        ranks(runs(keys))[i] == if i >= 1 && keys[i] == keys[i - 1] {
            ranks(runs(keys))[i - 1] + 1
        } else {
            1
        },
    decreases keys.len(),
{
    lemma_ranks_grow(keys);
    if i < keys.len() - 1 {
        lemma_rank_follows(keys.drop_last(), i);
        assert(ranks(runs(keys))[i] == ranks(runs(keys)).drop_last()[i]);
        if i >= 1 {
            assert(ranks(runs(keys))[i - 1] == ranks(runs(keys)).drop_last()[i - 1]);
        }
    } else if i >= 1 {
        lemma_ranks_grow(keys.drop_last());
        assert(ranks(runs(keys))[i - 1] == ranks(runs(keys)).drop_last()[i - 1]);
    }
}

/// `group_by` of itertools, with each key as its own group key: the number
/// of elements of every group that comes out, in order. Its documentation
/// says that consecutive elements with the same key, "runs", are assigned to
/// the same group; the contract says that the groups are the runs.
#[verifier::external_body]
pub(crate) fn run_lengths(keys: &Vec<usize>) -> (r: Vec<usize>)
    ensures
        lengths_of(r@) == runs(keys@),
{
    let lengths = keys.iter().group_by(|key| **key).into_iter().map(
        |(_, group)| group.count(),
    ).collect();
    lengths
}

} // verus!
