//! What holds of sets of selections as they are put together.
use crate::{Change, Lines};
use crate::runs::{ranks, total};
use super::filters::{lemma_filter_kept, lemma_filter_prefix, lemma_filter_run, lemma_filter_suffix};
use super::model::{
    after, all_well_formed, all_within, before, first_before, hits, main_index, names_one_of,
    ordered, Placing, split_high, split_low, Store, union_of,
};
use super::super::{laws, Pos, Sel};
use vstd::prelude::*;

verus! {

/// Among selections that are in order, those that end before `ns` begins
/// are the first `lo`, those that begin after it ends are the ones from `hi`
/// on, and those in between overlap it.
pub proof fn lemma_split_at(selections: Seq<Sel>, ns: Sel, lo: int, hi: int)
    requires
        all_well_formed(selections),
        ordered(selections),
        ns.from.le(ns.to),
        0 <= lo <= hi <= selections.len(),
        forall|i: int| 0 <= i < lo ==> (#[trigger] selections[i]).to.lt(ns.from),
        lo < selections.len() ==> !selections[lo].to.lt(ns.from),
        forall|i: int| lo <= i < hi ==> !ns.to.lt((#[trigger] selections[i]).from),
        hi < selections.len() ==> ns.to.lt(selections[hi].from),
    ensures
        before(selections, ns) == selections.subrange(0, lo),
        hits(selections, ns) == selections.subrange(lo, hi),
        after(selections, ns) == selections.subrange(hi, selections.len() as int),
{
    assert forall|i: int| 0 <= i < selections.len() implies ((#[trigger] selections[i]).to.lt(
        ns.from,
    ) <==> 0 <= i < lo) by {
        if i > lo {
            assert(selections[lo].to.lt(selections[i].from));
            assert(selections[i].well_formed());
        }
    }
    assert forall|i: int| 0 <= i < selections.len() implies (ns.to.lt(
        (#[trigger] selections[i]).from,
    ) <==> hi <= i < selections.len()) by {
        if i > hi {
            assert(selections[hi].to.lt(selections[i].from));
            assert(selections[hi].well_formed());
        }
        if i < lo {
            assert(selections[i].well_formed());
        }
    }
    assert forall|i: int| 0 <= i < selections.len() implies ((#[trigger] selections[i]).overlaps(
        ns,
    ) <==> lo <= i < hi) by {
        assert(selections[i].to.lt(ns.from) <==> 0 <= i < lo);
        assert(ns.to.lt(selections[i].from) <==> hi <= i < selections.len());
    }
    lemma_filter_run(selections, |s: Sel| s.to.lt(ns.from), 0, lo);
    lemma_filter_run(selections, |s: Sel| s.overlaps(ns), lo, hi);
    lemma_filter_run(selections, |s: Sel| ns.to.lt(s.from), hi, selections.len() as int);
}

/// Selections that are in order fall into three runs: those before `ns`,
/// those that overlap it, and those after it.
pub proof fn lemma_split(selections: Seq<Sel>, ns: Sel)
    requires
        all_well_formed(selections),
        ordered(selections),
        ns.from.le(ns.to),
    ensures
        0 <= split_low(selections, ns) <= split_high(selections, ns) <= selections.len(),
        before(selections, ns) == selections.subrange(0, split_low(selections, ns)),
        hits(selections, ns) == selections.subrange(
            split_low(selections, ns),
            split_high(selections, ns),
        ),
        after(selections, ns) == selections.subrange(
            split_high(selections, ns),
            selections.len() as int,
        ),
{
    let lo = split_low(selections, ns);
    let hi = split_high(selections, ns);
    let is_before = |s: Sel| s.to.lt(ns.from);
    let is_after = |s: Sel| ns.to.lt(s.from);
    assert forall|i: int, j: int|
        #![trigger selections[i], selections[j]]
        0 <= i < j < selections.len() && is_before(selections[j]) implies is_before(
        selections[i],
    ) by {
        assert(selections[i].to.lt(selections[j].from));
        assert(selections[j].well_formed());
    }
    lemma_filter_prefix(selections, is_before);
    assert forall|i: int, j: int|
        #![trigger selections[i], selections[j]]
        0 <= i < j < selections.len() && is_after(selections[i]) implies is_after(
        selections[j],
    ) by {
        assert(selections[i].to.lt(selections[j].from));
        assert(selections[i].well_formed());
    }
    lemma_filter_suffix(selections, is_after);
    if lo > hi {
        assert(is_before(selections[hi]));
        assert(is_after(selections[hi]));
        assert(selections[hi].well_formed());
    }
    assert forall|i: int| 0 <= i < lo implies (#[trigger] selections[i]).to.lt(ns.from) by {
        assert(is_before(selections[i]));
    }
    assert forall|i: int| lo <= i < hi implies !ns.to.lt((#[trigger] selections[i]).from) by {
        assert(!is_after(selections[i]));
    }
    if lo < selections.len() {
        assert(!is_before(selections[lo]));
    }
    if hi < selections.len() {
        assert(is_after(selections[hi]));
    }
    lemma_split_at(selections, ns, lo, hi);
}

/// Placing a well-formed selection keeps the selections well-formed, in
/// order and apart; there is at least one of them afterwards, and at most
/// one more than before.
pub proof fn lemma_place(p: Placing, ns: Sel, is_main: bool)
    requires
        p.well_formed(),
        ns.well_formed(),
    ensures
        p.place(ns, is_main).well_formed(),
        p.place(ns, is_main).selections.len() >= 1,
        p.place(ns, is_main).selections.len() <= p.selections.len() + 1,
        is_main || p.main is Some ==> p.place(ns, is_main).main is Some,
        union_of(hits(p.selections, ns), ns).well_formed(),
        union_of(hits(p.selections, ns), ns).from.le(ns.from),
        ns.to.le(union_of(hits(p.selections, ns), ns).to),
{
    let sels = p.selections;
    lemma_split(sels, ns);
    let lo = split_low(sels, ns);
    let hi = split_high(sels, ns);
    let hit = hits(sels, ns);
    let merged = union_of(hit, ns);
    let out = p.place(ns, is_main).selections;
    assert(out == sels.subrange(0, lo) + seq![merged] + sels.subrange(hi, sels.len() as int));
    if hit.len() > 0 {
        assert(hit.first() == sels[lo]);
        assert(hit.last() == sels[hi - 1]);
        assert(sels[lo].well_formed());
        assert(sels[hi - 1].well_formed());
        if lo < hi - 1 {
            assert(sels[lo].to.lt(sels[hi - 1].from));
        }
    }
    assert(merged.well_formed());
    assert forall|i: int| 0 <= i < out.len() implies (#[trigger] out[i]).well_formed() by {
        if i < lo {
            assert(out[i] == sels[i]);
        } else if i > lo {
            assert(out[i] == sels[i - lo - 1 + hi]);
        }
    }
    assert forall|i: int, j: int| 0 <= i < j < out.len() implies (#[trigger] out[i]).to.lt(
        (#[trigger] out[j]).from,
    ) by {
        let a = if i < lo {
            i
        } else {
            i - lo - 1 + hi
        };
        let b = if j < lo {
            j
        } else {
            j - lo - 1 + hi
        };
        if i != lo {
            assert(out[i] == sels[a]);
        }
        if j != lo {
            assert(out[j] == sels[b]);
        }
        if i != lo && j != lo {
            assert(sels[a].to.lt(sels[b].from));
        } else if i == lo {
            // the union ends before everything that comes after `ns`
            assert(ns.to.lt(sels[b].from));
            if hit.len() > 0 {
                assert(sels[hi - 1].to.lt(sels[b].from));
            }
        } else {
            assert(sels[a].to.lt(ns.from));
            if hit.len() > 0 {
                assert(sels[a].to.lt(sels[lo].from));
            }
        }
    }
    let main = p.place(ns, is_main).main;
    if main is Some {
        if is_main || names_one_of(p.main, hit) {
            assert(out[lo].from == main.unwrap());
        } else {
            let k = choose|k: int| 0 <= k < sels.len() && (#[trigger] sels[k]).from == p.main.unwrap();
            if lo <= k < hi {
                // one of the merged selections would begin at the main one
                assert(hit[k - lo].from == p.main.unwrap());
            }
            if k < lo {
                assert(out[k] == sels[k]);
            } else {
                assert(out[k - hi + lo + 1] == sels[k]);
            }
        }
    }
}

/// Placing every item of `items` keeps the selections well-formed, in order
/// and apart; there is a selection afterwards if there is an item, at most
/// one more for each item, and a main selection if an item is marked as
/// such.
pub proof fn lemma_place_all(p: Placing, items: Seq<(Sel, bool)>)
    requires
        p.well_formed(),
        forall|i: int| 0 <= i < items.len() ==> (#[trigger] items[i]).0.well_formed(),
    ensures
        p.place_all(items).well_formed(),
        p.place_all(items).selections.len() <= p.selections.len() + items.len(),
        items.len() >= 1 ==> p.place_all(items).selections.len() >= 1,
        p.selections.len() >= 1 ==> p.place_all(items).selections.len() >= 1,
        p.main is Some || (exists|i: int| 0 <= i < items.len() && (#[trigger] items[i]).1)
            ==> p.place_all(items).main is Some,
    decreases items.len(),
{
    if items.len() > 0 {
        let rest = items.drop_last();
        lemma_place_all(p, rest);
        lemma_place(p.place_all(rest), items.last().0, items.last().1);
        if exists|i: int| 0 <= i < items.len() && (#[trigger] items[i]).1 {
            let i = choose|i: int| 0 <= i < items.len() && (#[trigger] items[i]).1;
            if i < items.len() - 1 {
                assert(rest[i].1);
            }
        }
    }
}

/// Putting a well-formed set together anew from well-formed selections
/// gives a well-formed set, of no more selections than before.
pub proof fn lemma_rebuilt(store: Store, changed: Seq<Sel>)
    requires
        store.well_formed(),
        changed.len() == store.selections.len(),
        all_well_formed(changed),
    ensures
        store.rebuilt(changed).well_formed(),
        store.rebuilt(changed).selections.len() <= store.selections.len(),
        store.rebuilt(changed).main is Some,
        Store::of(store.rebuilt(changed)).well_formed(),
{
    let items = store.marked(changed);
    lemma_place_all(Placing::empty(), items);
    let k = choose|k: int|
        0 <= k < store.selections.len() && (#[trigger] store.selections[k]).from == store.main;
    assert(items[k].1);
}

/// Placing a bare cursor among bare cursors leaves bare cursors.
pub proof fn lemma_place_point(p: Placing, ns: Sel, is_main: bool)
    requires
        p.well_formed(),
        ns.well_formed(),
        ns.is_point(),
        forall|i: int| 0 <= i < p.selections.len() ==> (#[trigger] p.selections[i]).is_point(),
    ensures
        forall|i: int|
            0 <= i < p.place(ns, is_main).selections.len() ==> (#[trigger] p.place(
                ns,
                is_main,
            ).selections[i]).is_point(),
{
    let bare = |y: Sel| y.is_point();
    assert forall|first: Sel, other: Sel, last: Sel|
        #![trigger span(first, other, last)]
        bare(first) && bare(other) && bare(last) && first.overlaps(other) && last.overlaps(
            other,
        ) implies bare(span(first, other, last)) by {}
    lemma_place_keeps(p, ns, is_main, bare);
    assert forall|i: int| 0 <= i < p.place(ns, is_main).selections.len() implies (
    #[trigger] p.place(ns, is_main).selections[i]).is_point() by {
        assert(bare(p.place(ns, is_main).selections[i]));
    }
}

/// A set that is put together anew from bare cursors holds bare cursors
/// only.
pub proof fn lemma_rebuilt_points(store: Store, changed: Seq<Sel>, k: int)
    requires
        store.well_formed(),
        changed.len() == store.selections.len(),
        all_well_formed(changed),
        forall|i: int| 0 <= i < changed.len() ==> (#[trigger] changed[i]).is_point(),
        0 <= k <= changed.len(),
    ensures
        forall|i: int|
            0 <= i < Placing::empty().place_all(store.marked(changed).take(k)).selections.len()
                ==> (#[trigger] Placing::empty().place_all(
                store.marked(changed).take(k),
            ).selections[i]).is_point(),
    decreases k,
{
    let items = store.marked(changed);
    if k > 0 {
        lemma_rebuilt_points(store, changed, k - 1);
        assert(items.take(k).drop_last() =~= items.take(k - 1));
        assert forall|i: int| 0 <= i < items.take(k - 1).len() implies (#[trigger] items.take(
            k - 1,
        )[i]).0.well_formed() by {
            assert(changed[i].well_formed());
        }
        lemma_place_all(Placing::empty(), items.take(k - 1));
        assert(changed[k - 1].well_formed() && changed[k - 1].is_point());
        lemma_place_point(
            Placing::empty().place_all(items.take(k - 1)),
            items[k - 1].0,
            items[k - 1].1,
        );
    }
}

/// The selection before `p` in a well-formed set is one of the set, is
/// well-formed, and begins before `p`.
pub proof fn lemma_first_before(selections: Seq<Sel>, p: Pos)
    requires
        all_well_formed(selections),
    ensures
        first_before(selections, p) matches Some(found) ==> found.well_formed() && found.from.lt(p)
            && found.to.lt(p),
{
    let ending = selections.filter(|s: Sel| s.to.lt(p));
    if ending.len() > 0 {
        lemma_filter_kept(selections, |s: Sel| s.to.lt(p), ending.len() - 1);
    }
}

/// Replacing by a well-formed selection keeps the selections well-formed,
/// in order and apart.
pub proof fn lemma_replace(p: Placing, ns: Sel)
    requires
        p.well_formed(),
        ns.well_formed(),
    ensures
        p.replace(ns).well_formed(),
        p.replace(ns).selections.len() >= 1,
        p.main is Some ==> p.replace(ns).main is Some,
{
    let sels = p.selections;
    lemma_split(sels, ns);
    let lo = split_low(sels, ns);
    let hi = split_high(sels, ns);
    let hit = hits(sels, ns);
    let out = p.replace(ns).selections;
    assert(out == sels.subrange(0, lo) + seq![ns] + sels.subrange(hi, sels.len() as int));
    assert forall|i: int| 0 <= i < out.len() implies (#[trigger] out[i]).well_formed() by {
        if i < lo {
            assert(out[i] == sels[i]);
        } else if i > lo {
            assert(out[i] == sels[i - lo - 1 + hi]);
        }
    }
    assert forall|i: int, j: int| 0 <= i < j < out.len() implies (#[trigger] out[i]).to.lt(
        (#[trigger] out[j]).from,
    ) by {
        let a = if i < lo {
            i
        } else {
            i - lo - 1 + hi
        };
        let b = if j < lo {
            j
        } else {
            j - lo - 1 + hi
        };
        if i != lo {
            assert(out[i] == sels[a]);
        }
        if j != lo {
            assert(out[j] == sels[b]);
        }
        if i != lo && j != lo {
            assert(sels[a].to.lt(sels[b].from));
        } else if i == lo {
            assert(ns.to.lt(sels[b].from));
        } else {
            assert(sels[a].to.lt(ns.from));
        }
    }
    let main = p.replace(ns).main;
    if main is Some {
        if names_one_of(p.main, hit) {
            assert(out[lo].from == main.unwrap());
        } else {
            let k = choose|k: int| 0 <= k < sels.len() && (#[trigger] sels[k]).from == p.main.unwrap();
            if lo <= k < hi {
                // one of the merged selections would begin at the main one
                assert(hit[k - lo].from == p.main.unwrap());
            }
            if k < lo {
                assert(out[k] == sels[k]);
            } else {
                assert(out[k - hi + lo + 1] == sels[k]);
            }
        }
    }
}

/// Every selection is either among those that `pulled` marks or among
/// those that `others` marks, so that the main selection of a well-formed
/// set is marked in one of the two.
pub proof fn lemma_main_is_marked(
    store: Store,
    chosen: spec_fn(Sel) -> bool,
    rest: spec_fn(Sel) -> bool,
    changed: spec_fn(Sel) -> (Sel, bool),
    same: spec_fn(Sel) -> (Sel, bool),
)
    requires
        store.well_formed(),
        forall|s: Sel| #[trigger] rest(s) == !chosen(s),
        forall|s: Sel| (#[trigger] changed(s)).1 == (s.from == store.main),
        forall|s: Sel| (#[trigger] same(s)).1 == (s.from == store.main),
    ensures
        ({
            let items = store.selections.filter(chosen).map_values(changed)
                + store.selections.filter(rest).map_values(same);
            exists|i: int| 0 <= i < items.len() && (#[trigger] items[i]).1
        }),
{
    let sels = store.selections;
    let items = sels.filter(chosen).map_values(changed) + sels.filter(rest).map_values(same);
    let k = choose|k: int| 0 <= k < sels.len() && (#[trigger] sels[k]).from == store.main;
    if chosen(sels[k]) {
        sels.lemma_filter_contains(chosen, k);
        let j = choose|j: int| 0 <= j < sels.filter(chosen).len() && sels.filter(chosen)[j] == sels[k];
        assert(items[j] == changed(sels[k]));
        assert(items[j].1);
    } else {
        sels.lemma_filter_contains(rest, k);
        let j = choose|j: int| 0 <= j < sels.filter(rest).len() && sels.filter(rest)[j] == sels[k];
        let at = sels.filter(chosen).len() + j;
        assert(items[at] == same(sels[k]));
        assert(items[at].1);
    }
}

/// Every element of runs has a rank of at least 1.
pub proof fn lemma_rank_at_any(lengths: Seq<int>, k: int)
    requires
        forall|i: int| 0 <= i < lengths.len() ==> 0 <= #[trigger] lengths[i],
        0 <= k < total(lengths),
    ensures
        ranks(lengths).len() == total(lengths),
        ranks(lengths)[k] >= 1,
    decreases lengths.len(),
{
    crate::runs::lemma_ranks_len(lengths);
    if lengths.len() > 0 {
        crate::runs::lemma_ranks_len(lengths.drop_last());
        if k < total(lengths.drop_last()) {
            lemma_rank_at_any(lengths.drop_last(), k);
        }
    }
}

/// A selection that begins after all the others end is placed behind them,
/// and nothing is merged.
pub proof fn lemma_place_behind(p: Placing, ns: Sel, is_main: bool)
    requires
        p.well_formed(),
        ns.well_formed(),
        forall|i: int| 0 <= i < p.selections.len() ==> (#[trigger] p.selections[i]).to.lt(ns.from),
    ensures
        p.place(ns, is_main).selections == p.selections.push(ns),
        p.place(ns, is_main).main == if is_main {
            Some(ns.from)
        } else {
            p.main
        },
        p.place(ns, is_main).deltas == p.deltas.push(Change::SelectionAdded { selection: ns }),
{
    let sels = p.selections;
    let n = sels.len() as int;
    assert forall|i: int| n <= i < n implies !ns.to.lt((#[trigger] sels[i]).from) by {}
    lemma_split_at(sels, ns, n, n);
    assert(sels.subrange(0, n) =~= sels);
    assert(sels.subrange(n, n) =~= Seq::empty());
    assert(sels + seq![ns] + Seq::<Sel>::empty() =~= sels.push(ns));
    assert(p.deltas + seq![Change::SelectionAdded { selection: ns }] =~= p.deltas.push(
        Change::SelectionAdded { selection: ns },
    ));
}

/// A set that is put together anew from selections that are in order and
/// apart holds just these, and reports each as added; the one in the place
/// of the main selection is the main selection.
pub proof fn lemma_rebuilt_apart(store: Store, changed: Seq<Sel>, k: int)
    requires
        store.well_formed(),
        changed.len() == store.selections.len(),
        all_well_formed(changed),
        ordered(changed),
        0 <= k <= changed.len(),
    ensures
        Placing::empty().place_all(store.marked(changed).take(k)).selections == changed.take(k),
        Placing::empty().place_all(store.marked(changed).take(k)).main == if main_index(store) < k {
            Some(changed[main_index(store)].from)
        } else {
            None
        },
        Placing::empty().place_all(store.marked(changed).take(k)).deltas == changed.take(
            k,
        ).map_values(|s: Sel| Change::SelectionAdded { selection: s }),
    decreases k,
{
    let items = store.marked(changed);
    let added = |s: Sel| Change::SelectionAdded { selection: s };
    if k == 0 {
        assert(items.take(0) =~= Seq::empty());
        assert(changed.take(0) =~= Seq::empty());
        assert(changed.take(0).map_values(added) =~= Seq::empty());
    } else {
        lemma_rebuilt_apart(store, changed, k - 1);
        assert(items.take(k).drop_last() =~= items.take(k - 1));
        let before = Placing::empty().place_all(items.take(k - 1));
        assert forall|i: int| 0 <= i < items.take(k - 1).len() implies (#[trigger] items.take(
            k - 1,
        )[i]).0.well_formed() by {
            assert(changed[i].well_formed());
        }
        lemma_place_all(Placing::empty(), items.take(k - 1));
        assert(changed[k - 1].well_formed());
        assert forall|i: int| 0 <= i < before.selections.len() implies (
        #[trigger] before.selections[i]).to.lt(changed[k - 1].from) by {
            assert(before.selections[i] == changed[i]);
            assert(changed[i].to.lt(changed[k - 1].from));
        }
        lemma_place_behind(before, items[k - 1].0, items[k - 1].1);
        assert(changed.take(k - 1).push(changed[k - 1]) =~= changed.take(k));
        assert(changed.take(k - 1).map_values(added).push(added(changed[k - 1])) =~= changed.take(
            k,
        ).map_values(added));
        // only the main selection begins where the main selection begins
        let m = main_index(store);
        if store.selections[k - 1].from == store.main && m != k - 1 {
            if m < k - 1 {
                assert(store.selections[m].to.lt(store.selections[k - 1].from));
                assert(store.selections[m].well_formed());
            } else {
                assert(store.selections[k - 1].to.lt(store.selections[m].from));
                assert(store.selections[k - 1].well_formed());
            }
        }
    }
}

/// Swapping the cursors twice gives the set back.
pub proof fn law_swap_cursor_twice(store: Store)
    requires
        store.well_formed(),
    ensures
        Store::of(store.swapped()).well_formed(),
        Store::of(Store::of(store.swapped()).swapped()) == store,
{
    let once = store.selections.map_values(|s: Sel| s.swapped());
    assert forall|i: int| 0 <= i < once.len() implies (#[trigger] once[i]).well_formed() by {
        assert(store.selections[i].well_formed());
    }
    assert forall|i: int, j: int| 0 <= i < j < once.len() implies (#[trigger] once[i]).to.lt(
        (#[trigger] once[j]).from,
    ) by {
        assert(store.selections[i].to.lt(store.selections[j].from));
    }
    lemma_rebuilt_apart(store, once, once.len() as int);
    assert(store.marked(once).take(once.len() as int) =~= store.marked(once));
    assert(once.take(once.len() as int) =~= once);
    let swapped = Store::of(store.swapped());
    let m = main_index(store);
    assert(swapped.selections == once);
    assert(swapped.main == once[m].from);
    assert(once[m].from == store.main);
    assert(swapped.selections[m].from == swapped.main);
    let twice = swapped.selections.map_values(|s: Sel| s.swapped());
    assert forall|i: int| 0 <= i < twice.len() implies #[trigger] twice[i]
        == store.selections[i] by {
        laws::law_swap_cursor_twice(store.selections[i]);
    }
    assert(twice =~= store.selections);
    lemma_rebuilt_apart(swapped, twice, twice.len() as int);
    assert(swapped.marked(twice).take(twice.len() as int) =~= swapped.marked(twice));
    assert(twice.take(twice.len() as int) =~= twice);
    let n = main_index(swapped);
    assert(store.selections[n].from == swapped.main);
}

/// Placing a selection that lies on the slots of `m` among selections that
/// do leaves selections that do.
pub proof fn lemma_place_within(p: Placing, ns: Sel, is_main: bool, m: Lines)
    requires
        p.well_formed(),
        ns.well_formed(),
        all_within(p.selections, m),
        ns.within(m),
    ensures
        all_within(p.place(ns, is_main).selections, m),
{
    let on_slots = |y: Sel| y.within(m);
    assert forall|first: Sel, other: Sel, last: Sel|
        #![trigger span(first, other, last)]
        on_slots(first) && on_slots(other) && on_slots(last) implies on_slots(
        span(first, other, last),
    ) by {}
    lemma_place_keeps(p, ns, is_main, on_slots);
    assert forall|i: int| 0 <= i < p.place(ns, is_main).selections.len() implies (
    #[trigger] p.place(ns, is_main).selections[i]).within(m) by {
        assert(on_slots(p.place(ns, is_main).selections[i]));
    }
}

/// Placing selections that lie on the slots of `m` leaves selections that
/// do.
pub proof fn lemma_place_all_within(p: Placing, items: Seq<(Sel, bool)>, m: Lines)
    requires
        p.well_formed(),
        all_within(p.selections, m),
        forall|i: int| 0 <= i < items.len() ==> (#[trigger] items[i]).0.well_formed(),
        forall|i: int| 0 <= i < items.len() ==> (#[trigger] items[i]).0.within(m),
    ensures
        all_within(p.place_all(items).selections, m),
    decreases items.len(),
{
    if items.len() > 0 {
        let rest = items.drop_last();
        lemma_place_all_within(p, rest, m);
        lemma_place_all(p, rest);
        lemma_place_within(p.place_all(rest), items.last().0, items.last().1, m);
    }
}

/// A set that is put together anew from selections that lie on the slots
/// of `m` lies on them.
pub proof fn lemma_rebuilt_within(store: Store, changed: Seq<Sel>, m: Lines)
    requires
        store.well_formed(),
        changed.len() == store.selections.len(),
        all_well_formed(changed),
        all_within(changed, m),
    ensures
        all_within(store.rebuilt(changed).selections, m),
{
    let items = store.marked(changed);
    assert forall|i: int| 0 <= i < items.len() implies (#[trigger] items[i]).0.within(m) by {
        assert(changed[i].within(m));
    }
    lemma_place_all_within(Placing::empty(), items, m);
}

/// Movements keep a set that lies on the slots of well-formed lines on
/// them.
pub proof fn lemma_moved_within(store: Store, n: int, extend: bool, m: Lines)
    requires
        store.well_formed(),
        all_within(store.selections, m),
        m.well_formed(),
        n >= 0,
    ensures
        all_within(store.swapped().selections, m),
        all_within(store.moved_left(n, extend, m).selections, m),
        all_within(store.moved_right(n, extend, m).selections, m),
        all_within(store.moved_up(n, extend, m).selections, m),
        all_within(store.moved_down(n, extend, m).selections, m),
{
    let sels = store.selections;
    assert forall|i: int| 0 <= i < sels.len() implies {
        &&& (#[trigger] sels[i]).swapped().well_formed()
        &&& sels[i].moved_left(n, extend, m).well_formed()
        &&& sels[i].moved_right(n, extend, m).well_formed()
        &&& sels[i].moved_up(n, extend, m).well_formed()
        &&& sels[i].moved_down(n, extend, m).well_formed()
        &&& sels[i].swapped().within(m)
        &&& sels[i].moved_left(n, extend, m).within(m)
        &&& sels[i].moved_right(n, extend, m).within(m)
        &&& sels[i].moved_up(n, extend, m).within(m)
        &&& sels[i].moved_down(n, extend, m).within(m)
    } by {
        assert(sels[i].well_formed() && sels[i].within(m));
        laws::lemma_movements_stay_within(sels[i], n, extend, m);
        laws::lemma_moved_left(sels[i], n, extend, m);
        laws::lemma_moved_right(sels[i], n, extend, m);
        laws::lemma_moved_up(sels[i], n, extend, m);
        laws::lemma_moved_down(sels[i], n, extend, m);
    }
    lemma_rebuilt_within(store, sels.map_values(|s: Sel| s.swapped()), m);
    lemma_rebuilt_within(store, sels.map_values(|s: Sel| s.moved_left(n, extend, m)), m);
    lemma_rebuilt_within(store, sels.map_values(|s: Sel| s.moved_right(n, extend, m)), m);
    lemma_rebuilt_within(store, sels.map_values(|s: Sel| s.moved_up(n, extend, m)), m);
    lemma_rebuilt_within(store, sels.map_values(|s: Sel| s.moved_down(n, extend, m)), m);
}

/// Placing copies under the selections of a set that lies on the slots of
/// `m` leaves a set that lies on them.
pub proof fn lemma_placed_under_within(store: Store, m: Lines, k: int)
    requires
        store.well_formed(),
        all_within(store.selections, m),
        0 <= k <= store.selections.len(),
    ensures
        store.multiplied(m, k).well_formed(),
        all_within(store.multiplied(m, k).selections, m),
    decreases k,
{
    if k > 0 {
        lemma_placed_under_within(store, m, k - 1);
        let so_far = store.multiplied(m, k - 1);
        let s = store.selections[k - 1];
        assert(s.well_formed() && s.within(m));
        let is_main = s.from == store.main;
        if s.under(m) is Some {
            let i = choose|i: int| s.first_under(m, i);
            laws::lemma_first_under(s, m, i);
            let copy = s.placed_under(i);
            assert(copy.within(m));
            lemma_place(so_far, copy, is_main);
            lemma_place_within(so_far, copy, is_main, m);
            lemma_place(so_far.place(copy, is_main), s, false);
            lemma_place_within(so_far.place(copy, is_main), s, false, m);
        } else {
            lemma_place(so_far, s, is_main);
            lemma_place_within(so_far, s, is_main, m);
        }
    }
}

/// Where typing does not fit for some runs it does not fit for more.
pub proof fn lemma_typed_fits(store: Store, flags: Seq<usize>, k: int, more: int)
    requires
        k <= more,
        store.typed_fits(flags, more),
    ensures
        store.typed_fits(flags, k),
    decreases more - k,
{
    if k < more {
        lemma_typed_fits(store, flags, k + 1, more);
    }
}

/// Whether what holds of selections that overlap a selection holds of what
/// they are merged into: the span from the head of the first of them or of
/// that selection, whichever comes first, to the tail of the last of them or
/// of that selection, whichever comes last.
pub open spec fn kept_by_merging(pred: spec_fn(Sel) -> bool) -> bool {
    forall|first: Sel, ns: Sel, last: Sel|
        #![trigger span(first, ns, last)]
        first.well_formed() && ns.well_formed() && last.well_formed() && pred(first) && pred(ns)
            && pred(last) && first.overlaps(ns) && last.overlaps(ns) && (first == last
            || first.to.lt(last.from)) ==> pred(span(first, ns, last))
}

/// What `ns` is merged into with the selections from `first` to `last`,
/// which overlap it.
pub open spec fn span(first: Sel, ns: Sel, last: Sel) -> Sel {
    Sel {
        from: if first.from.lt(ns.from) {
            first.from
        } else {
            ns.from
        },
        to: if ns.to.lt(last.to) {
            last.to
        } else {
            ns.to
        },
        cursor_direction: ns.cursor_direction,
        sticky_column: None,
    }
}

/// What holds of the selections of a set and of a selection that is placed
/// among them, and is kept by merging, holds of the selections afterwards.
pub proof fn lemma_place_keeps(state: Placing, ns: Sel, is_main: bool, pred: spec_fn(Sel) -> bool)
    requires
        state.well_formed(),
        ns.well_formed(),
        forall|i: int| 0 <= i < state.selections.len() ==> pred(#[trigger] state.selections[i]),
        pred(ns),
        kept_by_merging(pred),
    ensures
        forall|i: int|
            0 <= i < state.place(ns, is_main).selections.len() ==> pred(
                #[trigger] state.place(ns, is_main).selections[i],
            ),
{
    let sels = state.selections;
    lemma_split(sels, ns);
    let lo = split_low(sels, ns);
    let hi = split_high(sels, ns);
    let hit = hits(sels, ns);
    let merged = union_of(hit, ns);
    let out = state.place(ns, is_main).selections;
    assert(out == sels.subrange(0, lo) + seq![merged] + sels.subrange(hi, sels.len() as int));
    if hit.len() > 0 {
        let first = sels[lo];
        let last = sels[hi - 1];
        assert(hit.first() == first && hit.last() == last);
        assert(first.well_formed() && last.well_formed());
        assert(first.overlaps(ns)) by {
            lemma_filter_kept(sels, |s: Sel| s.overlaps(ns), 0);
        }
        assert(last.overlaps(ns)) by {
            lemma_filter_kept(sels, |s: Sel| s.overlaps(ns), hit.len() - 1);
        }
        if lo < hi - 1 {
            assert(first.to.lt(last.from));
        }
        assert(merged == span(first, ns, last));
    }
    assert forall|i: int| 0 <= i < out.len() implies pred(#[trigger] out[i]) by {
        if i < lo {
            assert(out[i] == sels[i]);
        } else if i > lo {
            assert(out[i] == sels[i - lo - 1 + hi]);
        }
    }
}

/// What holds of the selections that are placed, and is kept by merging,
/// holds of the selections of the set that they make.
pub proof fn lemma_place_all_keeps(state: Placing, items: Seq<(Sel, bool)>, pred: spec_fn(Sel) -> bool)
    requires
        state.well_formed(),
        forall|i: int| 0 <= i < state.selections.len() ==> pred(#[trigger] state.selections[i]),
        forall|i: int| 0 <= i < items.len() ==> (#[trigger] items[i]).0.well_formed(),
        forall|i: int| 0 <= i < items.len() ==> pred((#[trigger] items[i]).0),
        kept_by_merging(pred),
    ensures
        forall|i: int|
            0 <= i < state.place_all(items).selections.len() ==> pred(
                #[trigger] state.place_all(items).selections[i],
            ),
    decreases items.len(),
{
    if items.len() > 0 {
        let rest = items.drop_last();
        lemma_place_all_keeps(state, rest, pred);
        lemma_place_all(state, rest);
        lemma_place_keeps(state.place_all(rest), items.last().0, items.last().1, pred);
    }
}

} // verus!
