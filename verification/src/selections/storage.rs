//! Selections storage API with an implementation respecting multiple selections
//! interaction.
use crate::{Change, changes, DeltaType, LineLength, lines_of};
use crate::runs::{
    lemma_rank_at, lemma_runs_alike, lemma_runs_total, lemma_total_take, lengths_of, ranks,
    run_lengths, runs, total,
};
use crate::util::{at_least_one, PositiveUsize};
use super::{CursorDirection, laws, lemma_fits, Pos, PositionUnbound, Sel, SelectionUnbound};
use super::intersect::SelectionIntersect;
use vstd::prelude::*;
use vstd::std_specs::cmp::PartialEqSpecImpl;

pub mod filters;
pub mod lemmas;
pub mod model;

pub use self::filters::{
    lemma_filter_first, lemma_filter_grows, lemma_filter_kept, lemma_filter_last,
    lemma_filter_next, lemma_filter_prefix, lemma_filter_run, lemma_filter_suffix,
};
pub use self::lemmas::{
    kept_by_merging, law_swap_cursor_twice, lemma_first_before, lemma_main_is_marked,
    lemma_moved_within, lemma_place, lemma_place_all, lemma_place_all_keeps,
    lemma_place_all_within, lemma_place_behind, lemma_place_keeps, lemma_place_point,
    lemma_place_within, lemma_placed_under_within, lemma_rank_at_any, lemma_rebuilt,
    lemma_rebuilt_apart, lemma_rebuilt_points, lemma_rebuilt_within, lemma_replace, lemma_split,
    lemma_split_at, lemma_typed_fits, span,
};
pub use self::model::{
    after, all_well_formed, all_within, applied, before, begins_after, begins_by, begins_elsewhere,
    begins_on_line_after, deletions, ends_by, first_before, hits, kept, main_index, merge_changes,
    merged_in, names_one_of, ordered, Placing, pulled_left, quick, selection_at, spliced,
    split_high, split_low, Store, taken_apart, union_of, views,
};

verus! {

/// Append the selections `from..to` of `source` to `target`.
fn copy_range(
    source: &Vec<SelectionUnbound>,
    from: usize,
    to: usize,
    target: &mut Vec<SelectionUnbound>,
)
    requires
        from <= to <= source.len(),
    ensures
        final(target)@ == old(target)@ + source@.subrange(from as int, to as int),
{
    let mut k = from;
    while k < to
        invariant
            from <= k <= to <= source.len(),
            target@ == old(target)@ + source@.subrange(from as int, k as int),
        decreases to - k,
    {
        target.push(source[k]);
        k += 1;
        assert(target@ =~= old(target)@ + source@.subrange(from as int, k as int));
    }
    assert(target@ =~= old(target)@ + source@.subrange(from as int, to as int));
}

/// A set of selections while it is put together.
struct Rebuild<'a> {
    selections: Vec<SelectionUnbound>,
    main: Option<PositionUnbound>,
    deltas: Vec<DeltaType<'a>>,
}

impl<'a> View for Rebuild<'a> {
    type V = Placing;

    closed spec fn view(&self) -> Placing {
        Placing {
            selections: views(self.selections@),
            main: match self.main {
                Some(p) => Some(p@),
                None => None,
            },
            deltas: changes(self.deltas@),
        }
    }
}

impl<'a> Rebuild<'a> {
    /// Nothing placed yet.
    fn new() -> (r: Self)
        ensures
            r@ == Placing::empty(),
            r@.well_formed(),
    {
        let r = Rebuild { selections: Vec::new(), main: None, deltas: Vec::new() };
        assert(r@.selections =~= Seq::empty());
        assert(r@.deltas =~= Seq::empty());
        r
    }

    /// Place `ns` among the selections, merging it with those it overlaps.
    fn place(self, ns: SelectionUnbound, is_main: bool) -> (r: Self)
        requires
            self@.well_formed(),
            ns@.well_formed(),
        ensures
            r@ == self@.place(ns@, is_main),
            r@.well_formed(),
            r@.selections.len() >= 1,
    {
        let ghost sels = views(self.selections@);
        let ghost hit = hits(sels, ns@);
        let n = self.selections.len();
        let mut lo: usize = 0;
        while lo < n && self.selections[lo].to.lt(&ns.from)
            invariant
                lo <= n,
                n == self.selections.len(),
                sels == views(self.selections@),
                forall|i: int| 0 <= i < lo ==> (#[trigger] sels[i]).to.lt(ns@.from),
            decreases n - lo,
        {
            lo += 1;
        }
        let mut hi: usize = lo;
        while hi < n && !ns.to.lt(&self.selections[hi].from)
            invariant
                lo <= hi <= n,
                n == self.selections.len(),
                sels == views(self.selections@),
                forall|i: int| lo <= i < hi ==> !ns@.to.lt((#[trigger] sels[i]).from),
            decreases n - hi,
        {
            hi += 1;
        }
        proof {
            lemma_split_at(sels, ns@, lo as int, hi as int);
            lemma_place(self@, ns@, is_main);
        }
        let mut merged = ns;
        let mut absorbed = is_main;
        let mut deltas = self.deltas;
        let ghost reported = changes(deltas@);
        if lo < hi {
            let first = self.selections[lo];
            let last = self.selections[hi - 1];
            assert(first@ == hit.first() && last@ == hit.last());
            if first.from.lt(&ns.from) {
                merged.from = first.from;
            }
            if ns.to.lt(&last.to) {
                merged.to = last.to;
            }
            merged.sticky_column = None;
            assert(merged@ == union_of(hit, ns@));
            let kept = first.from.le(&ns.from);
            let ghost so_far = deltas@;
            let start = if kept {
                deltas.push(DeltaType::SelectionChanged { identity: first.from, new_state: merged });
                lo + 1
            } else {
                deltas.push(DeltaType::SelectionChanged { identity: ns.from, new_state: merged });
                lo
            };
            let ghost head = changes(deltas@);
            assert(deletions(sels.subrange(start as int, start as int)) =~= Seq::empty());
            assert(head =~= reported + seq![
                Change::SelectionChanged {
                    identity: if kept {
                        first@.from
                    } else {
                        ns@.from
                    },
                    new_state: merged@,
                },
            ]);
            let mut k = start;
            while k < hi
                invariant
                    lo <= start <= k <= hi <= n,
                    n == self.selections.len(),
                    sels == views(self.selections@),
                    changes(deltas@) == head + deletions(sels.subrange(start as int, k as int)),
                    absorbed == (is_main || (self@.main matches Some(p) && exists|j: int|
                        start <= j < k && (#[trigger] sels[j]).from == p)),
                decreases hi - k,
            {
                let gone = self.selections[k];
                assert(gone@ == sels[k as int]);
                let ghost so_far = deltas@;
                deltas.push(DeltaType::SelectionDeleted { identity: gone.from });
                if let Some(p) = self.main {
                    if gone.from.same(&p) {
                        absorbed = true;
                    }
                }
                k += 1;
                assert(changes(deltas@) =~= changes(so_far).push(
                    Change::SelectionDeleted { identity: gone@.from },
                ));
                assert(deletions(sels.subrange(start as int, k as int)) =~= deletions(
                    sels.subrange(start as int, k - 1),
                ).push(Change::SelectionDeleted { identity: gone@.from }));
            }
            if kept {
                if let Some(p) = self.main {
                    if first.from.same(&p) {
                        absorbed = true;
                    }
                }
                let ghost so_far = deltas@;
                deltas.push(DeltaType::SelectionDeleted { identity: ns.from });
                assert(changes(deltas@) =~= changes(so_far).push(
                    Change::SelectionDeleted { identity: ns@.from },
                ));
                assert(sels.subrange(lo as int + 1, hi as int) =~= hit.drop_first());
            } else {
                assert(sels.subrange(lo as int, hi as int) =~= hit);
            }
            assert(changes(deltas@) =~= reported + merge_changes(hit, ns@));
            assert(absorbed == (is_main || names_one_of(self@.main, hit))) by {
                if self@.main is Some {
                    let p = self@.main.unwrap();
                    if exists|j: int| 0 <= j < hit.len() && (#[trigger] hit[j]).from == p {
                        let j = choose|j: int| 0 <= j < hit.len() && (#[trigger] hit[j]).from == p;
                        assert(sels[lo + j].from == p);
                    }
                    if exists|j: int| lo <= j < hi && (#[trigger] sels[j]).from == p {
                        let j = choose|j: int| lo <= j < hi && (#[trigger] sels[j]).from == p;
                        assert(hit[j - lo].from == p);
                    }
                }
            }
        } else {
            let ghost so_far = deltas@;
            deltas.push(DeltaType::SelectionAdded { selection: ns });
            assert(changes(deltas@) =~= changes(so_far).push(
                Change::SelectionAdded { selection: ns@ },
            ));
            assert(changes(deltas@) =~= reported + merge_changes(hit, ns@));
            assert(!names_one_of(self@.main, hit));
        }
        let mut selections: Vec<SelectionUnbound> = Vec::new();
        copy_range(&self.selections, 0, lo, &mut selections);
        selections.push(merged);
        copy_range(&self.selections, hi, n, &mut selections);
        assert(views(selections@) =~= merged_in(sels, ns@));
        let main = if absorbed {
            Some(merged.from)
        } else {
            self.main
        };
        Rebuild { selections, main, deltas }
    }
}

/// As selections within the buffer are not independent
/// (can be merged, for instance) this structure is aimed
/// to take special care of it
#[derive(Debug)]
pub struct SelectionStorage {
    /// The selections in document order, each ending before the next
    /// begins.
    selections: Vec<SelectionUnbound>,
    /// One of selections must be marked as `main selection`.
    /// As selection is atomic it should not carry such information
    /// as there is a contract that only one selection in the storage
    /// can be `main` thus such information should be lifted to the
    /// storage.
    ///
    /// Here are some rules:
    /// 1. on merge, if one selection was marked as `main`, resulting
    ///    selection becomes `main`;
    /// 2. on placing selections under existing ones, the new `main`
    ///    is that selection which was placed under previous `main`
    main_selection_ptr: PositionUnbound,
}

impl View for SelectionStorage {
    type V = Store;

    closed spec fn view(&self) -> Store {
        Store { selections: views(self.selections@), main: self.main_selection_ptr@ }
    }
}

impl SelectionStorage {
    /// The selections as they are held, in document order.
    pub closed spec fn held(&self) -> Seq<SelectionUnbound> {
        self.selections@
    }

    /// For a fresh buffer there is only one selection in the beginning of it
    pub fn new() -> (r: Self)
        ensures
            r@ == Store::fresh(),
            r@.well_formed(),
    {
        let selection = SelectionUnbound::default();
        let from = selection.from;
        let mut selections = Vec::new();
        selections.push(selection);
        let r = SelectionStorage { selections, main_selection_ptr: from };
        assert(r@.selections =~= seq![Sel::point(Pos { line: 1, col: 1 })]);
        assert(r@.selections[0].from == r@.main);
        r
    }

    /// Put the storage together anew from `changed`, which take the places
    /// of its selections one for one, and report what became of each.
    fn rebuild<'b>(&mut self, changed: Vec<SelectionUnbound>) -> (r: Vec<DeltaType<'b>>)
        requires
            old(self)@.well_formed(),
            changed.len() == old(self)@.selections.len(),
            all_well_formed(views(changed@)),
        ensures
            final(self)@ == Store::of(old(self)@.rebuilt(views(changed@))),
            changes(r@) == old(self)@.carried_changes(views(changed@)),
            final(self)@.well_formed(),
            final(self)@.selections.len() <= old(self)@.selections.len(),
    {
        let ghost targets = views(changed@);
        let mut state = Rebuild::new();
        let mut i: usize = 0;
        proof {
            assert(self@.marked(targets.take(0)) =~= Seq::empty());
        }
        while i < changed.len()
            invariant
                i <= changed.len(),
                *self == *old(self),
                changed.len() == self.selections.len(),
                targets == views(changed@),
                all_well_formed(targets),
                state@.selections == self@.rebuilt(targets.take(i as int)).selections,
                state@.main == self@.rebuilt(targets.take(i as int)).main,
                state@.deltas == self@.carried_changes(targets.take(i as int)),
                state@.well_formed(),
            decreases changed.len() - i,
        {
            let is_main = self.selections[i].from.same(&self.main_selection_ptr);
            let ns = changed[i];
            let from = self.selections[i].from;
            assert(targets[i as int].well_formed());
            assert(views(self.selections@)[i as int] == self.selections@[i as int]@);
            let ghost so_far = state@;
            if state.overlaps_any(&ns) {
                state = state.place(ns, is_main);
            } else {
                state = state.place_quietly(ns, is_main);
                state.deltas.push(DeltaType::SelectionChanged { identity: from, new_state: ns });
                assert(changes(state.deltas@) =~= so_far.deltas + seq![
                    Change::SelectionChanged { identity: from@, new_state: ns@ },
                ]);
            }
            i += 1;
            proof {
                let now = targets.take(i as int);
                assert(now.drop_last() =~= targets.take(i - 1));
                assert(self@.marked(now).drop_last() =~= self@.marked(targets.take(i - 1)));
                assert(self@.marked(now).last() == (ns@, is_main));
                assert(self@.rebuilt(now) == self@.rebuilt(targets.take(i - 1)).place(
                    ns@,
                    is_main,
                ));
            }
        }
        proof {
            assert(targets.take(i as int) =~= targets);
            lemma_rebuilt(self@, targets);
        }
        self.selections = state.selections;
        self.main_selection_ptr = state.main.unwrap();
        state.deltas
    }
}

impl SelectionStorage {
    /// Apply functions to each of selections making a new storage in place of the old one.
    ///
    /// The function is to take every well-formed selection and to give
    /// well-formed ones. It is applied once to each selection, in order;
    /// what it gives is placed in turn, merging what overlaps, so that
    /// there is at least one selection afterwards and no more than before.
    pub fn apply_to_selections<'b, F: Fn(SelectionUnbound) -> SelectionUnbound>(
        &mut self,
        f: F,
    ) -> (r: Vec<DeltaType<'b>>)
        requires
            old(self)@.well_formed(),
            forall|s: SelectionUnbound| s@.well_formed() ==> call_requires(f, (s,)),
            forall|s: SelectionUnbound, t: SelectionUnbound|
                s@.well_formed() && call_ensures(f, (s,), t) ==> t@.well_formed(),
        ensures
            final(self)@.well_formed(),
            1 <= final(self)@.selections.len() <= old(self)@.selections.len(),
            exists|changed: Seq<SelectionUnbound>|
                #![trigger views(changed)]
                {
                    &&& applied(f, old(self).held(), changed)
                    &&& final(self)@ == Store::of(old(self)@.rebuilt(views(changed)))
                    &&& changes(r@) == old(self)@.carried_changes(views(changed))
                },
    {
        let mut changed: Vec<SelectionUnbound> = Vec::new();
        let mut i: usize = 0;
        while i < self.selections.len()
            invariant
                i <= self.selections.len(),
                *self == *old(self),
                self@.well_formed(),
                changed.len() == i,
                forall|s: SelectionUnbound| s@.well_formed() ==> call_requires(f, (s,)),
                forall|s: SelectionUnbound, t: SelectionUnbound|
                    s@.well_formed() && call_ensures(f, (s,), t) ==> t@.well_formed(),
                forall|k: int|
                    0 <= k < i ==> call_ensures(f, (#[trigger] self.selections@[k],), changed@[k]),
                forall|k: int| 0 <= k < i ==> (#[trigger] changed@[k])@.well_formed(),
            decreases self.selections.len() - i,
        {
            let s = self.selections[i];
            assert(views(self.selections@)[i as int] == s@);
            assert(s@.well_formed());
            let t = f(s);
            changed.push(t);
            i += 1;
        }
        assert(applied(f, self.selections@, changed@));
        assert(all_well_formed(views(changed@)));
        self.rebuild(changed)
    }

    /// Apply to each selection a function that does to it what `g` does to
    /// its value, and report what became of each.
    fn carry<'b, F: Fn(SelectionUnbound) -> SelectionUnbound>(
        &mut self,
        f: F,
        Ghost(g): Ghost<spec_fn(Sel) -> Sel>,
    ) -> (r: Vec<DeltaType<'b>>)
        requires
            old(self)@.well_formed(),
            forall|s: SelectionUnbound| s@.well_formed() ==> call_requires(f, (s,)),
            forall|s: SelectionUnbound, t: SelectionUnbound|
                s@.well_formed() && call_ensures(f, (s,), t) ==> t@.well_formed() && t@ == g(s@),
        ensures
            final(self)@ == Store::of(old(self)@.carried(old(self)@.selections.map_values(g))),
            changes(r@) == old(self)@.carried(old(self)@.selections.map_values(g)).deltas,
            final(self)@.well_formed(),
            all_well_formed(old(self)@.selections.map_values(g)),
    {
        let r = self.apply_to_selections(f);
        proof {
            let changed = choose|changed: Seq<SelectionUnbound>|
                #![trigger views(changed)]
                {
                    &&& applied(f, old(self).selections@, changed)
                    &&& self@ == Store::of(old(self)@.rebuilt(views(changed)))
                    &&& changes(r@) == old(self)@.carried_changes(views(changed))
                };
            assert forall|i: int| 0 <= i < changed.len() implies (#[trigger] views(changed)[i])
                == g(old(self)@.selections[i]) && views(changed)[i].well_formed() by {
                assert(old(self)@.selections[i] == old(self).selections@[i]@);
                assert(old(self)@.selections[i].well_formed());
            }
            assert(views(changed) =~= old(self)@.selections.map_values(g));
        }
        r
    }

    /// Swap selections' cursor.
    pub fn swap_cursor<'b>(&mut self) -> (r: Vec<DeltaType<'b>>)
        requires
            old(self)@.well_formed(),
        ensures
            final(self)@ == Store::of(old(self)@.swapped()),
            changes(r@) == old(self)@.swapped().deltas,
            final(self)@.well_formed(),
    {
        let f = |s: SelectionUnbound| -> (t: SelectionUnbound)
            ensures
                t@ == s@.swapped(),
            { s.swap_cursor() };
        let ghost g = |s: Sel| s.swapped();
        let r = self.carry(f, Ghost(g));
        proof {
            assert(old(self)@.selections.map_values(g) =~= old(self)@.selections.map_values(
                |s: Sel| s.swapped(),
            ));
        }
        r
    }

    /// Move left all selections.
    pub fn move_left<'b, L: LineLength>(&mut self, n: usize, extend: bool, line_length: &L) -> (r:
        Vec<DeltaType<'b>>)
        requires
            old(self)@.well_formed(),
        ensures
            final(self)@ == Store::of(old(self)@.moved_left(n as int, extend, lines_of(line_length))),
            changes(r@) == old(self)@.moved_left(n as int, extend, lines_of(line_length)).deltas,
            final(self)@.well_formed(),
            !extend ==> final(self)@.all_points(),
    {
        let f = |s: SelectionUnbound| -> (t: SelectionUnbound)
            ensures
                t@ == s@.moved_left(n as int, extend, lines_of(line_length)),
                s@.well_formed() ==> t@.well_formed(),
            { s.move_left(n, extend, line_length) };
        let ghost m = lines_of(line_length);
        let ghost g = |s: Sel| s.moved_left(n as int, extend, m);
        let r = self.carry(f, Ghost(g));
        proof {
            let moved = old(self)@.selections.map_values(|s: Sel| s.moved_left(n as int, extend, m));
            assert(old(self)@.selections.map_values(g) =~= moved);
            old(self)@.lemma_all_moved(moved, extend);
        }
        r
    }
}

impl SelectionStorage {
    /// Add a selection to the storage.
    /// If storage contains selections which overlap with the input
    /// they will be merged.
    pub fn add_selection<'b>(&mut self, ns: SelectionUnbound) -> (r: Vec<DeltaType<'b>>)
        requires
            old(self)@.well_formed(),
            ns@.well_formed(),
        ensures
            final(self)@ == Store::of(old(self)@.added(ns@)),
            changes(r@) == old(self)@.added(ns@).deltas,
            final(self)@.well_formed(),
    {
        let mut selections: Vec<SelectionUnbound> = Vec::new();
        core::mem::swap(&mut self.selections, &mut selections);
        let state = Rebuild { selections, main: Some(self.main_selection_ptr), deltas: Vec::new() };
        assert(state@.deltas =~= Seq::empty());
        assert(state@ == old(self)@.placing());
        proof {
            lemma_place(state@, ns@, false);
        }
        let state = state.place(ns, false);
        self.selections = state.selections;
        self.main_selection_ptr = state.main.unwrap();
        state.deltas
    }

    /// Move right all selections.
    pub fn move_right<'b, L: LineLength>(&mut self, n: usize, extend: bool, line_length: &L) -> (r:
        Vec<DeltaType<'b>>)
        requires
            old(self)@.well_formed(),
        ensures
            final(self)@ == Store::of(
                old(self)@.moved_right(n as int, extend, lines_of(line_length)),
            ),
            changes(r@) == old(self)@.moved_right(n as int, extend, lines_of(line_length)).deltas,
            final(self)@.well_formed(),
            !extend ==> final(self)@.all_points(),
    {
        let f = |s: SelectionUnbound| -> (t: SelectionUnbound)
            ensures
                t@ == s@.moved_right(n as int, extend, lines_of(line_length)),
                s@.well_formed() ==> t@.well_formed(),
            { s.move_right(n, extend, line_length) };
        let ghost m = lines_of(line_length);
        let ghost g = |s: Sel| s.moved_right(n as int, extend, m);
        let r = self.carry(f, Ghost(g));
        proof {
            let moved = old(self)@.selections.map_values(|s: Sel| s.moved_right(n as int, extend, m));
            assert(old(self)@.selections.map_values(g) =~= moved);
            old(self)@.lemma_all_moved(moved, extend);
        }
        r
    }

    /// Move up all selections.
    pub fn move_up<'b, L: LineLength>(&mut self, n: usize, extend: bool, line_length: &L) -> (r:
        Vec<DeltaType<'b>>)
        requires
            old(self)@.well_formed(),
        ensures
            final(self)@ == Store::of(old(self)@.moved_up(n as int, extend, lines_of(line_length))),
            changes(r@) == old(self)@.moved_up(n as int, extend, lines_of(line_length)).deltas,
            final(self)@.well_formed(),
            !extend ==> final(self)@.all_points(),
    {
        let f = |s: SelectionUnbound| -> (t: SelectionUnbound)
            ensures
                t@ == s@.moved_up(n as int, extend, lines_of(line_length)),
                s@.well_formed() ==> t@.well_formed(),
            { s.move_up(n, extend, line_length) };
        let ghost m = lines_of(line_length);
        let ghost g = |s: Sel| s.moved_up(n as int, extend, m);
        let r = self.carry(f, Ghost(g));
        proof {
            let moved = old(self)@.selections.map_values(|s: Sel| s.moved_up(n as int, extend, m));
            assert(old(self)@.selections.map_values(g) =~= moved);
            old(self)@.lemma_all_moved(moved, extend);
        }
        r
    }

    /// Move down all selections.
    pub fn move_down<'b, L: LineLength>(&mut self, n: usize, extend: bool, line_length: &L) -> (r:
        Vec<DeltaType<'b>>)
        requires
            old(self)@.well_formed(),
        ensures
            final(self)@ == Store::of(old(self)@.moved_down(n as int, extend, lines_of(line_length))),
            changes(r@) == old(self)@.moved_down(n as int, extend, lines_of(line_length)).deltas,
            final(self)@.well_formed(),
            !extend ==> final(self)@.all_points(),
    {
        let f = |s: SelectionUnbound| -> (t: SelectionUnbound)
            ensures
                t@ == s@.moved_down(n as int, extend, lines_of(line_length)),
                s@.well_formed() ==> t@.well_formed(),
            { s.move_down(n, extend, line_length) };
        let ghost m = lines_of(line_length);
        let ghost g = |s: Sel| s.moved_down(n as int, extend, m);
        let r = self.carry(f, Ghost(g));
        proof {
            let moved = old(self)@.selections.map_values(|s: Sel| s.moved_down(n as int, extend, m));
            assert(old(self)@.selections.map_values(g) =~= moved);
            old(self)@.lemma_all_moved(moved, extend);
        }
        r
    }

    /// The selections in document order.
    pub fn iter(&self) -> (r: Vec<SelectionUnbound>)
        ensures
            r@ == self.held(),
            views(r@) == self@.selections,
    {
        let mut r: Vec<SelectionUnbound> = Vec::new();
        copy_range(&self.selections, 0, self.selections.len(), &mut r);
        assert(r@ =~= self.selections@);
        r
    }

    /// The head of the main selection.
    pub fn main_selection_ptr(&self) -> (r: PositionUnbound)
        ensures
            r@ == self@.main,
    {
        self.main_selection_ptr
    }

    /// Make the selection that begins at `position` the main one. Where no
    /// selection begins there nothing changes, and the result says so.
    pub fn set_main_selection(&mut self, position: PositionUnbound) -> (r: bool)
        ensures
            r == (exists|k: int|
                0 <= k < old(self)@.selections.len() && (#[trigger] old(self)@.selections[k]).from
                    == position@),
            final(self)@.selections == old(self)@.selections,
            final(self)@.main == if r {
                position@
            } else {
                old(self)@.main
            },
            old(self)@.well_formed() ==> final(self)@.well_formed(),
    {
        let mut i: usize = 0;
        while i < self.selections.len()
            invariant
                i <= self.selections.len(),
                *self == *old(self),
                forall|k: int| 0 <= k < i ==> (#[trigger] self@.selections[k]).from != position@,
            decreases self.selections.len() - i,
        {
            if self.selections[i].from.same(&position) {
                assert(self@.selections[i as int].from == position@);
                self.main_selection_ptr = position;
                assert(self@.selections[i as int].from == self@.main);
                return true;
            }
            i += 1;
        }
        false
    }

    /// Find the selection which covers the input position.
    pub fn find_hit(&self, s: PositionUnbound) -> (r: Option<&SelectionUnbound>)
        ensures
            r matches Some(found) ==> found@.from.le(s@) && s@.le(found@.to) && exists|k: int|
                0 <= k < self@.selections.len() && #[trigger] self@.selections[k] == found@,
            r is None ==> forall|k: int|
                0 <= k < self@.selections.len() ==> !((#[trigger] self@.selections[k]).from.le(s@)
                    && s@.le(self@.selections[k].to)),
    {
        let mut i: usize = 0;
        while i < self.selections.len()
            invariant
                i <= self.selections.len(),
                forall|k: int|
                    0 <= k < i ==> !((#[trigger] self@.selections[k]).from.le(s@) && s@.le(
                        self@.selections[k].to,
                    )),
            decreases self.selections.len() - i,
        {
            if self.selections[i].from.le(&s) && s.le(&self.selections[i].to) {
                assert(self@.selections[i as int] == self.selections[i as int]@);
                return Some(&self.selections[i]);
            }
            assert(self@.selections[i as int] == self.selections[i as int]@);
            i += 1;
        }
        None
    }

    /// Get a left neighbour for the selection.
    /// It will be `None` if called for the first selection in the buffer.
    pub fn get_first_before(&self, before: &SelectionUnbound) -> (r: Option<SelectionUnbound>)
        ensures
            r matches Some(found) ==> first_before(self@.selections, before@.from) == Some(found@),
            r is None ==> first_before(self@.selections, before@.from) is None,
    {
        let ghost sels = self@.selections;
        let ghost ends_before = |s: Sel| s.to.lt(before@.from);
        let mut i: usize = self.selections.len();
        while i > 0
            invariant
                i <= self.selections.len(),
                sels == self@.selections,
                forall|k: int| i <= k < sels.len() ==> !(#[trigger] sels[k]).to.lt(before@.from),
            decreases i,
        {
            i -= 1;
            assert(sels[i as int] == self.selections[i as int]@);
            if self.selections[i].to.lt(&before.from) {
                proof {
                    lemma_filter_last(sels, |s: Sel| s.to.lt(before@.from), i as int);
                }
                return Some(self.selections[i]);
            }
        }
        proof {
            assert(sels.all(|s: Sel| !ends_before(s)));
            sels.lemma_all_neg_filter_empty(ends_before);
        }
        None
    }

    /// The last selection.
    pub fn last(&self) -> (r: SelectionUnbound)
        requires
            self@.well_formed(),
        ensures
            r@ == self@.selections.last(),
    {
        let r = self.selections[self.selections.len() - 1];
        assert(self@.selections.last() == self.selections@[self.selections.len() - 1]@);
        r
    }

    /// A copy of the storage.
    pub fn duplicate(&self) -> (r: Self)
        ensures
            r@ == self@,
    {
        let mut selections: Vec<SelectionUnbound> = Vec::new();
        copy_range(&self.selections, 0, self.selections.len(), &mut selections);
        assert(selections@ =~= self.selections@);
        SelectionStorage { selections, main_selection_ptr: self.main_selection_ptr }
    }

    /// The selections that do not end before `position`, in document
    /// order.
    pub fn iter_from(&self, position: &PositionUnbound) -> (r: Vec<SelectionUnbound>)
        ensures
            views(r@) == self@.selections.filter(ends_by(position@)),
    {
        let ghost sels = self@.selections;
        let ghost wanted = ends_by(position@);
        let mut r: Vec<SelectionUnbound> = Vec::new();
        let mut i: usize = 0;
        while i < self.selections.len()
            invariant
                i <= self.selections.len(),
                sels == self@.selections,
                wanted == ends_by(position@),
                views(r@) == sels.take(i as int).filter(wanted),
            decreases self.selections.len() - i,
        {
            let s = self.selections[i];
            assert(s@ == sels[i as int]);
            proof {
                lemma_filter_next(sels, wanted, i as int);
            }
            if !s.to.lt(position) {
                let ghost so_far = r@;
                r.push(s);
                assert(views(r@) =~= views(so_far).push(s@));
            }
            i += 1;
        }
        assert(sels.take(i as int) =~= sels);
        r
    }

    /// The storage that holds the selections that `selections` stand for,
    /// see [`quick`], but for those that overlap one before them; the first
    /// is the main one. Without any, the storage is as it is for a fresh
    /// buffer.
    pub fn gen_from_tuples(selections: &[(usize, usize, usize, usize, bool)]) -> (r: Self)
        ensures
            r@.well_formed(),
            selections@.len() > 0 ==> r@.selections == taken_apart(
                selections@.map_values(|t: (usize, usize, usize, usize, bool)| quick(t)),
            ),
            selections@.len() > 0 ==> r@.main == r@.selections[0].from,
            selections@.len() == 0 ==> r@ == Store::fresh(),
    {
        if selections.len() == 0 {
            return SelectionStorage::new();
        }
        let ghost candidates = selections@.map_values(
            |t: (usize, usize, usize, usize, bool)| quick(t),
        );
        let mut state = Rebuild::new();
        let mut i: usize = 0;
        while i < selections.len()
            invariant
                i <= selections.len(),
                candidates == selections@.map_values(
                    |t: (usize, usize, usize, usize, bool)| quick(t),
                ),
                state@.well_formed(),
                state@.selections == taken_apart(candidates.take(i as int)),
                i > 0 ==> state@.selections.len() > 0,
            decreases selections.len() - i,
        {
            let t = selections[i];
            let mut s = SelectionUnbound::new_quick(
                t.0,
                t.1,
                t.2,
                t.3,
                if t.4 {
                    CursorDirection::Forward
                } else {
                    CursorDirection::Backward
                },
            );
            s.fix_direction();
            assert(s@ == candidates[i as int]);
            proof {
                laws::lemma_reseated(
                    Sel {
                        from: Pos { line: at_least_one(t.0 as int), col: at_least_one(t.1 as int) },
                        to: Pos { line: at_least_one(t.2 as int), col: at_least_one(t.3 as int) },
                        cursor_direction: if t.4 {
                            CursorDirection::Forward
                        } else {
                            CursorDirection::Backward
                        },
                        sticky_column: None,
                    },
                );
                assert(candidates.take(i + 1).drop_last() =~= candidates.take(i as int));
                lemma_place(state@, s@, false);
            }
            if !state.overlaps_any(&s) {
                state = state.place(s, false);
            }
            i += 1;
        }
        assert(candidates.take(i as int) =~= candidates);
        let main = state.selections[0].from;
        let r = SelectionStorage { selections: state.selections, main_selection_ptr: main };
        assert(r@.selections[0].from == r@.main);
        r
    }
}

impl<'a> Rebuild<'a> {
    /// Whether `ns` overlaps one of the selections placed so far.
    fn overlaps_any(&self, ns: &SelectionUnbound) -> (r: bool)
        ensures
            r == (hits(self@.selections, ns@).len() > 0),
    {
        let ghost sels = self@.selections;
        let mut i: usize = 0;
        while i < self.selections.len()
            invariant
                i <= self.selections.len(),
                sels == self@.selections,
                forall|k: int| 0 <= k < i ==> !(#[trigger] sels[k]).overlaps(ns@),
            decreases self.selections.len() - i,
        {
            let s = &self.selections[i];
            assert(s@ == sels[i as int]);
            if SelectionIntersect(*s) == SelectionIntersect(*ns) {
                proof {
                    sels.lemma_filter_contains(|s: Sel| s.overlaps(ns@), i as int);
                }
                return true;
            }
            i += 1;
        }
        proof {
            let overlapping = |s: Sel| s.overlaps(ns@);
            assert(sels.all(|s: Sel| !overlapping(s)));
            sels.lemma_all_neg_filter_empty(overlapping);
        }
        false
    }
}

impl<'a> Rebuild<'a> {
    /// Place `ns` among the selections without a report of it.
    fn place_quietly(self, ns: SelectionUnbound, is_main: bool) -> (r: Self)
        requires
            self@.well_formed(),
            ns@.well_formed(),
        ensures
            r@ == self@.place_quietly(ns@, is_main),
            r@.well_formed(),
            r@.selections.len() >= 1,
    {
        let reported = self.deltas.len();
        let ghost so_far = self.deltas@;
        let mut r = self.place(ns, is_main);
        assert(changes(r.deltas@) == changes(so_far) + merge_changes(hits(self@.selections, ns@), ns@));
        assert(changes(r.deltas@).len() == r.deltas@.len());
        assert(changes(so_far).len() == so_far.len());
        let ghost grown = r.deltas@;
        r.deltas.truncate(reported);
        assert forall|i: int| 0 <= i < reported implies changes(r.deltas@)[i] == changes(
            so_far,
        )[i] by {
            assert(changes(r.deltas@)[i] == changes(grown)[i]);
        }
        assert(changes(r.deltas@) =~= changes(so_far));
        r
    }

    /// Put `ns` in the place of the selections that it overlaps.
    fn replace(self, ns: SelectionUnbound) -> (r: Self)
        requires
            self@.well_formed(),
            ns@.well_formed(),
        ensures
            r@ == self@.replace(ns@),
            r@.well_formed(),
            r@.selections.len() >= 1,
    {
        let ghost sels = views(self.selections@);
        let ghost hit = hits(sels, ns@);
        let n = self.selections.len();
        let mut lo: usize = 0;
        while lo < n && self.selections[lo].to.lt(&ns.from)
            invariant
                lo <= n,
                n == self.selections.len(),
                sels == views(self.selections@),
                forall|i: int| 0 <= i < lo ==> (#[trigger] sels[i]).to.lt(ns@.from),
            decreases n - lo,
        {
            lo += 1;
        }
        let mut hi: usize = lo;
        let mut absorbed = false;
        while hi < n && !ns.to.lt(&self.selections[hi].from)
            invariant
                lo <= hi <= n,
                n == self.selections.len(),
                sels == views(self.selections@),
                forall|i: int| lo <= i < hi ==> !ns@.to.lt((#[trigger] sels[i]).from),
                absorbed == (self@.main matches Some(p) && exists|j: int|
                    lo <= j < hi && (#[trigger] sels[j]).from == p),
            decreases n - hi,
        {
            if let Some(p) = self.main {
                if self.selections[hi].from.same(&p) {
                    assert(sels[hi as int].from == p@);
                    absorbed = true;
                }
            }
            hi += 1;
        }
        proof {
            lemma_split_at(sels, ns@, lo as int, hi as int);
            lemma_replace(self@, ns@);
            assert(absorbed == names_one_of(self@.main, hit)) by {
                if self@.main is Some {
                    let p = self@.main.unwrap();
                    if exists|j: int| 0 <= j < hit.len() && (#[trigger] hit[j]).from == p {
                        let j = choose|j: int| 0 <= j < hit.len() && (#[trigger] hit[j]).from == p;
                        assert(sels[lo + j].from == p);
                    }
                    if exists|j: int| lo <= j < hi && (#[trigger] sels[j]).from == p {
                        let j = choose|j: int| lo <= j < hi && (#[trigger] sels[j]).from == p;
                        assert(hit[j - lo].from == p);
                    }
                }
            }
        }
        let mut selections: Vec<SelectionUnbound> = Vec::new();
        copy_range(&self.selections, 0, lo, &mut selections);
        selections.push(ns);
        copy_range(&self.selections, hi, n, &mut selections);
        assert(views(selections@) =~= before(sels, ns@) + seq![ns@] + after(sels, ns@));
        let main = if absorbed {
            Some(ns.from)
        } else {
            self.main
        };
        Rebuild { selections, main, deltas: self.deltas }
    }
}

impl SelectionStorage {
    /// Nudge all selections on `line` after specific column left.
    pub fn move_left_on_line(&mut self, line: usize, after: usize, n: usize)
        requires
            old(self)@.well_formed(),
        ensures
            final(self)@ == Store::of(
                old(self)@.nudged_on_line(
                    at_least_one(line as int),
                    at_least_one(after as int),
                    n as int,
                ),
            ),
            final(self)@.well_formed(),
    {
        let line = PositiveUsize::from(line).get();
        let after = PositiveUsize::from(after).get();
        let ghost sels = self@.selections;
        let ghost main = self@.main;
        let ghost chosen = begins_on_line_after(line as int, after as int);
        let ghost rest = begins_elsewhere(line as int, after as int);
        let ghost pulled = sels.filter(chosen).map_values(pulled_left(main, n as int));
        let mut state = Rebuild::new();
        let mut i: usize = 0;
        while i < self.selections.len()
            invariant
                i <= self.selections.len(),
                *self == *old(self),
                self@.well_formed(),
                sels == self@.selections,
                main == self@.main,
                chosen == begins_on_line_after(line as int, after as int),
                state@.well_formed(),
                state@ == Placing::empty().place_all(
                    sels.take(i as int).filter(chosen).map_values(pulled_left(main, n as int)),
                ),
            decreases self.selections.len() - i,
        {
            let s = self.selections[i];
            assert(s@ == sels[i as int]);
            proof {
                lemma_filter_next(sels, chosen, i as int);
            }
            if s.from.line.get() == line && s.from.col.get() > after {
                let is_main = s.from.same(&self.main_selection_ptr);
                let mut nudged = s;
                nudged.nudge_left(n);
                nudged.fix_direction();
                proof {
                    assert(s@.well_formed());
                    laws::lemma_reseated(s@.nudged_left(n as int));
                    let so_far = sels.take(i as int).filter(chosen).map_values(
                        pulled_left(main, n as int),
                    );
                    let next = sels.take(i + 1).filter(chosen).map_values(
                        pulled_left(main, n as int),
                    );
                    assert(next.drop_last() =~= so_far);
                    assert(next.last() == (nudged@, is_main));
                }
                state = state.place(nudged, is_main);
            }
            i += 1;
        }
        assert(sels.take(i as int) =~= sels);
        let mut i: usize = 0;
        while i < self.selections.len()
            invariant
                i <= self.selections.len(),
                *self == *old(self),
                self@.well_formed(),
                sels == self@.selections,
                main == self@.main,
                rest == begins_elsewhere(line as int, after as int),
                state@.well_formed(),
                state@ == Placing::empty().place_all(
                    pulled + sels.take(i as int).filter(rest).map_values(kept(main)),
                ),
            decreases self.selections.len() - i,
        {
            let s = self.selections[i];
            assert(s@ == sels[i as int]);
            proof {
                lemma_filter_next(sels, rest, i as int);
            }
            if !(s.from.line.get() == line && s.from.col.get() > after) {
                let is_main = s.from.same(&self.main_selection_ptr);
                proof {
                    assert(s@.well_formed());
                    let so_far = pulled + sels.take(i as int).filter(rest).map_values(kept(main));
                    let next = pulled + sels.take(i + 1).filter(rest).map_values(kept(main));
                    assert(next.drop_last() =~= so_far);
                    assert(next.last() == (s@, is_main));
                }
                state = state.place(s, is_main);
            }
            i += 1;
        }
        proof {
            assert(sels.take(i as int) =~= sels);
            lemma_main_is_marked(self@, chosen, rest, pulled_left(main, n as int), kept(main));
            let items = pulled + sels.filter(rest).map_values(kept(main));
            assert forall|k: int| 0 <= k < items.len() implies (#[trigger] items[k]).0.well_formed() by {
                if k < pulled.len() {
                    lemma_filter_kept(sels, chosen, k);
                    laws::lemma_reseated(sels.filter(chosen)[k].nudged_left(n as int));
                } else {
                    lemma_filter_kept(sels, rest, k - pulled.len());
                }
            }
            lemma_place_all(Placing::empty(), items);
        }
        self.selections = state.selections;
        self.main_selection_ptr = state.main.unwrap();
    }

    /// Find the selections that overlap with the input selection and put it
    /// in their place.
    /// Used to shrink the selection to be cursor-sized.
    pub fn replace_selection(&mut self, to: SelectionUnbound)
        requires
            old(self)@.well_formed(),
            to@.well_formed(),
        ensures
            final(self)@ == Store::of(old(self)@.replaced(to@)),
            final(self)@.well_formed(),
    {
        let mut selections: Vec<SelectionUnbound> = Vec::new();
        core::mem::swap(&mut self.selections, &mut selections);
        let state = Rebuild { selections, main: Some(self.main_selection_ptr), deltas: Vec::new() };
        assert(state@.deltas =~= Seq::empty());
        assert(state@ == old(self)@.placing());
        proof {
            lemma_replace(state@, to@);
        }
        let state = state.replace(to);
        self.selections = state.selections;
        self.main_selection_ptr = state.main.unwrap();
    }
}

impl SelectionStorage {
    /// Move selections right, accumulating movement from a previous selection,
    /// independently for each line.
    /// For instance, if `n = 3`, then first selection will be moved right by 3,
    /// next -- by 6, then by 9 and so on; other lines start with 3 too.
    pub fn move_right_incremental(&mut self, n: usize)
        requires
            old(self)@.well_formed(),
            Store::all_fit(old(self)@.typed_right(n as int)),
        ensures
            final(self)@ == Store::of(old(self)@.pushed_right(n as int)),
            final(self)@.well_formed(),
    {
        let _ = self.try_move_right_incremental(n);
    }

    /// Move selections right as [`SelectionStorage::move_right_incremental`]
    /// does, if that leads to numbers of the machine only; nothing changes
    /// otherwise, and the result says so.
    pub fn try_move_right_incremental(&mut self, n: usize) -> (done: bool)
        requires
            old(self)@.well_formed(),
        ensures
            done == Store::all_fit(old(self)@.typed_right(n as int)),
            done ==> final(self)@ == Store::of(old(self)@.pushed_right(n as int)),
            !done ==> final(self)@ == old(self)@,
            final(self)@.well_formed(),
    {
        let ghost sels = self@.selections;
        let ghost target = self@.typed_right(n as int);
        let count = self.selections.len();
        let mut keys: Vec<usize> = Vec::new();
        let mut i: usize = 0;
        while i < count
            invariant
                i <= count,
                count == self.selections.len(),
                *self == *old(self),
                sels == self@.selections,
                keys.len() == i,
                forall|k: int| 0 <= k < i ==> keys@[k] == (#[trigger] sels[k]).from.line,
            decreases count - i,
        {
            assert(self.selections[i as int]@ == sels[i as int]);
            keys.push(self.selections[i].from.line.get());
            i += 1;
        }
        let groups = run_lengths(&keys);
        let ghost lengths = lengths_of(groups@);
        proof {
            lemma_runs_total(keys@);
            lemma_runs_alike(keys@, self@.head_lines());
            assert(lengths == runs(self@.head_lines()));
            assert(total(lengths) == count);
        }
        let mut changed: Vec<SelectionUnbound> = Vec::new();
        let mut base: usize = 0;
        let mut g: usize = 0;
        while g < groups.len()
            invariant
                g <= groups.len(),
                *self == *old(self),
                self@.well_formed(),
                sels == self@.selections,
                count == self.selections.len(),
                target == self@.typed_right(n as int),
                lengths == lengths_of(groups@),
                lengths == runs(self@.head_lines()),
                target.len() == count,
                total(lengths) == count,
                forall|k: int| 0 <= k < lengths.len() ==> 1 <= #[trigger] lengths[k],
                base == total(lengths.take(g as int)),
                changed.len() == base,
                forall|k: int| 0 <= k < base ==> (#[trigger] changed@[k])@ == target[k],
                forall|k: int| 0 <= k < base ==> (#[trigger] target[k]).fits(),
            decreases groups.len() - g,
        {
            let size = groups[g];
            assert(lengths[g as int] == size);
            let mut j: usize = 0;
            let mut offset: usize = 0;
            while j < size
                invariant
                    j <= size,
                    g < groups.len(),
                    lengths.len() == groups.len(),
                    target.len() == count,
                    size == lengths[g as int],
                    *self == *old(self),
                    self@.well_formed(),
                    sels == self@.selections,
                    count == self.selections.len(),
                    target == self@.typed_right(n as int),
                    lengths == runs(self@.head_lines()),
                    total(lengths) == count,
                    forall|k: int| 0 <= k < lengths.len() ==> 1 <= #[trigger] lengths[k],
                    base == total(lengths.take(g as int)),
                    offset == n * j,
                    changed.len() == base + j,
                    forall|k: int| 0 <= k < base + j ==> (#[trigger] changed@[k])@ == target[k],
                    forall|k: int| 0 <= k < base + j ==> (#[trigger] target[k]).fits(),
                decreases size - j,
            {
                proof {
                    lemma_rank_at(lengths, g as int, j as int);
                    assert(n * (j + 1) == n * j + n) by (nonlinear_arith);
                }
                let mut s = self.selections[base + j];
                assert(s@ == sels[base + j]);
                assert(target[base + j] == sels[base + j].pushed_right(n * (j + 1)));
                assert(s@.well_formed());
                if n > usize::MAX - offset {
                    assert(!target[base + j].fits());
                    return false;
                }
                offset = offset + n;
                if !s.cursor_direction.is_forward() || s.is_point() {
                    if s.from.col.get() > usize::MAX - offset {
                        assert(!target[base + j].fits());
                        return false;
                    }
                    s.from.col.add_assign(offset);
                }
                if s.to.col.get() > usize::MAX - offset {
                    assert(!target[base + j].fits());
                    return false;
                }
                s.to.col.add_assign(offset);
                proof {
                    lemma_fits(s);
                }
                changed.push(s);
                j += 1;
            }
            proof {
                lemma_total_take(lengths, g as int);
            }
            base += size;
            g += 1;
        }
        proof {
            assert(lengths.take(g as int) =~= lengths);
            assert(views(changed@) =~= target);
            assert forall|k: int| 0 <= k < target.len() implies (#[trigger] target[k]).well_formed() by {
                assert(sels[k].well_formed());
                lemma_rank_at_any(lengths, k);
                laws::lemma_pushed(sels[k], n * ranks(lengths)[k], 0);
            }
        }
        let _ = self.rebuild(changed);
        true
    }

    /// Move selections down, accumulating movement from a previous selection.
    /// For instance, if `n = 3`, then first selection will be moved down by 3,
    /// next -- by 6, then by 9 and so on.
    pub fn move_down_incremental(&mut self, n: usize)
        requires
            old(self)@.well_formed(),
            Store::all_fit(old(self)@.typed_down(n as int)),
        ensures
            final(self)@ == Store::of(old(self)@.pushed_down(n as int)),
            final(self)@.well_formed(),
    {
        let _ = self.try_move_down_incremental(n);
    }

    /// Move selections down as [`SelectionStorage::move_down_incremental`]
    /// does, if that leads to numbers of the machine only; nothing changes
    /// otherwise, and the result says so.
    pub fn try_move_down_incremental(&mut self, n: usize) -> (done: bool)
        requires
            old(self)@.well_formed(),
        ensures
            done == Store::all_fit(old(self)@.typed_down(n as int)),
            done ==> final(self)@ == Store::of(old(self)@.pushed_down(n as int)),
            !done ==> final(self)@ == old(self)@,
            final(self)@.well_formed(),
    {
        let ghost sels = self@.selections;
        let ghost target = self@.typed_down(n as int);
        let count = self.selections.len();
        let mut changed: Vec<SelectionUnbound> = Vec::new();
        let mut offset: usize = 0;
        let mut i: usize = 0;
        while i < count
            invariant
                i <= count,
                count == self.selections.len(),
                *self == *old(self),
                self@.well_formed(),
                sels == self@.selections,
                target == self@.typed_down(n as int),
                offset == n * i,
                changed.len() == i,
                forall|k: int| 0 <= k < i ==> (#[trigger] changed@[k])@ == target[k],
                forall|k: int| 0 <= k < i ==> (#[trigger] target[k]).fits(),
            decreases count - i,
        {
            proof {
                assert(n * (i + 1) == n * i + n) by (nonlinear_arith);
            }
            let mut s = self.selections[i];
            assert(s@ == sels[i as int]);
            assert(s@.well_formed());
            let ghost pushed = sels[i as int].pushed_down(n * (i + 1), n as int);
            assert(target[i as int] == pushed.reseated());
            assert(target[i as int].fits() == pushed.fits());
            proof {
                laws::lemma_pushed(s@, n * (i + 1), n as int);
            }
            let behind = offset;
            if n > usize::MAX - offset {
                assert(!pushed.fits());
                return false;
            }
            offset = offset + n;
            if s.from.line.get() > usize::MAX - offset || s.to.line.get() > usize::MAX - offset {
                assert(!pushed.fits());
                return false;
            }
            if s.is_point() {
                s.from.line.add_assign(offset);
                s.from.col = PositiveUsize::from(1);
                s.to.line.add_assign(offset);
                s.to.col = PositiveUsize::from(1);
            } else if !s.cursor_direction.is_forward() {
                let col_diff = (s.to.col - s.from.col).get();
                if col_diff == usize::MAX {
                    assert(!pushed.fits());
                    return false;
                }
                s.from.line.add_assign(offset);
                s.from.col = PositiveUsize::from(1);
                s.to.line.add_assign(offset);
                s.to.col = PositiveUsize::from(col_diff + 1);
            } else {
                s.from.line.add_assign(behind);
                s.to.line.add_assign(offset);
                s.to.col = PositiveUsize::from(1);
            }
            assert(s@ == pushed);
            proof {
                lemma_fits(s);
            }
            s.fix_direction();
            changed.push(s);
            i += 1;
        }
        proof {
            assert(views(changed@) =~= target);
            assert forall|k: int| 0 <= k < target.len() implies (#[trigger] target[k]).well_formed() by {
                assert(sels[k].well_formed());
                assert(n * (k + 1) >= n) by (nonlinear_arith)
                    requires
                        k >= 0,
                        n >= 0,
                ;
                laws::lemma_pushed(sels[k], n * (k + 1), n as int);
            }
        }
        let _ = self.rebuild(changed);
        true
    }
}

impl SelectionStorage {
    /// Place a new selection under each existing one with the same columns if it will fit the line.
    /// If the next line is too short to put a selection then it will use matching subsequent line.
    pub fn place_selection_under<'b, L: LineLength>(&mut self, line_length: &L) -> (r: Vec<
        DeltaType<'b>,
    >)
        requires
            old(self)@.well_formed(),
        ensures
            final(self)@ == Store::of(old(self)@.placed_under(lines_of(line_length))),
            changes(r@) == old(self)@.placed_under(lines_of(line_length)).deltas,
            final(self)@.well_formed(),
    {
        let ghost m = lines_of(line_length);
        let ghost sels = self@.selections;
        let mut state = Rebuild::new();
        let mut i: usize = 0;
        while i < self.selections.len()
            invariant
                i <= self.selections.len(),
                *self == *old(self),
                self@.well_formed(),
                sels == self@.selections,
                m == lines_of(line_length),
                state@ == self@.multiplied(m, i as int),
                state@.well_formed(),
                i > 0 ==> state@.selections.len() >= 1,
                (exists|k: int| 0 <= k < i && (#[trigger] sels[k]).from == self@.main)
                    ==> state@.main is Some,
            decreases self.selections.len() - i,
        {
            let s = self.selections[i];
            assert(s@ == sels[i as int]);
            assert(s@.well_formed());
            let is_main = s.from.same(&self.main_selection_ptr);
            match s.create_selection_under(line_length) {
                Some(selection_under) => {
                    proof {
                        lemma_place(state@, selection_under@, is_main);
                        lemma_place(state@.place(selection_under@, is_main), s@, false);
                    }
                    state = state.place(selection_under, is_main);
                    state = state.place_quietly(s, false);
                },
                None => {
                    proof {
                        lemma_place(state@, s@, is_main);
                    }
                    state = state.place_quietly(s, is_main);
                },
            }
            i += 1;
        }
        proof {
            let k = choose|k: int| 0 <= k < sels.len() && (#[trigger] sels[k]).from == self@.main;
            assert(sels[k].from == self@.main);
        }
        self.selections = state.selections;
        self.main_selection_ptr = state.main.unwrap();
        state.deltas
    }
}

impl SelectionStorage {
    /// Take the selections that begin after `position` up by `up` lines,
    /// the first of them right by `right` columns before that.
    fn lift(&mut self, position: PositionUnbound, right: usize, up: usize)
        requires
            old(self)@.well_formed(),
            old(self)@.lift_fits(position@, right as int),
        ensures
            final(self)@ == Store::of(old(self)@.lifted(position@, right as int, up as int)),
            final(self)@.well_formed(),
    {
        let ghost sels = self@.selections;
        let ghost main = self@.main;
        let ghost chosen = begins_after(position@);
        let ghost rest = begins_by(position@);
        let ghost lifted = spliced(sels.filter(chosen), main, right as int, up as int);
        let mut state = Rebuild::new();
        let mut first = true;
        let mut i: usize = 0;
        while i < self.selections.len()
            invariant
                i <= self.selections.len(),
                *self == *old(self),
                self@.well_formed(),
                self@.lift_fits(position@, right as int),
                sels == self@.selections,
                main == self@.main,
                chosen == begins_after(position@),
                first == (sels.take(i as int).filter(chosen).len() == 0),
                state@.well_formed(),
                state@ == Placing::empty().place_all(
                    spliced(sels.take(i as int).filter(chosen), main, right as int, up as int),
                ),
            decreases self.selections.len() - i,
        {
            let s = self.selections[i];
            assert(s@ == sels[i as int]);
            proof {
                lemma_filter_next(sels, chosen, i as int);
            }
            if position.lt(&s.from) {
                let is_main = s.from.same(&self.main_selection_ptr);
                let mut nudged = s;
                proof {
                    assert(s@.well_formed());
                    let behind = sels.take(i as int).filter(chosen);
                    let more = sels.take(i + 1).filter(chosen);
                    assert(more == behind.push(s@));
                    if first {
                        // the first selection behind is the first that the
                        // whole filter keeps
                        lemma_filter_first(sels, chosen, i as int);
                    }
                    let so_far = spliced(behind, main, right as int, up as int);
                    let next = spliced(more, main, right as int, up as int);
                    assert(next.drop_last() =~= so_far);
                    laws::lemma_reseated(s@.nudged_right(right as int).nudged_up(up as int));
                    laws::lemma_reseated(s@.nudged_up(up as int));
                }
                if first {
                    nudged.nudge_right(right);
                    first = false;
                }
                nudged.nudge_up(up);
                nudged.fix_direction();
                state = state.place(nudged, is_main);
            }
            i += 1;
        }
        assert(sels.take(i as int) =~= sels);
        let mut i: usize = 0;
        while i < self.selections.len()
            invariant
                i <= self.selections.len(),
                *self == *old(self),
                self@.well_formed(),
                sels == self@.selections,
                main == self@.main,
                rest == begins_by(position@),
                state@.well_formed(),
                state@ == Placing::empty().place_all(
                    lifted + sels.take(i as int).filter(rest).map_values(kept(main)),
                ),
            decreases self.selections.len() - i,
        {
            let s = self.selections[i];
            assert(s@ == sels[i as int]);
            proof {
                lemma_filter_next(sels, rest, i as int);
            }
            if !position.lt(&s.from) {
                let is_main = s.from.same(&self.main_selection_ptr);
                proof {
                    assert(s@.well_formed());
                    let so_far = lifted + sels.take(i as int).filter(rest).map_values(kept(main));
                    let next = lifted + sels.take(i + 1).filter(rest).map_values(kept(main));
                    assert(next.drop_last() =~= so_far);
                    assert(next.last() == (s@, is_main));
                }
                state = state.place(s, is_main);
            }
            i += 1;
        }
        proof {
            assert(sels.take(i as int) =~= sels);
            let items = lifted + sels.filter(rest).map_values(kept(main));
            let k = choose|k: int| 0 <= k < sels.len() && (#[trigger] sels[k]).from == main;
            if chosen(sels[k]) {
                sels.lemma_filter_contains(chosen, k);
                let j = choose|j: int|
                    0 <= j < sels.filter(chosen).len() && sels.filter(chosen)[j] == sels[k];
                assert(items[j].1);
            } else {
                sels.lemma_filter_contains(rest, k);
                let j = choose|j: int|
                    0 <= j < sels.filter(rest).len() && sels.filter(rest)[j] == sels[k];
                assert(items[lifted.len() + j] == kept(main)(sels[k]));
                assert(items[lifted.len() + j].1);
            }
            assert forall|k: int| 0 <= k < items.len() implies (#[trigger] items[k]).0.well_formed() by {
                if k < lifted.len() {
                    lemma_filter_kept(sels, chosen, k);
                    let s = sels.filter(chosen)[k];
                    laws::lemma_reseated(s.nudged_right(right as int).nudged_up(up as int));
                    laws::lemma_reseated(s.nudged_up(up as int));
                } else {
                    lemma_filter_kept(sels, rest, k - lifted.len());
                }
            }
            lemma_place_all(Placing::empty(), items);
        }
        self.selections = state.selections;
        self.main_selection_ptr = state.main.unwrap();
    }

    /// Compute selection storage after the selection deletion.
    pub fn apply_delete<L: LineLength>(&mut self, to_delete: SelectionUnbound, line_length: &L)
        requires
            old(self)@.well_formed(),
            to_delete@.well_formed(),
            old(self)@.can_delete(to_delete@, lines_of(line_length)),
        ensures
            final(self)@ == old(self)@.deleted(to_delete@, lines_of(line_length)),
            final(self)@.well_formed(),
    {
        let _ = self.try_apply_delete(to_delete, line_length);
    }
}

impl SelectionStorage {
    /// Whether the first selection that begins after `position` can be
    /// nudged right by `right` columns.
    fn lift_fits(&self, position: PositionUnbound, right: usize) -> (r: bool)
        ensures
            r == self@.lift_fits(position@, right as int),
    {
        let ghost sels = self@.selections;
        let ghost chosen = begins_after(position@);
        let mut i: usize = 0;
        while i < self.selections.len()
            invariant
                i <= self.selections.len(),
                sels == self@.selections,
                chosen == begins_after(position@),
                sels.take(i as int).filter(chosen).len() == 0,
            decreases self.selections.len() - i,
        {
            let s = self.selections[i];
            assert(s@ == sels[i as int]);
            proof {
                lemma_filter_next(sels, chosen, i as int);
            }
            if position.lt(&s.from) {
                proof {
                    lemma_filter_first(sels, chosen, i as int);
                    lemma_fits(s);
                }
                return s.from.col.get() <= usize::MAX - right && (s.to.line.get()
                    != s.from.line.get() || s.to.col.get() <= usize::MAX - right);
            }
            i += 1;
        }
        assert(sels.take(i as int) =~= sels);
        true
    }

    /// Compute selection storage after the selection deletion, if that can
    /// be done; nothing changes otherwise, and the result says so.
    pub fn try_apply_delete<L: LineLength>(
        &mut self,
        to_delete: SelectionUnbound,
        line_length: &L,
    ) -> (done: bool)
        requires
            old(self)@.well_formed(),
            to_delete@.well_formed(),
        ensures
            done == old(self)@.can_delete(to_delete@, lines_of(line_length)),
            done ==> final(self)@ == old(self)@.deleted(to_delete@, lines_of(line_length)),
            !done ==> final(self)@ == old(self)@,
            final(self)@.well_formed(),
    {
        let (from, to) = to_delete.get_bounds();
        let to_line: usize = to.line.get();
        let to_col: usize = to.col.get();
        let from_col: usize = from.col.get();
        let from_line: usize = from.line.get();
        let at_line_end = match line_length.line_length(to_line) {
            Some(length) => to_col == length,
            None => {
                return false;
            },
        };
        let chars_delta: usize = if to_line == from_line {
            to_col - from_col + 1
        } else {
            to_col
        };
        let lines_delta = to_line - from_line + if at_line_end {
            1
        } else {
            0
        };
        let untouched = self.duplicate();
        let mut cursor = to_delete;
        cursor.drop_selection_to_head();
        self.replace_selection(cursor);
        self.move_left_on_line(to_line, to_col, chars_delta);
        if lines_delta > 0 {
            if !self.lift_fits(from, from_col - 1) {
                *self = untouched;
                return false;
            }
            self.lift(from, from_col - 1, lines_delta);
        }
        true
    }
}

impl SelectionStorage {
    /// Bring the selections to where they stand once the text whose
    /// characters `flags` stand for has been typed at every cursor, if that
    /// leads to numbers of the machine only; nothing changes otherwise, and
    /// the result says so.
    pub fn try_type(&mut self, flags: &Vec<usize>) -> (done: bool)
        requires
            old(self)@.well_formed(),
        ensures
            done == old(self)@.typed_fits(flags@, runs(flags@).len() as int),
            done ==> final(self)@ == old(self)@.typed(flags@, runs(flags@).len() as int),
            !done ==> final(self)@ == old(self)@,
            final(self)@.well_formed(),
    {
        let groups = run_lengths(flags);
        let size = flags.len();
        let ghost lengths = runs(flags@);
        proof {
            lemma_runs_total(flags@);
        }
        let mut store = self.duplicate();
        let mut at: usize = 0;
        let mut k: usize = 0;
        while k < groups.len()
            invariant
                k <= groups.len(),
                *self == *old(self),
                self@.well_formed(),
                lengths == runs(flags@),
                lengths == lengths_of(groups@),
                total(lengths) == flags@.len(),
                size == flags@.len(),
                forall|i: int| 0 <= i < lengths.len() ==> 1 <= #[trigger] lengths[i],
                at == total(lengths.take(k as int)),
                store@.well_formed(),
                store@ == self@.typed(flags@, k as int),
                self@.typed_fits(flags@, k as int),
            decreases groups.len() - k,
        {
            let length = groups[k];
            assert(lengths[k as int] == length);
            proof {
                lemma_total_take(lengths, k as int);
                lemma_total_take(lengths, k + 1);
            }
            let fits = if flags[at] == 1 {
                store.try_move_down_incremental(length)
            } else {
                store.try_move_right_incremental(length)
            };
            if !fits {
                proof {
                    if self@.typed_fits(flags@, lengths.len() as int) {
                        lemma_typed_fits(self@, flags@, k + 1, lengths.len() as int);
                    }
                }
                return false;
            }
            at += length;
            k += 1;
        }
        *self = store;
        true
    }
}

/// Storages are equal if they hold the same selections in the same order,
/// whichever of them is the main one.
impl PartialEq for SelectionStorage {
    fn eq(&self, rhs: &Self) -> (r: bool) {
        if self.selections.len() != rhs.selections.len() {
            assert(self@.selections.len() != rhs@.selections.len());
            return false;
        }
        let mut i: usize = 0;
        while i < self.selections.len()
            invariant
                i <= self.selections.len(),
                self.selections.len() == rhs.selections.len(),
                forall|k: int| 0 <= k < i ==> (#[trigger] self@.selections[k]) == rhs@.selections[k],
            decreases self.selections.len() - i,
        {
            if !self.selections[i].same(&rhs.selections[i]) {
                assert(selection_at(self@.selections, i) != selection_at(rhs@.selections, i));
                return false;
            }
            assert(selection_at(self@.selections, i) == selection_at(rhs@.selections, i));
            i += 1;
        }
        assert(self@.selections =~= rhs@.selections);
        true
    }
}

impl PartialEqSpecImpl for SelectionStorage {
    open spec fn obeys_eq_spec() -> bool {
        true
    }

    open spec fn eq_spec(&self, rhs: &Self) -> bool {
        self@.selections == rhs@.selections
    }
}

} // verus!
