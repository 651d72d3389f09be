//! The mathematical model of a set of selections.
use crate::{Change, Lines};
use crate::runs::{ranks, runs, total};
use crate::util::at_least_one;
use super::lemmas::lemma_rebuilt_points;
use super::super::{CursorDirection, Pos, Sel, SelectionUnbound};
use vstd::prelude::*;

verus! {

/// The values of a sequence of selections.
pub open spec fn views(selections: Seq<SelectionUnbound>) -> Seq<Sel> {
    selections.map_values(|s: SelectionUnbound| s@)
}

/// The selection at index `i`.
pub open spec fn selection_at(selections: Seq<Sel>, i: usize) -> Sel {
    selections[i as int]
}

/// Every selection of the sequence is well-formed.
pub open spec fn all_well_formed(selections: Seq<Sel>) -> bool {
    forall|i: int| 0 <= i < selections.len() ==> (#[trigger] selections[i]).well_formed()
}

/// Every selection of the sequence ends before the next one begins.
pub open spec fn ordered(selections: Seq<Sel>) -> bool {
    forall|i: int, j: int|
        0 <= i < j < selections.len() ==> (#[trigger] selections[i]).to.lt(
            (#[trigger] selections[j]).from,
        )
}

/// The selections that end before `ns` begins.
pub open spec fn before(selections: Seq<Sel>, ns: Sel) -> Seq<Sel> {
    selections.filter(|s: Sel| s.to.lt(ns.from))
}

/// The selections that begin after `ns` ends.
pub open spec fn after(selections: Seq<Sel>, ns: Sel) -> Seq<Sel> {
    selections.filter(|s: Sel| ns.to.lt(s.from))
}

/// The selections that overlap `ns`.
pub open spec fn hits(selections: Seq<Sel>, ns: Sel) -> Seq<Sel> {
    selections.filter(|s: Sel| s.overlaps(ns))
}

/// What `ns` becomes when it is merged with the selections `hit`, which
/// overlap it and are in order: the span from the first head to the last
/// tail, with the direction of `ns` and no sticky column. With nothing to
/// merge it stays as it is.
pub open spec fn union_of(hit: Seq<Sel>, ns: Sel) -> Sel {
    if hit.len() == 0 {
        ns
    } else {
        Sel {
            from: if hit.first().from.lt(ns.from) {
                hit.first().from
            } else {
                ns.from
            },
            to: if ns.to.lt(hit.last().to) {
                hit.last().to
            } else {
                ns.to
            },
            cursor_direction: ns.cursor_direction,
            sticky_column: None,
        }
    }
}

/// The selections after `ns` has been added: those that overlap it give way
/// to their union with it.
pub open spec fn merged_in(selections: Seq<Sel>, ns: Sel) -> Seq<Sel> {
    before(selections, ns) + seq![union_of(hits(selections, ns), ns)] + after(selections, ns)
}

/// Whether one of the selections `hit` begins at `main`.
pub open spec fn names_one_of(main: Option<Pos>, hit: Seq<Sel>) -> bool {
    main matches Some(p) && exists|k: int| 0 <= k < hit.len() && (#[trigger] hit[k]).from == p
}

/// What adding `ns` reports, `hit` being the selections that it overlaps.
/// Without a merge `ns` is added. With one, the selection that gives the
/// union its head is changed into the union, and every other one that took
/// part is deletions, `ns` last.
pub open spec fn merge_changes(hit: Seq<Sel>, ns: Sel) -> Seq<Change> {
    if hit.len() == 0 {
        seq![Change::SelectionAdded { selection: ns }]
    } else if hit.first().from.le(ns.from) {
        seq![Change::SelectionChanged { identity: hit.first().from, new_state: union_of(hit, ns) }]
            + hit.drop_first().map_values(|s: Sel| Change::SelectionDeleted { identity: s.from })
            + seq![Change::SelectionDeleted { identity: ns.from }]
    } else {
        seq![Change::SelectionChanged { identity: ns.from, new_state: union_of(hit, ns) }]
            + hit.map_values(|s: Sel| Change::SelectionDeleted { identity: s.from })
    }
}

/// What carrying a selection from where it began, at `from`, to `ns`
/// reports, `hit` being the selections that it now overlaps. Without a
/// merge the selection that `from` names is changed into `ns`; with one the
/// merge is reported, see [`merge_changes`].
pub open spec fn carry_changes(from: Pos, hit: Seq<Sel>, ns: Sel) -> Seq<Change> {
    if hit.len() == 0 {
        seq![Change::SelectionChanged { identity: from, new_state: ns }]
    } else {
        merge_changes(hit, ns)
    }
}

/// A set of selections while it is put together: the selections placed so
/// far, the head of the main selection once it is among them, and the
/// changes reported so far.
pub struct Placing {
    pub selections: Seq<Sel>,
    pub main: Option<Pos>,
    pub deltas: Seq<Change>,
}

impl Placing {
    /// Nothing placed yet.
    pub open spec fn empty() -> Placing {
        Placing { selections: Seq::empty(), main: None, deltas: Seq::empty() }
    }

    /// The state after `ns` has been placed. The selections that overlap it
    /// are merged with it; the result is the main selection if `ns` is, or
    /// if one of the merged ones was.
    pub open spec fn place(self, ns: Sel, is_main: bool) -> Placing {
        let hit = hits(self.selections, ns);
        Placing {
            selections: merged_in(self.selections, ns),
            main: if is_main || names_one_of(self.main, hit) {
                Some(union_of(hit, ns).from)
            } else {
                self.main
            },
            deltas: self.deltas + merge_changes(hit, ns),
        }
    }

    /// The state after `ns` has been placed without a report of it.
    pub open spec fn place_quietly(self, ns: Sel, is_main: bool) -> Placing {
        Placing { deltas: self.deltas, ..self.place(ns, is_main) }
    }

    /// The state after `ns` has taken the place of the selections that it
    /// overlaps: they are gone and `ns` stands as it is, as the main
    /// selection if one of them was. Nothing is reported.
    pub open spec fn replace(self, ns: Sel) -> Placing {
        Placing {
            selections: before(self.selections, ns) + seq![ns] + after(self.selections, ns),
            main: if names_one_of(self.main, hits(self.selections, ns)) {
                Some(ns.from)
            } else {
                self.main
            },
            deltas: self.deltas,
        }
    }

    /// The state after each of `items` has been placed in turn; the flag of
    /// an item says whether it is the main selection.
    pub open spec fn place_all(self, items: Seq<(Sel, bool)>) -> Placing
        decreases items.len(),
    {
        if items.len() == 0 {
            self
        } else {
            self.place_all(items.drop_last()).place(items.last().0, items.last().1)
        }
    }

    /// The selections are well-formed, in order and apart, and the main
    /// selection, where there is one, is among them.
    pub open spec fn well_formed(self) -> bool {
        &&& all_well_formed(self.selections)
        &&& ordered(self.selections)
        &&& self.main matches Some(p) ==> exists|k: int|
            0 <= k < self.selections.len() && (#[trigger] self.selections[k]).from == p
    }
}

/// Where selections that are in order are split by `ns`: the number of
/// those that end before it begins.
pub open spec fn split_low(selections: Seq<Sel>, ns: Sel) -> int {
    before(selections, ns).len() as int
}

/// Where selections that are in order are split by `ns`: the index of the
/// first that begins after it ends.
pub open spec fn split_high(selections: Seq<Sel>, ns: Sel) -> int {
    selections.len() - after(selections, ns).len()
}

/// The deletions of the selections `gone`.
pub open spec fn deletions(gone: Seq<Sel>) -> Seq<Change> {
    gone.map_values(|s: Sel| Change::SelectionDeleted { identity: s.from })
}

/// A set of selections as a mathematical value: the selections in document
/// order, and the head of the main one.
pub struct Store {
    pub selections: Seq<Sel>,
    pub main: Pos,
}

impl Store {
    /// There is at least one selection, every selection is well-formed, each
    /// ends before the next begins, and the main selection is one of them.
    pub open spec fn well_formed(self) -> bool {
        &&& self.selections.len() >= 1
        &&& all_well_formed(self.selections)
        &&& ordered(self.selections)
        &&& exists|k: int|
            0 <= k < self.selections.len() && (#[trigger] self.selections[k]).from == self.main
    }

    /// The set of a fresh buffer: the bare cursor on the first slot.
    pub open spec fn fresh() -> Store {
        Store {
            selections: seq![Sel::point(Pos { line: 1, col: 1 })],
            main: Pos { line: 1, col: 1 },
        }
    }

    /// The set as the start of further placing, with nothing reported yet.
    pub open spec fn placing(self) -> Placing {
        Placing { selections: self.selections, main: Some(self.main), deltas: Seq::empty() }
    }

    /// The set that placing has arrived at.
    pub open spec fn of(p: Placing) -> Store {
        Store { selections: p.selections, main: p.main.unwrap() }
    }

    /// Every selection is a bare cursor.
    pub open spec fn all_points(self) -> bool {
        forall|i: int| 0 <= i < self.selections.len() ==> (#[trigger] self.selections[i]).is_point()
    }

    /// The set after `ns` has been added to it.
    pub open spec fn added(self, ns: Sel) -> Placing {
        self.placing().place(ns, false)
    }

    /// The selections `changed`, which take the places of the selections of
    /// the set one for one, each with the mark of the main selection where
    /// it takes the place of that one.
    pub open spec fn marked(self, changed: Seq<Sel>) -> Seq<(Sel, bool)> {
        Seq::new(changed.len(), |i: int| (changed[i], self.selections[i].from == self.main))
    }

    /// The set put together anew from `changed`, which take the places of
    /// its selections one for one: each is placed in turn, and those that
    /// now overlap are merged.
    pub open spec fn rebuilt(self, changed: Seq<Sel>) -> Placing {
        Placing::empty().place_all(self.marked(changed))
    }

    /// What is reported where the selections of the set are carried to
    /// `changed` one for one, each placed in turn: the change of each from
    /// where it began to where it is now, or the merge where it now overlaps
    /// one placed before it.
    pub open spec fn carried_changes(self, changed: Seq<Sel>) -> Seq<Change>
        decreases changed.len(),
    {
        if changed.len() == 0 {
            Seq::empty()
        } else {
            self.carried_changes(changed.drop_last()) + carry_changes(
                self.selections[changed.len() - 1].from,
                hits(self.rebuilt(changed.drop_last()).selections, changed.last()),
                changed.last(),
            )
        }
    }

    /// The set after its selections have been carried to `changed` one for
    /// one: the set put together anew from them, and the report of it.
    pub open spec fn carried(self, changed: Seq<Sel>) -> Placing {
        Placing { deltas: self.carried_changes(changed), ..self.rebuilt(changed) }
    }

    /// The set after every selection has swapped its cursor.
    pub open spec fn swapped(self) -> Placing {
        self.carried(self.selections.map_values(|s: Sel| s.swapped()))
    }

    /// The set after every cursor has moved `n` slots to the left.
    pub open spec fn moved_left(self, n: int, extend: bool, m: Lines) -> Placing {
        self.carried(self.selections.map_values(|s: Sel| s.moved_left(n, extend, m)))
    }

    /// The set after every cursor has moved `n` slots to the right.
    pub open spec fn moved_right(self, n: int, extend: bool, m: Lines) -> Placing {
        self.carried(self.selections.map_values(|s: Sel| s.moved_right(n, extend, m)))
    }

    /// The set after every cursor has moved `n` lines up.
    pub open spec fn moved_up(self, n: int, extend: bool, m: Lines) -> Placing {
        self.carried(self.selections.map_values(|s: Sel| s.moved_up(n, extend, m)))
    }

    /// The set after every cursor has moved `n` lines down.
    pub open spec fn moved_down(self, n: int, extend: bool, m: Lines) -> Placing {
        self.carried(self.selections.map_values(|s: Sel| s.moved_down(n, extend, m)))
    }
}

/// What a function on selections has made of `before`, one for one.
pub open spec fn applied<F: Fn(SelectionUnbound) -> SelectionUnbound>(
    f: F,
    before: Seq<SelectionUnbound>,
    changed: Seq<SelectionUnbound>,
) -> bool {
    &&& changed.len() == before.len()
    &&& forall|i: int|
        0 <= i < before.len() ==> call_ensures(f, (#[trigger] before[i],), changed[i])
}

impl Store {
    /// Where every selection of `moved` comes from a selection of the set by
    /// a movement, the set put together from them is made of bare cursors
    /// unless the movement extends.
    pub proof fn lemma_all_moved(self, moved: Seq<Sel>, extend: bool)
        requires
            self.well_formed(),
            moved.len() == self.selections.len(),
            all_well_formed(moved),
            !extend ==> forall|i: int| 0 <= i < moved.len() ==> (#[trigger] moved[i]).is_point(),
        ensures
            !extend ==> Store::of(self.rebuilt(moved)).all_points(),
    {
        if !extend {
            lemma_rebuilt_points(self, moved, moved.len() as int);
            assert(self.marked(moved).take(moved.len() as int) =~= self.marked(moved));
        }
    }
}

/// The last of the selections that end before `p`, if there is one.
pub open spec fn first_before(selections: Seq<Sel>, p: Pos) -> Option<Sel> {
    let ending = selections.filter(|s: Sel| s.to.lt(p));
    if ending.len() > 0 {
        Some(ending.last())
    } else {
        None
    }
}

/// Whether a selection ends at `p` or behind it.
pub open spec fn ends_by(p: Pos) -> spec_fn(Sel) -> bool {
    |s: Sel| !s.to.lt(p)
}

/// The selections that a list of candidates gives: each candidate in turn
/// is taken unless it overlaps one taken before it.
pub open spec fn taken_apart(candidates: Seq<Sel>) -> Seq<Sel>
    decreases candidates.len(),
{
    if candidates.len() == 0 {
        Seq::empty()
    } else {
        let taken = taken_apart(candidates.drop_last());
        if hits(taken, candidates.last()).len() == 0 {
            merged_in(taken, candidates.last())
        } else {
            taken
        }
    }
}

/// The selection that four numbers and a flag stand for: head line and
/// column, tail line and column, and whether the cursor is at the tail. A
/// zero counts as one, and ends out of order are put in order.
pub open spec fn quick(t: (usize, usize, usize, usize, bool)) -> Sel {
    Sel {
        from: Pos { line: at_least_one(t.0 as int), col: at_least_one(t.1 as int) },
        to: Pos { line: at_least_one(t.2 as int), col: at_least_one(t.3 as int) },
        cursor_direction: if t.4 {
            CursorDirection::Forward
        } else {
            CursorDirection::Backward
        },
        sticky_column: None,
    }.reseated()
}

/// Whether a selection begins on `line`, beyond column `after`.
pub open spec fn begins_on_line_after(line: int, after: int) -> spec_fn(Sel) -> bool {
    |s: Sel| s.from.line == line && s.from.col > after
}

/// Whether a selection does not begin on `line` beyond column `after`.
pub open spec fn begins_elsewhere(line: int, after: int) -> spec_fn(Sel) -> bool {
    |s: Sel| !(s.from.line == line && s.from.col > after)
}

/// A selection as it is, with the mark of the main selection where it
/// begins at `main`.
pub open spec fn kept(main: Pos) -> spec_fn(Sel) -> (Sel, bool) {
    |s: Sel| (s, s.from == main)
}

/// A selection nudged `n` columns to the left, with the mark of the main
/// selection where it begins at `main`.
pub open spec fn pulled_left(main: Pos, n: int) -> spec_fn(Sel) -> (Sel, bool) {
    |s: Sel| (s.nudged_left(n).reseated(), s.from == main)
}

impl Store {
    /// The set after the selections that begin on `line`, beyond column
    /// `after`, have been nudged `n` columns to the left: these are placed
    /// first, the others after them.
    pub open spec fn nudged_on_line(self, line: int, after: int, n: int) -> Placing {
        Placing::empty().place_all(
            self.selections.filter(begins_on_line_after(line, after)).map_values(
                pulled_left(self.main, n),
            ) + self.selections.filter(begins_elsewhere(line, after)).map_values(kept(self.main)),
        )
    }

    /// The set after `to` has taken the place of the selections that it
    /// overlaps.
    pub open spec fn replaced(self, to: Sel) -> Placing {
        self.placing().replace(to)
    }
}

impl Store {
    /// The lines on which the selections begin.
    pub open spec fn head_lines(self) -> Seq<int> {
        self.selections.map_values(|s: Sel| s.from.line)
    }

    /// The selections after text of `n` characters without a line break
    /// has been typed at every cursor. Selections that begin on the same
    /// line and follow one another form a group; the first of a group is
    /// pushed by `n`, the second by twice `n`, and so on.
    pub open spec fn typed_right(self, n: int) -> Seq<Sel> {
        Seq::new(
            self.selections.len(),
            |i: int| self.selections[i].pushed_right(n * ranks(runs(self.head_lines()))[i]),
        )
    }

    /// The set after text of `n` characters without a line break has been
    /// typed at every cursor.
    pub open spec fn pushed_right(self, n: int) -> Placing {
        self.rebuilt(self.typed_right(n))
    }

    /// The selections after `n` line breaks have been typed at every
    /// cursor: the first is pushed by `n`, the second by twice `n`, and so
    /// on.
    pub open spec fn typed_down(self, n: int) -> Seq<Sel> {
        Seq::new(
            self.selections.len(),
            |i: int| self.selections[i].pushed_down(n * (i + 1), n).reseated(),
        )
    }

    /// The set after `n` line breaks have been typed at every cursor.
    pub open spec fn pushed_down(self, n: int) -> Placing {
        self.rebuilt(self.typed_down(n))
    }

    /// Every selection of `changed` is made of numbers of the machine.
    pub open spec fn all_fit(changed: Seq<Sel>) -> bool {
        forall|i: int| 0 <= i < changed.len() ==> (#[trigger] changed[i]).fits()
    }
}

impl Store {
    /// The state after a copy has been placed under each of the first `k`
    /// selections for which there is room, see [`Sel::under`], and the
    /// selections themselves have been placed again. Only the copies are
    /// reported. The copy under the main selection is the main selection
    /// from then on.
    pub open spec fn multiplied(self, m: Lines, k: int) -> Placing
        decreases k,
    {
        if k <= 0 {
            Placing::empty()
        } else {
            let so_far = self.multiplied(m, k - 1);
            let s = self.selections[k - 1];
            match s.under(m) {
                Some(copy) => so_far.place(copy, s.from == self.main).place_quietly(s, false),
                None => so_far.place_quietly(s, s.from == self.main),
            }
        }
    }

    /// The set after a copy has been placed under each selection for which
    /// there is room.
    pub open spec fn placed_under(self, m: Lines) -> Placing {
        self.multiplied(m, self.selections.len() as int)
    }
}

/// Whether a selection begins after `p`.
pub open spec fn begins_after(p: Pos) -> spec_fn(Sel) -> bool {
    |s: Sel| p.lt(s.from)
}

/// Whether a selection begins at `p` or before it.
pub open spec fn begins_by(p: Pos) -> spec_fn(Sel) -> bool {
    |s: Sel| !p.lt(s.from)
}

/// The selections `behind`, which stood behind line breaks that are gone,
/// on the lines where they stand now: each is nudged up by `up` lines, and
/// the first of them, which goes on behind what stands before the line
/// breaks, is first nudged right by `right` columns. Each has the mark of the
/// main selection where it began at `main`.
pub open spec fn spliced(behind: Seq<Sel>, main: Pos, right: int, up: int) -> Seq<(Sel, bool)> {
    Seq::new(
        behind.len(),
        |k: int|
            (
                if k == 0 {
                    behind[k].nudged_right(right).nudged_up(up).reseated()
                } else {
                    behind[k].nudged_up(up).reseated()
                },
                behind[k].from == main,
            ),
    )
}

impl Store {
    /// The set after the selections that begin after `p` have been taken
    /// up by `up` lines, see [`spliced`]: these are placed first, the others
    /// after them.
    pub open spec fn lifted(self, p: Pos, right: int, up: int) -> Placing {
        Placing::empty().place_all(
            spliced(self.selections.filter(begins_after(p)), self.main, right, up)
                + self.selections.filter(begins_by(p)).map_values(kept(self.main)),
        )
    }

    /// The first selection that begins after `p`, nudged right by `right`
    /// columns, is made of numbers of the machine.
    pub open spec fn lift_fits(self, p: Pos, right: int) -> bool {
        self.selections.filter(begins_after(p)).len() > 0 ==> self.selections.filter(
            begins_after(p),
        )[0].nudged_right(right).fits()
    }

    /// The number of characters that go from the last line of `gone` when
    /// it is deleted.
    pub open spec fn chars_gone(gone: Sel) -> int {
        if gone.to.line == gone.from.line {
            gone.to.col - gone.from.col + 1
        } else {
            gone.to.col
        }
    }

    /// The number of line breaks that go when `gone` is deleted: those
    /// within it, and the one at its end if its tail is the last slot of a
    /// line.
    pub open spec fn lines_gone(gone: Sel, m: Lines) -> int {
        gone.to.line - gone.from.line + if gone.to.col == m.lengths[gone.to.line] {
            1int
        } else {
            0int
        }
    }

    /// The set after `gone` has been dropped to its head and the selections
    /// behind it on its last line have been nudged left by what it held
    /// there.
    pub open spec fn closed_up(self, gone: Sel) -> Store {
        Store::of(
            Store::of(self.replaced(gone.collapsed_to_head())).nudged_on_line(
                gone.to.line,
                gone.to.col,
                Store::chars_gone(gone),
            ),
        )
    }

    /// The set after the text of the selection `gone` has been deleted.
    /// `gone` is dropped to a bare cursor at its head. The selections behind
    /// it on its last line are nudged left by what it held there. If line
    /// breaks go with it, every selection behind it is nudged up by their
    /// number, and the first of them is nudged right to where the head now
    /// stands.
    pub open spec fn deleted(self, gone: Sel, m: Lines) -> Store {
        if Store::lines_gone(gone, m) > 0 {
            Store::of(
                self.closed_up(gone).lifted(
                    gone.from,
                    gone.from.col - 1,
                    Store::lines_gone(gone, m),
                ),
            )
        } else {
            self.closed_up(gone)
        }
    }

    /// Deleting `gone` leads to numbers of the machine only.
    pub open spec fn delete_fits(self, gone: Sel, m: Lines) -> bool {
        Store::lines_gone(gone, m) > 0 ==> self.closed_up(gone).lift_fits(
            gone.from,
            gone.from.col - 1,
        )
    }
}

/// The main selection of a well-formed set is the only one that begins
/// where the set says that the main selection begins.
pub open spec fn main_index(store: Store) -> int {
    choose|k: int| 0 <= k < store.selections.len() && (#[trigger] store.selections[k]).from == store.main
}

impl Store {
    /// The text of `gone` can be deleted: the line of its tail has a
    /// length, and deleting leads to numbers of the machine only.
    pub open spec fn can_delete(self, gone: Sel, m: Lines) -> bool {
        m.lengths.contains_key(gone.to.line) && self.delete_fits(gone, m)
    }
}

/// Both ends of every selection name slots of `m`.
pub open spec fn all_within(selections: Seq<Sel>, m: Lines) -> bool {
    forall|i: int| 0 <= i < selections.len() ==> (#[trigger] selections[i]).within(m)
}

impl Store {
    /// The set after the first `k` runs of a text have been typed at every
    /// cursor. `flags` says for each character of the text whether it is a
    /// line feed (1) or not (0), so that its runs are the stretches of line
    /// feeds and the stretches between them. A run of line feeds pushes the
    /// selections down, any other pushes them right.
    pub open spec fn typed(self, flags: Seq<usize>, k: int) -> Store
        decreases k,
    {
        if k <= 0 {
            self
        } else {
            let so_far = self.typed(flags, k - 1);
            if flags[total(runs(flags).take(k - 1))] == 1 {
                Store::of(so_far.pushed_down(runs(flags)[k - 1]))
            } else {
                Store::of(so_far.pushed_right(runs(flags)[k - 1]))
            }
        }
    }

    /// Typing the first `k` runs of a text leads to numbers of the machine
    /// only.
    pub open spec fn typed_fits(self, flags: Seq<usize>, k: int) -> bool
        decreases k,
    {
        if k <= 0 {
            true
        } else {
            let so_far = self.typed(flags, k - 1);
            &&& self.typed_fits(flags, k - 1)
            &&& if flags[total(runs(flags).take(k - 1))] == 1 {
                Store::all_fit(so_far.typed_down(runs(flags)[k - 1]))
            } else {
                Store::all_fit(so_far.typed_right(runs(flags)[k - 1]))
            }
        }
    }
}

} // verus!
