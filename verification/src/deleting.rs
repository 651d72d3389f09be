//! What deleting does to a buffer whose lines end in a line feed, alone or
//! behind a carriage return: a single selection drops to a bare cursor at
//! its head, which stands on a slot of what is left of the text; selections
//! within lines leave a coherent buffer of bare cursors; and deleting just
//! what was typed gives the text back.
use crate::{CursorDirection, Lines};
use crate::buffer::{
    Contents, deleting, lemma_delete_range, lemma_index_within, lemma_text_lines, text_lines,
};
use crate::selections::{Pos, Sel};
use crate::selections::laws::lemma_reseated;
use crate::selections::storage::{
    all_well_formed, begins_after, begins_by, begins_elsewhere, begins_on_line_after, first_before,
    hits, kept, kept_by_merging, lemma_filter_kept, lemma_filter_prefix, lemma_filter_run,
    lemma_first_before, lemma_main_is_marked, lemma_place_all, lemma_place_all_keeps,
    lemma_place_behind, lemma_replace, lemma_split, lemma_split_at, ordered, Placing, pulled_left,
    span, spliced, split_high, split_low, Store,
};
use crate::text::{
    char_index, content_end, inserted_at_all, is_line_end_char, law_insert_then_remove,
    lemma_content_reaches,
    lemma_line_begins_behind_feed, lemma_line_breaks_before, lemma_line_breaks_of_both,
    lemma_line_start_of_both, lemma_line_starts, lemma_line_starts_in_order, lemma_slots,
    line_breaks, line_count, line_start, slots, with_inserted, with_removed,
};
use crate::typing::{
    law_typing_at_bare_cursors, lemma_no_feeds, lemma_place_on_line, lemma_slot_line,
};
use vstd::prelude::*;

verus! {

/// The set of the selection `s` alone.
pub open spec fn alone(s: Sel) -> Store {
    Store { selections: seq![s], main: s.from }
}

/// What a filter keeps of a single element.
proof fn lemma_filter_one<A>(x: A, pred: spec_fn(A) -> bool)
    ensures
        seq![x].filter(pred) == if pred(x) {
            seq![x]
        } else {
            Seq::<A>::empty()
        },
{
    reveal(Seq::filter);
    assert(seq![x].drop_last() =~= Seq::<A>::empty());
    assert(Seq::<A>::empty().filter(pred) =~= Seq::<A>::empty());
    if pred(x) {
        assert(Seq::<A>::empty().push(x) =~= seq![x]);
    }
}

/// A set that is put together from a single selection holds it, as its
/// main selection.
pub proof fn lemma_place_one(s: Sel)
    requires
        s.well_formed(),
    ensures
        Placing::empty().place_all(seq![(s, true)]).selections == seq![s],
        Placing::empty().place_all(seq![(s, true)]).main == Some(s.from),
{
    let items = seq![(s, true)];
    assert(items.drop_last() =~= Seq::empty());
    assert(Placing::empty().place_all(items.drop_last()) == Placing::empty());
    lemma_place_behind(Placing::empty(), s, true);
    assert(Seq::<Sel>::empty().push(s) =~= seq![s]);
}

/// The head of a selection takes the place of the selection where that is
/// alone.
proof fn lemma_replaced_alone(s: Sel)
    requires
        s.well_formed(),
    ensures
        Store::of(alone(s).replaced(s.collapsed_to_head())) == alone(s.collapsed_to_head()),
{
    let store = alone(s);
    let cursor = s.collapsed_to_head();
    lemma_split_at(store.selections, cursor, 0, 1);
    assert(store.selections.subrange(0, 0) =~= Seq::empty());
    assert(store.selections.subrange(1, 1) =~= Seq::empty());
    assert(store.selections.subrange(0, 1) =~= seq![s]);
    assert(hits(store.selections, cursor)[0].from == store.main);
    assert(Store::of(store.replaced(cursor)).selections =~= seq![cursor]);
}

/// Nothing is nudged where a selection is alone and does not begin where
/// the nudge begins.
proof fn lemma_nudged_alone(s: Sel, line: int, after: int, n: int)
    requires
        s.well_formed(),
        !(s.from.line == line && s.from.col > after),
    ensures
        Store::of(alone(s).nudged_on_line(line, after, n)) == alone(s),
{
    let store = alone(s);
    lemma_filter_one(s, begins_on_line_after(line, after));
    lemma_filter_one(s, begins_elsewhere(line, after));
    assert(store.selections.filter(begins_on_line_after(line, after)).map_values(
        pulled_left(store.main, n),
    ) =~= Seq::empty());
    assert(store.selections.filter(begins_elsewhere(line, after)).map_values(kept(store.main))
        =~= seq![(s, true)]);
    assert(Seq::<(Sel, bool)>::empty() + seq![(s, true)] =~= seq![(s, true)]);
    lemma_place_one(s);
}

/// Nothing is lifted where a selection is alone and does not begin behind
/// the place from which selections are lifted.
proof fn lemma_lifted_alone(s: Sel, p: Pos, right: int, up: int)
    requires
        s.well_formed(),
        !p.lt(s.from),
    ensures
        Store::of(alone(s).lifted(p, right, up)) == alone(s),
        alone(s).lift_fits(p, right),
{
    let store = alone(s);
    lemma_filter_one(s, begins_after(p));
    lemma_filter_one(s, begins_by(p));
    assert(spliced(store.selections.filter(begins_after(p)), store.main, right, up)
        =~= Seq::empty());
    assert(store.selections.filter(begins_by(p)).map_values(kept(store.main)) =~= seq![
        (s, true),
    ]);
    assert(Seq::<(Sel, bool)>::empty() + seq![(s, true)] =~= seq![(s, true)]);
    lemma_place_one(s);
}

/// Deleting the one selection of a set leaves the bare cursor at its head,
/// and can be done whatever the lines are.
pub proof fn lemma_deleted_alone(store: Store, m: Lines)
    requires
        store.well_formed(),
        store.selections.len() == 1,
    ensures
        store == alone(store.selections[0]),
        store.deleted(store.selections[0], m) == alone(store.selections[0].collapsed_to_head()),
        store.delete_fits(store.selections[0], m),
        first_before(store.selections, store.selections[0].from) is None,
        alone(store.selections[0].collapsed_to_head()).well_formed(),
{
    let s = store.selections[0];
    let cursor = s.collapsed_to_head();
    assert(s.well_formed());
    assert(store.main == s.from);
    assert(store.selections =~= seq![s]);
    lemma_replaced_alone(s);
    lemma_nudged_alone(cursor, s.to.line, s.to.col, Store::chars_gone(s));
    lemma_lifted_alone(cursor, s.from, s.from.col - 1, Store::lines_gone(s, m));
    lemma_filter_one(s, |x: Sel| x.to.lt(s.from));
    assert(alone(cursor).selections[0].from == alone(cursor).main);
}

/// Whether the lines of `text` end tidily: every carriage return stands
/// right before a line feed, so that a line ends in a line feed alone or in
/// a carriage return and a line feed.
pub open spec fn tidy_line_ends(text: Seq<char>) -> bool {
    forall|i: int|
        0 <= i < text.len() && #[trigger] text[i] == '\r' ==> i + 1 < text.len() && text[i + 1]
            == '\n'
}

/// The number of characters that end line `line` of `text`, lines counted
/// from 1: none for the last line, two where a carriage return stands before
/// the line feed, one otherwise.
pub open spec fn line_end_length(text: Seq<char>, line: int) -> int {
    if line > line_breaks(text) {
        0
    } else if line_start(text, line) - 2 >= line_start(text, line - 1) && text[line_start(
        text,
        line,
    ) - 2] == '\r' {
        2
    } else {
        1
    }
}

/// What is left of a text once the text of a selection on its slots is
/// deleted is no longer, and has no more lines, than the text. The head of
/// the selection stands on a slot of it where the head begins its line, or
/// stands behind a character that is no line-end character; on a text whose
/// lines end tidily it always does.
pub proof fn lemma_head_stays_within(c: Contents, s: Sel)
    requires
        s.well_formed(),
        s.within(c.lines()),
    ensures
        c.without(s).text.len() <= c.text.len(),
        line_breaks(c.without(s).text) <= line_breaks(c.text),
        0 <= c.head_index(s) <= c.text.len(),
        tidy_line_ends(c.text) || c.head_index(s) == line_start(c.text, s.from.line - 1)
            || !is_line_end_char(c.text[c.head_index(s) - 1]) ==> s.from.within(
            text_lines(c.without(s).text),
        ),
{
    let text = c.text;
    let left = c.without(s).text;
    let head = c.head_index(s);
    let tail = c.tail_index(s);
    let line = s.from.line;
    lemma_delete_range(c, s);
    lemma_index_within(text, s.from);
    lemma_slot_line(text, s.from);
    if tail < text.len() {
        let front = text.take(head);
        let gone = text.subrange(head, tail + 1);
        let back = text.skip(tail + 1);
        assert(left =~= front + back);
        assert(text =~= front + (gone + back));
        lemma_line_breaks_of_both(front, back);
        lemma_line_breaks_of_both(gone, back);
        lemma_line_breaks_of_both(front, gone + back);
        lemma_line_starts(gone, 0);
        lemma_line_starts(back, 0);
        lemma_line_starts(back, 1);
        lemma_line_starts(left, line - 1);
        lemma_line_start_of_both(front, back, line - 1);
        lemma_line_start_of_both(front, back, line);
        lemma_line_start_of_both(front, gone + back, line - 1);
        if head > line_start(text, line - 1) {
            // the character before the head is no line feed: as many line
            // feeds stand before it as before the head
            lemma_line_breaks_before(text, line - 1, head - 1);
            assert(front.drop_last() =~= text.take(head - 1));
            assert(left[head - 1] == text[head - 1]);
            if tidy_line_ends(text) {
                lemma_content_is_plain(text, line, head - 1);
            }
        }
        if head == line_start(text, line - 1) || !is_line_end_char(text[head - 1]) {
            lemma_content_reaches(left, line_start(left, line - 1), line_start(left, line), head);
        }
    }
}

/// Deleting in a buffer with a single selection: if the selection lies on
/// the slots of the text, its text goes and the selection drops to a bare
/// cursor at its head. The buffer is coherent again where the head begins
/// its line or stands behind a character that is no line-end character, as
/// it always does on a text whose lines end tidily.
pub proof fn law_deleting_alone(c: Contents)
    requires
        c.well_formed(),
        c.coherent(),
        c.store.selections.len() == 1,
    ensures
        deleting(c, c.store.selections[0]) == (c.without(c.store.selections[0]), true),
        c.without(c.store.selections[0]).store == alone(
            c.store.selections[0].collapsed_to_head(),
        ),
        c.without(c.store.selections[0]).well_formed(),
        tidy_line_ends(c.text) || c.head_index(c.store.selections[0]) == line_start(
            c.text,
            c.store.selections[0].from.line - 1,
        ) || !is_line_end_char(c.text[c.head_index(c.store.selections[0]) - 1]) ==> c.without(
            c.store.selections[0],
        ).coherent(),
{
    let s = c.store.selections[0];
    let after = c.without(s);
    assert(s.well_formed() && s.within(c.lines()));
    lemma_deleted_alone(c.store, c.lines());
    lemma_head_stays_within(c, s);
    assert(after.store.selections[0] == s.collapsed_to_head());
    if tidy_line_ends(c.text) || c.head_index(s) == line_start(c.text, s.from.line - 1)
        || !is_line_end_char(c.text[c.head_index(s) - 1]) {
        assert forall|i: int| 0 <= i < after.store.selections.len() implies (
        #[trigger] after.store.selections[i]).within(after.lines()) by {
            assert(after.store.selections[i] == s.collapsed_to_head());
        }
    }
}

/// Every selection is a bare cursor, or ends before `p` and begins at one
/// of `heads`.
pub open spec fn tame(selections: Seq<Sel>, heads: Set<Pos>, p: Pos) -> bool {
    forall|i: int|
        0 <= i < selections.len() ==> (#[trigger] selections[i]).is_point() || (
        selections[i].to.lt(p) && heads.contains(selections[i].from))
}

/// What is merged of bare cursors and of ranges that end before `p` and
/// begin at one of `heads` is a bare cursor or such a range.
pub proof fn lemma_tame_is_kept(heads: Set<Pos>, p: Pos)
    ensures
        kept_by_merging(|y: Sel| y.is_point() || (y.to.lt(p) && heads.contains(y.from))),
{
    let pred = |y: Sel| y.is_point() || (y.to.lt(p) && heads.contains(y.from));
    assert forall|first: Sel, ns: Sel, last: Sel|
        #![trigger span(first, ns, last)]
        first.well_formed() && ns.well_formed() && last.well_formed() && pred(first) && pred(ns)
            && pred(last) && first.overlaps(ns) && last.overlaps(ns) && (first == last
            || first.to.lt(last.from)) implies pred(span(first, ns, last)) by {}
}

/// Placing selections that are bare cursors, or end before `p` and begin
/// at one of `heads`, leaves selections of which that holds.
pub proof fn lemma_place_all_tame(state: Placing, items: Seq<(Sel, bool)>, heads: Set<Pos>, p: Pos)
    requires
        state.well_formed(),
        tame(state.selections, heads, p),
        forall|i: int| 0 <= i < items.len() ==> (#[trigger] items[i]).0.well_formed(),
        forall|i: int|
            0 <= i < items.len() ==> (#[trigger] items[i]).0.is_point() || (items[i].0.to.lt(p)
                && heads.contains(items[i].0.from)),
    ensures
        tame(state.place_all(items).selections, heads, p),
{
    lemma_tame_is_kept(heads, p);
    lemma_place_all_keeps(
        state,
        items,
        |y: Sel| y.is_point() || (y.to.lt(p) && heads.contains(y.from)),
    );
}

/// The heads of the selections that end before `p`.
pub open spec fn heads_before(selections: Seq<Sel>, p: Pos) -> Set<Pos> {
    Set::new(
        |h: Pos|
            exists|i: int|
                0 <= i < selections.len() && (#[trigger] selections[i]).to.lt(p)
                    && selections[i].from == h,
    )
}

/// Every selection is a bare cursor or begins at `p` or before it.
pub open spec fn ranges_begin_by(selections: Seq<Sel>, p: Pos) -> bool {
    forall|i: int|
        0 <= i < selections.len() ==> (#[trigger] selections[i]).is_point()
            || selections[i].from.le(p)
}

/// Where the ranges of a set begin at the head of `s` or before it, and
/// the head of `s` takes the place of what it overlaps, the ranges that are
/// left end before that head.
pub proof fn lemma_replaced_tame(store: Store, s: Sel)
    requires
        store.well_formed(),
        s.well_formed(),
        ranges_begin_by(store.selections, s.from),
    ensures
        Store::of(store.replaced(s.collapsed_to_head())).well_formed(),
        tame(
            Store::of(store.replaced(s.collapsed_to_head())).selections,
            heads_before(store.selections, s.from),
            s.from,
        ),
{
    let cursor = s.collapsed_to_head();
    let sels = store.selections;
    lemma_replace(store.placing(), cursor);
    lemma_split(sels, cursor);
    let lo = split_low(sels, cursor);
    let hi = split_high(sels, cursor);
    let out = Store::of(store.replaced(cursor)).selections;
    assert(out == sels.subrange(0, lo) + seq![cursor] + sels.subrange(hi, sels.len() as int));
    let heads = heads_before(sels, s.from);
    assert forall|i: int| 0 <= i < out.len() implies (#[trigger] out[i]).is_point() || (
    out[i].to.lt(s.from) && heads.contains(out[i].from)) by {
        if i < lo {
            assert(out[i] == sels[i]);
            assert(sels[i].to.lt(s.from)) by {
                lemma_filter_kept(sels, |x: Sel| x.to.lt(cursor.from), i);
                assert(sels.subrange(0, lo)[i] == sels[i]);
            }
        } else if i > lo {
            let k = i - lo - 1 + hi;
            assert(out[i] == sels[k]);
            assert(cursor.to.lt(sels[k].from)) by {
                lemma_filter_kept(sels, |x: Sel| cursor.to.lt(x.from), i - lo - 1);
                assert(sels.subrange(hi, sels.len() as int)[i - lo - 1] == sels[k]);
            }
            assert(sels[k].well_formed());
        }
    }
}

/// Nudging the selections behind a place on its line leaves a well-formed
/// set, and bare cursors and ranges that end before that place as they are
/// in kind.
pub proof fn lemma_nudged_tame(store: Store, line: int, after: int, n: int, heads: Set<Pos>, p: Pos)
    requires
        store.well_formed(),
        tame(store.selections, heads, p),
        p.le(Pos { line: line, col: after }),
    ensures
        Store::of(store.nudged_on_line(line, after, n)).well_formed(),
        tame(Store::of(store.nudged_on_line(line, after, n)).selections, heads, p),
{
    let sels = store.selections;
    let chosen = begins_on_line_after(line, after);
    let rest = begins_elsewhere(line, after);
    let pulled = sels.filter(chosen).map_values(pulled_left(store.main, n));
    let others = sels.filter(rest).map_values(kept(store.main));
    let items = pulled + others;
    assert forall|k: int| 0 <= k < items.len() implies (#[trigger] items[k]).0.well_formed() && (
    items[k].0.is_point() || (items[k].0.to.lt(p) && heads.contains(items[k].0.from))) by {
        if k < pulled.len() {
            lemma_filter_kept(sels, chosen, k);
            let x = sels.filter(chosen)[k];
            assert(x.well_formed());
            lemma_reseated(x.nudged_left(n));
        } else {
            lemma_filter_kept(sels, rest, k - pulled.len());
            let x = sels.filter(rest)[k - pulled.len()];
            assert(x.well_formed());
        }
    }
    lemma_main_is_marked(store, chosen, rest, pulled_left(store.main, n), kept(store.main));
    lemma_place_all(Placing::empty(), items);
    lemma_place_all_tame(Placing::empty(), items, heads, p);
}

/// Lifting the selections behind a place leaves a well-formed set, and bare
/// cursors and ranges that end before that place as they are in kind.
pub proof fn lemma_lifted_tame(store: Store, right: int, up: int, heads: Set<Pos>, p: Pos)
    requires
        store.well_formed(),
        tame(store.selections, heads, p),
        right >= 0,
    ensures
        Store::of(store.lifted(p, right, up)).well_formed(),
        tame(Store::of(store.lifted(p, right, up)).selections, heads, p),
{
    let sels = store.selections;
    let chosen = begins_after(p);
    let rest = begins_by(p);
    let lifted = spliced(sels.filter(chosen), store.main, right, up);
    let others = sels.filter(rest).map_values(kept(store.main));
    let items = lifted + others;
    assert forall|k: int| 0 <= k < items.len() implies (#[trigger] items[k]).0.well_formed() && (
    items[k].0.is_point() || (items[k].0.to.lt(p) && heads.contains(items[k].0.from))) by {
        if k < lifted.len() {
            lemma_filter_kept(sels, chosen, k);
            let x = sels.filter(chosen)[k];
            assert(x.well_formed());
            lemma_reseated(x.nudged_right(right).nudged_up(up));
            lemma_reseated(x.nudged_up(up));
        } else {
            lemma_filter_kept(sels, rest, k - lifted.len());
            let x = sels.filter(rest)[k - lifted.len()];
            assert(x.well_formed());
        }
    }
    // the main selection is among those that are placed
    let m = choose|m: int| 0 <= m < sels.len() && (#[trigger] sels[m]).from == store.main;
    if chosen(sels[m]) {
        sels.lemma_filter_contains(chosen, m);
        let j = choose|j: int| 0 <= j < sels.filter(chosen).len() && sels.filter(chosen)[j] == sels[m];
        assert(items[j].1);
    } else {
        sels.lemma_filter_contains(rest, m);
        let j = choose|j: int| 0 <= j < sels.filter(rest).len() && sels.filter(rest)[j] == sels[m];
        assert(items[lifted.len() + j] == kept(store.main)(sels[m]));
        assert(items[lifted.len() + j].1);
    }
    lemma_place_all(Placing::empty(), items);
    lemma_place_all_tame(Placing::empty(), items, heads, p);
}

/// Where the ranges of a set begin at the head of `s` or before it,
/// deleting `s` leaves a well-formed set whose ranges end before that head
/// and are among the ranges that did so before.
pub proof fn lemma_deleted_tame(store: Store, s: Sel, m: Lines)
    requires
        store.well_formed(),
        s.well_formed(),
        ranges_begin_by(store.selections, s.from),
    ensures
        store.deleted(s, m).well_formed(),
        tame(store.deleted(s, m).selections, heads_before(store.selections, s.from), s.from),
{
    let heads = heads_before(store.selections, s.from);
    lemma_replaced_tame(store, s);
    let dropped = Store::of(store.replaced(s.collapsed_to_head()));
    lemma_nudged_tame(dropped, s.to.line, s.to.col, Store::chars_gone(s), heads, s.from);
    let closed = store.closed_up(s);
    if Store::lines_gone(s, m) > 0 {
        lemma_lifted_tame(closed, s.from.col - 1, Store::lines_gone(s, m), heads, s.from);
    }
}

/// The selection before `p` in a well-formed set begins no earlier than
/// any selection that ends before `p`.
pub proof fn lemma_first_before_is_last(selections: Seq<Sel>, p: Pos, i: int)
    requires
        all_well_formed(selections),
        ordered(selections),
        0 <= i < selections.len(),
        selections[i].to.lt(p),
    ensures
        first_before(selections, p) is Some,
        selections[i].from.le(first_before(selections, p).unwrap().from),
{
    let ends_before = |s: Sel| s.to.lt(p);
    assert forall|a: int, b: int|
        #![trigger selections[a], selections[b]]
        0 <= a < b < selections.len() && ends_before(selections[b]) implies ends_before(
        selections[a],
    ) by {
        assert(selections[a].to.lt(selections[b].from));
        assert(selections[b].well_formed());
    }
    lemma_filter_prefix(selections, ends_before);
    let count = selections.filter(ends_before).len() as int;
    assert(ends_before(selections[i]));
    lemma_filter_run(selections, ends_before, 0, count);
    assert(selections.filter(ends_before).last() == selections[count - 1]);
    if i < count - 1 {
        assert(selections[i].to.lt(selections[count - 1].from));
        assert(selections[i].well_formed());
    }
}

/// Deleting leaves bare cursors: where the ranges of a buffer begin at the
/// head of `s` or before it, and the text of every selection from `s` back
/// to the first could be deleted, every selection that is left is a bare
/// cursor.
pub proof fn lemma_deleting_leaves_points(c: Contents, s: Sel)
    requires
        ranges_begin_by(c.store.selections, s.from),
    ensures
        deleting(c, s).1 ==> deleting(c, s).0.store.all_points(),
    decreases s.from.line, s.from.col,
{
    if c.can_delete(s) {
        let after = c.without(s);
        let heads = heads_before(c.store.selections, s.from);
        lemma_deleted_tame(c.store, s, c.lines());
        match first_before(c.store.selections, s.from) {
            None => {
                assert forall|i: int| 0 <= i < after.store.selections.len() implies (
                #[trigger] after.store.selections[i]).is_point() by {
                    let x = after.store.selections[i];
                    if !x.is_point() {
                        let k = choose|k: int|
                            0 <= k < c.store.selections.len() && (
                            #[trigger] c.store.selections[k]).to.lt(s.from)
                                && c.store.selections[k].from == x.from;
                        lemma_first_before_is_last(c.store.selections, s.from, k);
                    }
                }
            },
            Some(next) => {
                lemma_first_before(c.store.selections, s.from);
                assert forall|i: int| 0 <= i < after.store.selections.len() implies (
                #[trigger] after.store.selections[i]).is_point()
                    || after.store.selections[i].from.le(next.from) by {
                    let x = after.store.selections[i];
                    if !x.is_point() {
                        let k = choose|k: int|
                            0 <= k < c.store.selections.len() && (
                            #[trigger] c.store.selections[k]).to.lt(s.from)
                                && c.store.selections[k].from == x.from;
                        lemma_first_before_is_last(c.store.selections, s.from, k);
                    }
                }
                lemma_deleting_leaves_points(after, next);
            },
        }
    }
}

/// Deleting leaves bare cursors: if the text of every selection of a
/// buffer could be deleted, every selection that is left is a bare cursor.
pub proof fn law_deleting_leaves_points(c: Contents)
    requires
        c.well_formed(),
    ensures
        deleting(c, c.store.selections.last()).1 ==> deleting(
            c,
            c.store.selections.last(),
        ).0.store.all_points(),
{
    let last = c.store.selections.last();
    assert forall|i: int| 0 <= i < c.store.selections.len() implies (
    #[trigger] c.store.selections[i]).is_point() || c.store.selections[i].from.le(last.from) by {
        if i < c.store.selections.len() - 1 {
            assert(c.store.selections[i].to.lt(c.store.selections[c.store.selections.len() - 1].from));
            assert(c.store.selections[i].well_formed());
        }
    }
    lemma_deleting_leaves_points(c, last);
}

/// The characters of a line before the line feed that ends it are no line
/// feeds.
pub proof fn lemma_no_feed_on_line(text: Seq<char>, line: int, at: int)
    requires
        0 <= line <= line_breaks(text),
        line_start(text, line) <= at < text.len(),
        line < line_breaks(text) ==> at + 1 < line_start(text, line + 1),
    ensures
        text[at] != '\n',
{
    lemma_line_starts(text, line);
    lemma_line_breaks_before(text, line, at);
    lemma_line_breaks_before(text, line, at + 1);
    assert(text.take(at + 1).drop_last() =~= text.take(at));
}

/// On a text whose lines end tidily a line has a slot for each of its
/// characters but those that end it, and one more.
pub proof fn lemma_slots_of_line(text: Seq<char>, line: int)
    requires
        tidy_line_ends(text),
        1 <= line <= line_count(text),
    ensures
        slots(text, line) == line_start(text, line) - line_start(text, line - 1) - line_end_length(
            text,
            line,
        ) + 1,
        line_start(text, line - 1) <= line_start(text, line) - line_end_length(text, line),
{
    let from = line_start(text, line - 1);
    let to = line_start(text, line);
    lemma_line_starts(text, line - 1);
    if line <= line_breaks(text) {
        lemma_line_begins_behind_feed(text, line);
        assert(content_end(text, from, to) == content_end(text, from, to - 1));
        if from < to - 1 {
            lemma_no_feed_on_line(text, line - 1, to - 2);
            if text[to - 2] == '\r' {
                assert(content_end(text, from, to - 1) == content_end(text, from, to - 2));
                if from < to - 2 {
                    lemma_no_feed_on_line(text, line - 1, to - 3);
                    assert(content_end(text, from, to - 2) == to - 2);
                }
            } else {
                assert(content_end(text, from, to - 1) == to - 1);
            }
        }
    } else if from < to {
        lemma_no_feed_on_line(text, line - 1, to - 1);
        assert(content_end(text, from, to) == to);
    }
}

/// On a text whose lines end tidily the characters of a line before its
/// last slot are no line-end characters.
pub proof fn lemma_content_is_plain(text: Seq<char>, line: int, at: int)
    requires
        tidy_line_ends(text),
        1 <= line <= line_count(text),
        line_start(text, line - 1) <= at < line_start(text, line - 1) + slots(text, line) - 1,
    ensures
        0 <= at < text.len(),
        text[at] != '\n',
        text[at] != '\r',
{
    lemma_slots_of_line(text, line);
    lemma_line_starts(text, line - 1);
    lemma_no_feed_on_line(text, line - 1, at);
    if text[at] == '\r' {
        // the line feed behind it would end the line, and both would be
        // what ends the line
        if line > line_breaks(text) || at + 2 < line_start(text, line) {
            lemma_no_feed_on_line(text, line - 1, at + 1);
        }
    }
}

/// Taking characters out of a line of a text, the line feed that ends the
/// line not among them, leaves as many lines;
/// the lines up to that one begin where they began, and those behind it as
/// much earlier as characters are gone.
pub proof fn lemma_removed_on_line(text: Seq<char>, line: int, head: int, length: int, other: int)
    requires
        1 <= line <= line_count(text),
        length >= 0,
        line_start(text, line - 1) <= head,
        head + length <= text.len(),
        line <= line_breaks(text) ==> head + length < line_start(text, line),
        0 <= other,
    ensures
        line_breaks(with_removed(text, head, head + length)) == line_breaks(text),
        line_start(with_removed(text, head, head + length), other) == if other <= line - 1 {
            line_start(text, other)
        } else {
            line_start(text, other) - length
        },
{
    lemma_line_starts(text, line - 1);
    let front = text.take(head);
    let gone = text.subrange(head, head + length);
    let back = text.skip(head + length);
    let left = with_removed(text, head, head + length);
    assert(left =~= front + back);
    assert(text =~= front + (gone + back));
    assert(text.take(head + length) =~= front + gone);
    lemma_line_breaks_before(text, line - 1, head);
    lemma_line_breaks_before(text, line - 1, head + length);
    lemma_line_breaks_of_both(front, gone);
    lemma_line_breaks_of_both(front, back);
    lemma_line_breaks_of_both(gone, back);
    lemma_line_breaks_of_both(front, gone + back);
    lemma_line_start_of_both(front, back, other);
    lemma_line_start_of_both(front, gone + back, other);
    if other > line - 1 {
        lemma_line_start_of_both(gone, back, other - (line - 1));
    }
}

/// Taking characters out of a line of a text whose lines end tidily, all of
/// them before the last slot of the line, leaves a text whose lines end
/// tidily, each line ending as it did.
pub proof fn lemma_line_ends_without(text: Seq<char>, line: int, head: int, length: int)
    requires
        tidy_line_ends(text),
        1 <= line <= line_count(text),
        length >= 0,
        line_start(text, line - 1) <= head,
        head + length <= line_start(text, line - 1) + slots(text, line) - 1,
    ensures
        head + length <= text.len(),
        line <= line_breaks(text) ==> head + length < line_start(text, line),
        tidy_line_ends(with_removed(text, head, head + length)),
        forall|other: int|
            1 <= other <= line_count(text) ==> #[trigger] line_end_length(
                with_removed(text, head, head + length),
                other,
            ) == line_end_length(text, other),
{
    let left = with_removed(text, head, head + length);
    lemma_line_starts(text, line - 1);
    lemma_slots_of_line(text, line);
    if length > 0 {
        lemma_content_is_plain(text, line, head);
    }
    assert forall|i: int| 0 <= i < left.len() && #[trigger] left[i] == '\r' implies i + 1
        < left.len() && left[i + 1] == '\n' by {
        if i + 1 < head {
            assert(left[i] == text[i] && left[i + 1] == text[i + 1]);
        } else if i < head {
            assert(left[i] == text[i]);
            assert(length == 0);
            assert(left[i + 1] == text[i + 1]);
        } else {
            assert(left[i] == text[i + length]);
            assert(left[i + 1] == text[i + length + 1]);
        }
    }
    lemma_removed_on_line(text, line, head, length, 0);
    assert forall|other: int| 1 <= other <= line_count(text) implies #[trigger] line_end_length(
        left,
        other,
    ) == line_end_length(text, other) by {
        lemma_removed_on_line(text, line, head, length, other - 1);
        lemma_removed_on_line(text, line, head, length, other);
        lemma_line_starts(text, other - 1);
        lemma_slots_of_line(text, other);
        if other <= line_breaks(text) {
            let end = line_start(text, other);
            if other < line {
                lemma_line_starts_in_order(text, other, line - 1);
                if end - 2 >= line_start(text, other - 1) {
                    assert(left[end - 2] == text[end - 2]);
                }
            } else if other > line {
                lemma_line_starts_in_order(text, line, other - 1);
                if end - 2 >= line_start(text, other - 1) {
                    assert(left[end - length - 2] == text[end - 2]);
                }
            } else if end - length - 2 >= head {
                assert(left[end - length - 2] == text[end - 2]);
            } else if end - length - 2 >= line_start(text, line - 1) {
                assert(left[head - 1] == text[head - 1]);
            }
        }
    }
}

/// Taking characters out of a line of a text whose lines end tidily, all of
/// them before the last slot of the line, leaves the slots of the other
/// lines as they are, and takes as many slots from the line as characters
/// are gone.
pub proof fn lemma_lines_without(text: Seq<char>, line: int, head: int, length: int)
    requires
        tidy_line_ends(text),
        text.len() < usize::MAX,
        1 <= line <= line_count(text),
        length >= 0,
        line_start(text, line - 1) <= head,
        head + length <= line_start(text, line - 1) + slots(text, line) - 1,
    ensures
        ({
            let before = text_lines(text);
            let after = text_lines(with_removed(text, head, head + length));
            &&& after.count == before.count
            &&& forall|other: int| #[trigger]
                after.lengths.contains_key(other) == before.lengths.contains_key(other)
            &&& forall|other: int| #[trigger]
                before.lengths.contains_key(other) ==> after.lengths[other] == if other == line {
                    before.lengths[other] - length
                } else {
                    before.lengths[other]
                }
        }),
{
    let left = with_removed(text, head, head + length);
    lemma_line_starts(text, line - 1);
    lemma_line_ends_without(text, line, head, length);
    lemma_removed_on_line(text, line, head, length, 0);
    assert forall|other: int| #[trigger]
        text_lines(text).lengths.contains_key(other) implies text_lines(left).lengths[other]
        == if other == line {
        text_lines(text).lengths[other] - length
    } else {
        text_lines(text).lengths[other]
    } by {
        lemma_removed_on_line(text, line, head, length, other - 1);
        lemma_removed_on_line(text, line, head, length, other);
        lemma_slots_of_line(text, other);
        lemma_slots_of_line(left, other);
        lemma_slots(text, other);
        lemma_slots(left, other);
    }
}

/// Whether a selection lies on one line of `m` and does not reach the last
/// slot of that line.
pub open spec fn within_a_line(s: Sel, m: Lines) -> bool {
    &&& s.from.line == s.to.line
    &&& m.lengths.contains_key(s.to.line)
    &&& s.to.col < m.lengths[s.to.line]
}

/// What the set is made of once the head of `s` has taken the place of
/// what it overlaps, and the selections behind `s` on its line have been
/// nudged left by the characters of `s`: if something holds of the head of
/// `s`, of the selections that end before it, of those that begin behind it
/// as they are nudged or kept, and is kept by merging, it holds of the
/// selections of the set.
pub proof fn lemma_closed_up_keeps(store: Store, s: Sel, pred: spec_fn(Sel) -> bool)
    requires
        store.well_formed(),
        s.well_formed(),
        kept_by_merging(pred),
        pred(s.collapsed_to_head()),
        forall|i: int|
            0 <= i < store.selections.len() && (#[trigger] store.selections[i]).to.lt(s.from)
                ==> pred(store.selections[i]),
        forall|i: int|
            0 <= i < store.selections.len() && s.from.lt((#[trigger] store.selections[i]).from)
                ==> pred(
                if store.selections[i].from.line == s.to.line && store.selections[i].from.col
                    > s.to.col {
                    store.selections[i].nudged_left(Store::chars_gone(s)).reseated()
                } else {
                    store.selections[i]
                },
            ),
    ensures
        store.closed_up(s).well_formed(),
        forall|i: int|
            0 <= i < store.closed_up(s).selections.len() ==> pred(
                #[trigger] store.closed_up(s).selections[i],
            ),
{
    let cursor = s.collapsed_to_head();
    let sels = store.selections;
    lemma_replace(store.placing(), cursor);
    lemma_split(sels, cursor);
    let lo = split_low(sels, cursor);
    let hi = split_high(sels, cursor);
    let dropped = Store::of(store.replaced(cursor));
    let parts = dropped.selections;
    assert(parts == sels.subrange(0, lo) + seq![cursor] + sels.subrange(hi, sels.len() as int));
    let n = Store::chars_gone(s);
    let chosen = begins_on_line_after(s.to.line, s.to.col);
    let rest = begins_elsewhere(s.to.line, s.to.col);
    let pulled = parts.filter(chosen).map_values(pulled_left(dropped.main, n));
    let others = parts.filter(rest).map_values(kept(dropped.main));
    let items = pulled + others;
    // what the parts are
    assert forall|j: int| 0 <= j < parts.len() implies {
        let y = #[trigger] parts[j];
        &&& y.well_formed()
        &&& chosen(y) ==> pred(y.nudged_left(n).reseated())
        &&& !chosen(y) ==> pred(y)
    } by {
        if j < lo {
            assert(parts[j] == sels[j]);
            assert(sels[j].well_formed());
            lemma_filter_kept(sels, |x: Sel| x.to.lt(cursor.from), j);
            assert(sels.subrange(0, lo)[j] == sels[j]);
            assert(sels[j].to.lt(s.from));
        } else if j > lo {
            let k = j - lo - 1 + hi;
            assert(parts[j] == sels[k]);
            assert(sels[k].well_formed());
            lemma_filter_kept(sels, |x: Sel| cursor.to.lt(x.from), j - lo - 1);
            assert(sels.subrange(hi, sels.len() as int)[j - lo - 1] == sels[k]);
            assert(s.from.lt(sels[k].from));
        }
    }
    assert forall|k: int| 0 <= k < items.len() implies (#[trigger] items[k]).0.well_formed()
        && pred(items[k].0) by {
        if k < pulled.len() {
            lemma_filter_kept(parts, chosen, k);
            let y = parts.filter(chosen)[k];
            lemma_reseated(y.nudged_left(n));
        } else {
            lemma_filter_kept(parts, rest, k - pulled.len());
        }
    }
    lemma_main_is_marked(dropped, chosen, rest, pulled_left(dropped.main, n), kept(dropped.main));
    lemma_place_all(Placing::empty(), items);
    lemma_place_all_keeps(Placing::empty(), items, pred);
}

/// What is asked of a buffer and of the selection of it that is deleted
/// next, so that deleting within lines goes on as it should: the buffer is
/// coherent, the lines of its text end tidily, the selection lies on one line
/// and does not reach its last slot, as do the selections that end before it,
/// and no other selection begins within it.
pub open spec fn deletes_within_lines(c: Contents, s: Sel) -> bool {
    &&& c.well_formed()
    &&& c.coherent()
    &&& tidy_line_ends(c.text)
    &&& c.text.len() < usize::MAX
    &&& s.well_formed()
    &&& s.within(c.lines())
    &&& within_a_line(s, c.lines())
    &&& forall|i: int|
        0 <= i < c.store.selections.len() ==> (#[trigger] c.store.selections[i]).from.le(s.from)
            || s.to.lt(c.store.selections[i].from)
    &&& forall|i: int|
        0 <= i < c.store.selections.len() && (#[trigger] c.store.selections[i]).to.lt(s.from)
            ==> within_a_line(c.store.selections[i], c.lines())
}

/// One step of deleting within lines: the text of the selection can be
/// deleted, what is left is a coherent buffer, and the selection that comes
/// next is as the step asks.
pub proof fn lemma_delete_within_lines(c: Contents, s: Sel)
    requires
        deletes_within_lines(c, s),
    ensures
        c.can_delete(s),
        c.without(s).well_formed(),
        c.without(s).coherent(),
        first_before(c.store.selections, s.from) matches Some(next) ==> deletes_within_lines(
            c.without(s),
            next,
        ),
{
    let text = c.text;
    let lines = c.lines();
    let line = s.from.line;
    let head = c.head_index(s);
    let length = Store::chars_gone(s);
    let after = c.without(s);
    let sels = c.store.selections;
    lemma_delete_range(c, s);
    lemma_index_within(text, s.from);
    lemma_index_within(text, s.to);
    lemma_slots(text, line);
    lemma_slots_of_line(text, line);
    lemma_line_starts(text, line - 1);
    assert(c.tail_index(s) == head + length - 1);
    assert(after.text == with_removed(text, head, head + length));
    lemma_lines_without(text, line, head, length);
    lemma_removed_on_line(text, line, head, length, 0);
    let left = after.lines();
    assert(left.lengths[line] == lines.lengths[line] - length);
    assert(after.store == c.store.closed_up(s));
    // every selection lies on the slots of what is left
    let on_slots = |y: Sel| y.within(left);
    assert(kept_by_merging(on_slots)) by {
        assert forall|first: Sel, ns: Sel, last: Sel|
            #![trigger span(first, ns, last)]
            on_slots(first) && on_slots(ns) && on_slots(last) implies on_slots(
            span(first, ns, last),
        ) by {}
    }
    assert forall|i: int| 0 <= i < sels.len() implies {
        let y = #[trigger] sels[i];
        &&& y.to.lt(s.from) ==> y.within(left)
        &&& s.from.lt(y.from) ==> if y.from.line == s.to.line && y.from.col > s.to.col {
            y.nudged_left(length).reseated().within(left) && s.from.le(
                y.nudged_left(length).reseated().from,
            )
        } else {
            y.within(left) && y.from.line > line
        }
    } by {
        let y = sels[i];
        assert(y.within(lines) && y.well_formed());
        if s.from.lt(y.from) {
            assert(s.to.lt(y.from));
        }
    }
    lemma_closed_up_keeps(c.store, s, on_slots);
    assert forall|i: int| 0 <= i < after.store.selections.len() implies (
    #[trigger] after.store.selections[i]).within(after.lines()) by {
        assert(on_slots(after.store.selections[i]));
    }
    match first_before(sels, s.from) {
        None => {},
        Some(next) => {
            lemma_first_before(sels, s.from);
            let ends_before = |x: Sel| x.to.lt(s.from);
            lemma_filter_kept(sels, ends_before, sels.filter(ends_before).len() - 1);
            let j = choose|j: int| 0 <= j < sels.len() && #[trigger] sels[j] == next;
            assert(next.within(lines) && within_a_line(next, lines));
            // no selection begins within the next one
            let clear = |y: Sel| y.from.le(next.from) || next.to.lt(y.from);
            assert(kept_by_merging(clear)) by {
                assert forall|first: Sel, ns: Sel, last: Sel|
                    #![trigger span(first, ns, last)]
                    clear(first) && clear(ns) && clear(last) implies clear(
                    span(first, ns, last),
                ) by {}
            }
            assert forall|i: int| 0 <= i < sels.len() implies clear(#[trigger] sels[i]) by {
                assert(sels[i].well_formed());
                if i < j {
                    assert(sels[i].to.lt(sels[j].from));
                } else if j < i {
                    assert(sels[j].to.lt(sels[i].from));
                }
            }
            lemma_closed_up_keeps(c.store, s, clear);
            // the selections before the next one lie within lines
            let ahead = |y: Sel| y.to.lt(next.from) ==> within_a_line(y, left);
            assert(kept_by_merging(ahead)) by {
                assert forall|first: Sel, ns: Sel, last: Sel|
                    #![trigger span(first, ns, last)]
                    first.well_formed() && ns.well_formed() && last.well_formed() && ahead(first)
                        && ahead(ns) && ahead(last) && first.overlaps(ns) && last.overlaps(ns)
                        && (first == last || first.to.lt(last.from)) implies ahead(
                    span(first, ns, last),
                ) by {}
            }
            lemma_closed_up_keeps(c.store, s, ahead);
            assert forall|i: int|
                0 <= i < after.store.selections.len() implies (
            #[trigger] after.store.selections[i]).from.le(next.from) || next.to.lt(
                after.store.selections[i].from,
            ) by {
                assert(clear(after.store.selections[i]));
            }
            assert forall|i: int|
                0 <= i < after.store.selections.len() && (
                #[trigger] after.store.selections[i]).to.lt(next.from) implies within_a_line(
                after.store.selections[i],
                after.lines(),
            ) by {
                assert(ahead(after.store.selections[i]));
            }
            lemma_line_ends_without(text, line, head, length);
        },
    }
}

/// Deleting within lines: in a coherent buffer whose lines end tidily,
/// as long as every selection lies on one line and does not reach
/// the last slot of it, and none begins within the one that is deleted, the
/// text of every selection from `s` back to the first can be deleted, and a
/// coherent buffer is left.
pub proof fn lemma_deleting_within_lines(c: Contents, s: Sel)
    requires
        deletes_within_lines(c, s),
    ensures
        deleting(c, s).1,
        deleting(c, s).0.well_formed(),
        deleting(c, s).0.coherent(),
    decreases s.from.line, s.from.col,
{
    lemma_delete_within_lines(c, s);
    match first_before(c.store.selections, s.from) {
        None => {},
        Some(next) => {
            lemma_first_before(c.store.selections, s.from);
            lemma_deleting_within_lines(c.without(s), next);
        },
    }
}

/// Deleting within lines: in a coherent buffer whose lines end tidily,
/// and whose selections each lie on one line and do not reach its last
/// slot, the text of every selection can be deleted, and a coherent
/// buffer of bare cursors is left.
pub proof fn law_deleting_within_lines(c: Contents)
    requires
        c.well_formed(),
        c.coherent(),
        tidy_line_ends(c.text),
        c.text.len() < usize::MAX,
        forall|i: int|
            0 <= i < c.store.selections.len() ==> within_a_line(
                #[trigger] c.store.selections[i],
                c.lines(),
            ),
    ensures
        deleting(c, c.store.selections.last()).1,
        deleting(c, c.store.selections.last()).0.well_formed(),
        deleting(c, c.store.selections.last()).0.coherent(),
        deleting(c, c.store.selections.last()).0.store.all_points(),
{
    let sels = c.store.selections;
    let last = sels.last();
    assert(last == sels[sels.len() - 1]);
    assert(last.well_formed() && last.within(c.lines()) && within_a_line(last, c.lines()));
    assert forall|i: int| 0 <= i < sels.len() implies (#[trigger] sels[i]).from.le(last.from)
        || last.to.lt(sels[i].from) by {
        if i < sels.len() - 1 {
            assert(sels[i].to.lt(sels[sels.len() - 1].from));
            assert(sels[i].well_formed());
        }
    }
    lemma_deleting_within_lines(c, last);
    law_deleting_leaves_points(c);
}

/// Slots of a text that name places in order are in order.
pub proof fn lemma_places_give_order(text: Seq<char>, p: Pos, q: Pos)
    requires
        p.within(text_lines(text)),
        q.within(text_lines(text)),
        char_index(text, p.line, p.col) < char_index(text, q.line, q.col),
    ensures
        p.lt(q),
{
    lemma_index_within(text, p);
    lemma_index_within(text, q);
    if q.line < p.line {
        lemma_line_starts_in_order(text, q.line, p.line - 1);
    }
}

/// A text put in at one place.
pub proof fn lemma_inserted_once(text: Seq<char>, at: int, typed: Seq<char>)
    ensures
        inserted_at_all(text, seq![at], typed) == with_inserted(
            text,
            at,
            typed,
        ),
{
    let places = seq![at];
    assert(places.drop_last() =~= Seq::empty());
    assert(places.last() == at);
    assert(inserted_at_all(
        with_inserted(text, at, typed),
        Seq::empty(),
        typed,
    ) == with_inserted(text, at, typed));
}

/// Whether the slot `p` of `text` is still a slot once `typed` has been put
/// in at its place, by what stands around the place: the lines of the text
/// end tidily, or the slot begins its line, or it stands behind a character
/// that is no line-end character, or what is typed begins with such a
/// character.
pub open spec fn keeps_slot(text: Seq<char>, p: Pos, typed: Seq<char>) -> bool {
    ||| tidy_line_ends(text)
    ||| p.col == 1
    ||| !is_line_end_char(text[char_index(text, p.line, p.col) - 1])
    ||| (typed.len() >= 1 && !is_line_end_char(typed[0]))
}

/// A slot of a text names the same place once a text has been put in at
/// that place, and is still a slot where [`keeps_slot`] holds.
pub proof fn lemma_slot_before_what_is_typed(text: Seq<char>, p: Pos, typed: Seq<char>)
    requires
        p.within(text_lines(text)),
    ensures
        char_index(
            with_inserted(text, char_index(text, p.line, p.col), typed),
            p.line,
            p.col,
        ) == char_index(text, p.line, p.col),
        keeps_slot(text, p, typed) ==> p.within(
            text_lines(
                with_inserted(
                    text,
                    char_index(text, p.line, p.col),
                    typed,
                ),
            ),
        ),
{
    let at = char_index(text, p.line, p.col);
    let grown = with_inserted(text, at, typed);
    lemma_slot_line(text, p);
    lemma_index_within(text, p);
    let front = text.take(at);
    let back = typed + text.skip(at);
    assert(grown =~= front + back);
    assert(text =~= front + text.skip(at));
    lemma_line_start_of_both(front, back, p.line - 1);
    lemma_line_start_of_both(front, back, p.line);
    lemma_line_start_of_both(front, text.skip(at), p.line - 1);
    lemma_line_breaks_of_both(front, back);
    lemma_line_starts(back, 0);
    lemma_line_starts(back, 1);
    lemma_line_starts(grown, p.line - 1);
    let start = line_start(grown, p.line - 1);
    let end = line_start(grown, p.line);
    if at > line_start(text, p.line - 1) {
        assert(grown[at - 1] == text[at - 1]);
        if tidy_line_ends(text) {
            lemma_content_is_plain(text, p.line, at - 1);
        }
    }
    if at == start || !is_line_end_char(text[at - 1]) {
        lemma_content_reaches(grown, start, end, at);
    } else if typed.len() >= 1 && !is_line_end_char(typed[0]) {
        // what is typed begins on the line of the slot, and holds it
        let first = seq![typed[0]];
        assert(grown.take(at + 1) =~= front + first);
        lemma_no_feeds(first);
        lemma_line_breaks_of_both(front, first);
        lemma_place_on_line(grown, at + 1);
        assert(grown[at] == typed[0]);
        lemma_content_reaches(grown, start, end, at + 1);
    }
}

/// The slot before a slot that is not the first of all is a slot, and what
/// goes with a selection whose tail is that slot ends with the character
/// before the place that the slot itself names.
pub proof fn lemma_slot_before(text: Seq<char>, q: Pos)
    requires
        q.within(text_lines(text)),
        text.len() < usize::MAX,
        char_index(text, q.line, q.col) >= 1,
    ensures
        q.predecessor(text_lines(text)) is Some,
        q.predecessor(text_lines(text)).unwrap().within(text_lines(text)),
        q.col > 1 ==> q.predecessor(text_lines(text)) == Some(
            Pos { line: q.line, col: q.col - 1 },
        ),
        q.col == 1 ==> q.line >= 2 && q.predecessor(text_lines(text)) == Some(
            Pos { line: q.line - 1, col: text_lines(text).lengths[q.line - 1] },
        ),
        forall|s: Sel|
            s.to == q.predecessor(text_lines(text)).unwrap() ==> #[trigger] (Contents {
                text: text,
                store: alone(s),
            }).tail_index(s) == char_index(text, q.line, q.col) - 1,
{
    lemma_text_lines(text);
    lemma_index_within(text, q);
    lemma_line_starts(text, 0);
    lemma_slots(text, q.line);
    if q.col == 1 {
        assert(q.line >= 2);
        lemma_slots(text, q.line - 1);
        lemma_line_starts(text, q.line - 2);
    }
}

/// Typing and then deleting just what was typed: where a text is typed at
/// the one bare cursor of a coherent buffer, and the selection is then put
/// from where the cursor stood to the last slot before where it stands now,
/// deleting gives the text back, and the cursor where it stood. This is
/// asked: that both ends of that selection are slots of the new text, which
/// is to say that the buffer is coherent after typing and that the cursor
/// stood on what is still a slot. The first holds unless what is typed ends
/// in a carriage return; the second where [`keeps_slot`] holds.
pub proof fn law_typing_then_deleting(c: Contents, typed: Seq<char>)
    requires
        c.well_formed(),
        c.coherent(),
        c.store.selections.len() == 1,
        c.store.all_points(),
        c.takes(typed),
        typed.len() >= 1,
        c.text.len() + typed.len() < usize::MAX,
        typed.last() != '\r' || c.inserted(typed).coherent(),
        keeps_slot(c.text, c.store.selections[0].from, typed)
            || c.store.selections[0].from.within(c.inserted(typed).lines()),
    ensures
        ({
            let p = c.store.selections[0].from;
            let after = c.inserted(typed);
            let q = after.store.selections[0].from;
            let copy = Sel {
                from: p,
                to: q.predecessor(after.lines()).unwrap(),
                cursor_direction: CursorDirection::Forward,
                sticky_column: None,
            };
            let marked = Contents { text: after.text, store: alone(copy) };
            &&& q.predecessor(after.lines()) is Some
            &&& marked.well_formed()
            &&& marked.coherent()
            &&& deleting(marked, copy) == (
                Contents { text: c.text, store: alone(Sel::point(p)) },
                true,
            )
        }),
{
    let text = c.text;
    let s = c.store.selections[0];
    let p = s.from;
    assert(s.well_formed() && s.is_point() && s.within(c.lines()));
    let at = char_index(text, p.line, p.col);
    assert(c.cursor_indices() =~= seq![at]);
    lemma_inserted_once(text, at, typed);
    let after = c.inserted(typed);
    let grown = after.text;
    law_typing_at_bare_cursors(c, typed);
    let q = after.store.selections[0].from;
    let end = at + typed.len();
    assert(after.cursor_indices()[0] == at + (0 + 1) * typed.len());
    assert(after.store.selections[0].is_point() && after.store.selections[0].within(
        after.lines(),
    ));
    lemma_index_within(text, p);
    lemma_slot_before_what_is_typed(text, p, typed);
    lemma_slot_before(grown, q);
    lemma_places_give_order(grown, p, q);
    let last = q.predecessor(after.lines()).unwrap();
    let copy = Sel {
        from: p,
        to: last,
        cursor_direction: CursorDirection::Forward,
        sticky_column: None,
    };
    let marked = Contents { text: grown, store: alone(copy) };
    assert(marked.store.selections[0] == copy);
    assert(marked.store.selections[0].from == marked.store.main);
    lemma_line_starts(grown, 0);
    assert(marked.coherent()) by {
        assert forall|i: int| 0 <= i < marked.store.selections.len() implies (
        #[trigger] marked.store.selections[i]).within(marked.lines()) by {
            assert(marked.store.selections[i] == copy);
        }
    }
    law_deleting_alone(marked);
    law_insert_then_remove(text, at, typed);
    assert(copy.collapsed_to_head() == Sel::point(p));
}

} // verus!
