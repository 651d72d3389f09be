//! What typing a text does to a buffer. Bare cursors come to stand behind
//! their copies of the text. A plain text makes each line longer by what
//! was typed on it, and leaves the selections on the slots of the text if
//! their tails fit into their lines. A single selection grows to hold the
//! text, or moves behind it as a whole.
use crate::buffer::{Contents, lemma_index_within, text_lines};
use crate::deleting::{
    alone, keeps_slot, lemma_inserted_once, lemma_place_one, lemma_slot_before_what_is_typed,
};
use crate::runs::{
    lemma_rank_at, lemma_rank_follows, lemma_runs_total, lemma_total_take, ranks, runs, total,
};
use crate::selections::{CursorDirection, laws, Pos, Sel};
use crate::selections::storage::{
    all_well_formed, lemma_rebuilt, lemma_rebuilt_apart, lemma_rebuilt_within, main_index, ordered,
    Store,
};
use crate::text::{
    char_index, content_end, inserted_at_all, is_line_end_char, lemma_content_end,
    lemma_content_ends_at, lemma_content_reaches, lemma_content_tail, lemma_inserted_before,
    lemma_line_begins_behind_feed, lemma_line_breaks_before, lemma_line_breaks_of_both,
    lemma_line_start_of_both, lemma_line_starts, lemma_line_starts_in_order, line_breaks,
    line_count, line_feed_flags, line_start, slots, with_inserted,
};
use vstd::prelude::*;

verus! {

/// The number of characters of `text` behind its last line feed.
pub open spec fn tail_length(text: Seq<char>) -> int {
    text.len() - line_start(text, line_breaks(text))
}

/// Where a bare cursor stands once `typed` has been typed at it and at the
/// cursors before it: `index` cursors stand before it, and with itself `rank`
/// of the cursors on its line stand at or before it. Without a line feed in
/// what was typed it stays on its line, behind the copies typed on that line;
/// with one, it stands behind the last line feed of its own copy.
pub open spec fn cursor_behind(p: Pos, typed: Seq<char>, index: int, rank: int) -> Pos {
    if line_breaks(typed) == 0 {
        Pos { line: p.line, col: p.col + rank * typed.len() }
    } else {
        Pos { line: p.line + (index + 1) * line_breaks(typed), col: 1 + tail_length(typed) }
    }
}

/// The bare cursors of `store` where they stand once `typed` has been
/// typed at each of them.
pub open spec fn cursors_behind(store: Store, typed: Seq<char>) -> Seq<Sel> {
    Seq::new(
        store.selections.len(),
        |i: int|
            Sel {
                from: cursor_behind(
                    store.selections[i].from,
                    typed,
                    i,
                    ranks(runs(store.head_lines()))[i],
                ),
                to: cursor_behind(
                    store.selections[i].from,
                    typed,
                    i,
                    ranks(runs(store.head_lines()))[i],
                ),
                ..store.selections[i]
            },
    )
}

/// In a well-formed set only the main selection begins where the main
/// selection begins.
pub proof fn lemma_main_index(store: Store, m: int)
    requires
        store.well_formed(),
        0 <= m < store.selections.len(),
        store.selections[m].from == store.main,
    ensures
        main_index(store) == m,
{
    let k = main_index(store);
    if k < m {
        assert(store.selections[k].to.lt(store.selections[m].from));
        assert(store.selections[k].well_formed());
    }
    if m < k {
        assert(store.selections[m].to.lt(store.selections[k].from));
        assert(store.selections[m].well_formed());
    }
}

/// Among bare cursors in order, those on one line follow one another, and
/// each has a rank one greater than the one before it.
pub proof fn lemma_ranks_on_a_line(store: Store, i: int, j: int)
    requires
        store.well_formed(),
        0 <= i <= j < store.selections.len(),
        store.selections[i].from.line == store.selections[j].from.line,
    ensures
        ranks(runs(store.head_lines())).len() == store.selections.len(),
        ranks(runs(store.head_lines()))[j] == ranks(runs(store.head_lines()))[i] + j - i,
        ranks(runs(store.head_lines()))[i] >= 1,
    decreases j - i,
{
    let lines = store.head_lines();
    lemma_rank_follows(lines, j);
    lemma_rank_follows(lines, i);
    if i >= 1 {
        lemma_rank_positive(lines, i - 1);
    }
    if i < j {
        assert(store.selections[i].well_formed() && store.selections[j - 1].well_formed()
            && store.selections[j].well_formed());
        if i < j - 1 {
            assert(store.selections[i].to.lt(store.selections[j - 1].from));
        }
        assert(store.selections[j - 1].to.lt(store.selections[j].from));
        lemma_ranks_on_a_line(store, i, j - 1);
    }
}

/// Every rank is at least 1.
pub proof fn lemma_rank_positive<K>(keys: Seq<K>, i: int)
    requires
        0 <= i < keys.len(),
    ensures
        ranks(runs(keys)).len() == keys.len(),
        ranks(runs(keys))[i] >= 1,
    decreases i,
{
    lemma_rank_follows(keys, i);
    if i >= 1 {
        lemma_rank_positive(keys, i - 1);
    }
}

/// The keys of a run are equal.
pub proof fn lemma_run_is_uniform<K>(keys: Seq<K>, g: int, j: int)
    requires
        0 <= g < runs(keys).len(),
        0 <= j < runs(keys)[g],
    ensures
        0 <= total(runs(keys).take(g)) <= total(runs(keys).take(g)) + j < keys.len(),
        keys[total(runs(keys).take(g)) + j] == keys[total(runs(keys).take(g))],
    decreases j,
{
    lemma_runs_total(keys);
    lemma_rank_at(runs(keys), g, j);
    lemma_total_take(runs(keys), g);
    if j > 0 {
        lemma_run_is_uniform(keys, g, j - 1);
        lemma_rank_follows(keys, total(runs(keys).take(g)) + j);
        lemma_rank_at(runs(keys), g, j - 1);
    }
}

/// A text of line feeds only has as many line feeds as characters, and
/// nothing behind the last.
pub proof fn lemma_all_feeds(text: Seq<char>)
    requires
        forall|i: int| 0 <= i < text.len() ==> text[i] == '\n',
    ensures
        line_breaks(text) == text.len(),
        line_start(text, text.len() as int) == text.len(),
    decreases text.len(),
{
    if text.len() > 0 {
        lemma_all_feeds(text.drop_last());
    }
}

/// A text without line feeds has none.
pub proof fn lemma_no_feeds(text: Seq<char>)
    requires
        forall|i: int| 0 <= i < text.len() ==> text[i] != '\n',
    ensures
        line_breaks(text) == 0,
        line_start(text, 0) == 0,
    decreases text.len(),
{
    if text.len() > 0 {
        lemma_no_feeds(text.drop_last());
    }
}

/// The text up to the end of run `k` of its line feeds and other
/// characters.
pub open spec fn typed_so_far(text: Seq<char>, k: int) -> Seq<char> {
    text.take(total(runs(line_feed_flags(text)).take(k)))
}

/// What one run more adds to a text: a run of line feeds adds them and
/// leaves nothing behind the last, any other run adds no line feed and its
/// length behind the last.
pub proof fn lemma_typed_one_run_more(text: Seq<char>, k: int)
    requires
        1 <= k <= runs(line_feed_flags(text)).len(),
    ensures
        ({
            let flags = line_feed_flags(text);
            let length = runs(flags)[k - 1];
            let before = typed_so_far(text, k - 1);
            let now = typed_so_far(text, k);
            let at = total(runs(flags).take(k - 1));
            &&& 0 <= at < text.len()
            &&& length >= 1
            &&& now.len() == before.len() + length
            &&& flags[at] == 1 ==> line_breaks(now) == line_breaks(before) + length && tail_length(
                now,
            ) == 0
            &&& flags[at] != 1 ==> line_breaks(now) == line_breaks(before) && tail_length(now)
                == tail_length(before) + length
        }),
{
    let flags = line_feed_flags(text);
    let lengths = runs(flags);
    let length = lengths[k - 1];
    let at = total(lengths.take(k - 1));
    lemma_runs_total(flags);
    lemma_total_take(lengths, k - 1);
    lemma_total_take(lengths, k);
    let before = typed_so_far(text, k - 1);
    let now = typed_so_far(text, k);
    let stretch = text.subrange(at, at + length);
    assert(now =~= before + stretch);
    assert forall|i: int| at <= i < at + length implies #[trigger] flags[i] == flags[at] by {
        lemma_run_is_uniform(flags, k - 1, i - at);
    }
    lemma_line_breaks_of_both(before, stretch);
    lemma_line_starts(before, line_breaks(before));
    if flags[at] == 1 {
        assert forall|j: int| 0 <= j < stretch.len() implies stretch[j] == '\n' by {
            assert(flags[at + j] == flags[at]);
        }
        lemma_all_feeds(stretch);
        lemma_line_start_of_both(before, stretch, line_breaks(before) + length);
    } else {
        assert forall|j: int| 0 <= j < stretch.len() implies stretch[j] != '\n' by {
            assert(flags[at + j] == flags[at]);
        }
        lemma_no_feeds(stretch);
        lemma_line_start_of_both(before, stretch, line_breaks(before));
    }
}

/// Where the bare cursors of a well-formed set stand once a text has been
/// typed at each of them, they are bare cursors in the same order, apart
/// from one another.
pub proof fn lemma_cursors_behind(store: Store, typed: Seq<char>)
    requires
        store.well_formed(),
        store.all_points(),
    ensures
        cursors_behind(store, typed).len() == store.selections.len(),
        all_well_formed(cursors_behind(store, typed)),
        ordered(cursors_behind(store, typed)),
        forall|i: int|
            0 <= i < store.selections.len() ==> (#[trigger] cursors_behind(
                store,
                typed,
            )[i]).is_point(),
{
    let behind = cursors_behind(store, typed);
    let lines = store.head_lines();
    lemma_line_starts(typed, line_breaks(typed));
    assert forall|i: int| 0 <= i < behind.len() implies (#[trigger] behind[i]).well_formed() by {
        assert(store.selections[i].well_formed() && store.selections[i].is_point());
        lemma_rank_positive(lines, i);
        let rank = ranks(runs(lines))[i];
        assert(rank * typed.len() >= 0) by (nonlinear_arith)
            requires
                rank >= 1,
                typed.len() >= 0,
        ;
        assert((i + 1) * line_breaks(typed) >= 0) by (nonlinear_arith)
            requires
                i >= 0,
                line_breaks(typed) >= 0,
        ;
    }
    assert forall|i: int, j: int| 0 <= i < j < behind.len() implies (#[trigger] behind[i]).to.lt(
        (#[trigger] behind[j]).from,
    ) by {
        let a = store.selections[i];
        let b = store.selections[j];
        assert(a.well_formed() && a.is_point() && b.well_formed() && b.is_point());
        assert(a.to.lt(b.from));
        lemma_rank_positive(lines, i);
        lemma_rank_positive(lines, j);
        let feeds = line_breaks(typed);
        if feeds == 0 {
            if a.from.line == b.from.line {
                lemma_ranks_on_a_line(store, i, j);
                let ri = ranks(runs(lines))[i];
                let rj = ranks(runs(lines))[j];
                assert(ri * typed.len() <= rj * typed.len()) by (nonlinear_arith)
                    requires
                        ri <= rj,
                        typed.len() >= 0,
                ;
            }
        } else {
            assert((i + 1) * feeds < (j + 1) * feeds) by (nonlinear_arith)
                requires
                    0 <= i < j,
                    feeds >= 1,
            ;
        }
    }
}

/// Typing at bare cursors: after the first `k` runs of `text` have been
/// typed at the bare cursors of a set, the set holds the same cursors where
/// [`cursor_behind`] says, and the main one is still the main one.
pub proof fn lemma_typed_points(store: Store, text: Seq<char>, k: int)
    requires
        store.well_formed(),
        store.all_points(),
        0 <= k <= runs(line_feed_flags(text)).len(),
    ensures
        store.typed(line_feed_flags(text), k).selections == cursors_behind(
            store,
            typed_so_far(text, k),
        ),
        store.typed(line_feed_flags(text), k).main == cursors_behind(
            store,
            typed_so_far(text, k),
        )[main_index(store)].from,
        store.typed(line_feed_flags(text), k).well_formed(),
        store.typed(line_feed_flags(text), k).all_points(),
        k >= 1 ==> store.typed(line_feed_flags(text), k).selections == if line_feed_flags(
            text,
        )[total(runs(line_feed_flags(text)).take(k - 1))] == 1 {
            store.typed(line_feed_flags(text), k - 1).typed_down(
                runs(line_feed_flags(text))[k - 1],
            )
        } else {
            store.typed(line_feed_flags(text), k - 1).typed_right(
                runs(line_feed_flags(text))[k - 1],
            )
        },
    decreases k,
{
    let flags = line_feed_flags(text);
    let m = main_index(store);
    let lines = store.head_lines();
    if k == 0 {
        let none = typed_so_far(text, 0);
        assert(runs(flags).take(0) =~= Seq::empty());
        assert(none =~= Seq::empty());
        assert forall|i: int| 0 <= i < store.selections.len() implies cursors_behind(
            store,
            none,
        )[i] == store.selections[i] by {
            assert(store.selections[i].is_point());
            lemma_rank_positive(lines, i);
            assert(ranks(runs(lines))[i] * none.len() == 0) by (nonlinear_arith)
                requires
                    none.len() == 0,
            ;
        }
        assert(cursors_behind(store, none) =~= store.selections);
    } else {
        lemma_typed_points(store, text, k - 1);
        lemma_typed_one_run_more(text, k);
        let before = typed_so_far(text, k - 1);
        let now = typed_so_far(text, k);
        let so_far = store.typed(flags, k - 1);
        let length = runs(flags)[k - 1];
        let at = total(runs(flags).take(k - 1));
        let target = cursors_behind(store, now);
        lemma_cursors_behind(store, now);
        lemma_cursors_behind(store, before);
        lemma_main_index(so_far, m);
        lemma_line_starts(before, line_breaks(before));
        let changed = if flags[at] == 1 {
            so_far.typed_down(length)
        } else {
            so_far.typed_right(length)
        };
        assert forall|i: int| 0 <= i < changed.len() implies changed[i] == target[i] by {
            let s = store.selections[i];
            let here = so_far.selections[i];
            assert(s.well_formed() && s.is_point());
            lemma_rank_positive(lines, i);
            let rank = ranks(runs(lines))[i];
            let feeds = line_breaks(before);
            if flags[at] == 1 {
                laws::lemma_reseated(here.pushed_down(length * (i + 1), length));
                assert(s.from.line + (i + 1) * feeds + length * (i + 1) == s.from.line + (i + 1)
                    * (feeds + length)) by (nonlinear_arith);
                assert((i + 1) * 0 == 0);
            } else {
                let there = so_far.head_lines();
                lemma_rank_follows(there, i);
                lemma_rank_follows(lines, i);
                if feeds == 0 {
                    assert(there =~= lines);
                    assert(s.from.col + rank * before.len() + length * rank == s.from.col + rank
                        * (before.len() + length)) by (nonlinear_arith);
                } else {
                    if i >= 1 {
                        let prev = store.selections[i - 1];
                        assert(prev.well_formed() && prev.is_point());
                        assert(prev.to.lt(s.from));
                        assert(i * feeds < (i + 1) * feeds) by (nonlinear_arith)
                            requires
                                i >= 0,
                                feeds >= 1,
                        ;
                        assert(there[i] != there[i - 1]);
                    }
                    assert(ranks(runs(there))[i] == 1);
                }
            }
        }
        assert(changed =~= target);
        lemma_rebuilt_apart(so_far, changed, changed.len() as int);
        assert(so_far.marked(changed).take(changed.len() as int) =~= so_far.marked(changed));
        assert(changed.take(changed.len() as int) =~= changed);
        let after = store.typed(flags, k);
        assert(after.selections == target);
        assert(after.main == target[m].from);
        assert(after.selections[m].from == after.main);
    }
}

/// Whether `offsets` are places in `text`, in order.
pub open spec fn places_in_order(text: Seq<char>, offsets: Seq<int>) -> bool {
    &&& forall|i: int| 0 <= i < offsets.len() ==> 0 <= #[trigger] offsets[i] <= text.len()
    &&& forall|i: int, j: int| 0 <= i < j < offsets.len() ==> offsets[i] <= offsets[j]
}

/// The text up to the end of copy `i`, once `typed` has been put into
/// `text` at each of `offsets`: what stands before the first offset and the
/// first copy, then for each further copy what stands between the offset
/// before it and its own, and the copy.
pub open spec fn up_to_copy(text: Seq<char>, offsets: Seq<int>, typed: Seq<char>, i: int) -> Seq<
    char,
>
    decreases i,
{
    if i <= 0 {
        text.take(offsets[0]) + typed
    } else {
        up_to_copy(text, offsets, typed, i - 1) + text.subrange(offsets[i - 1], offsets[i])
            + typed
    }
}

/// The text up to a copy depends on the text up to its offset, and on the
/// offsets up to it, alone.
pub proof fn lemma_up_to_copy_alike(
    text: Seq<char>,
    offsets: Seq<int>,
    other: Seq<char>,
    fewer: Seq<int>,
    typed: Seq<char>,
    i: int,
)
    requires
        places_in_order(text, offsets),
        0 <= i < fewer.len() <= offsets.len(),
        forall|j: int| 0 <= j < fewer.len() ==> fewer[j] == offsets[j],
        other == text.take(other.len() as int),
        offsets[i] <= other.len() <= text.len(),
    ensures
        up_to_copy(other, fewer, typed, i) == up_to_copy(text, offsets, typed, i),
    decreases i,
{
    if i <= 0 {
        assert(other.take(fewer[0]) =~= text.take(offsets[0]));
    } else {
        lemma_up_to_copy_alike(text, offsets, other, fewer, typed, i - 1);
        assert(other.subrange(fewer[i - 1], fewer[i]) =~= text.subrange(
            offsets[i - 1],
            offsets[i],
        ));
    }
}

/// The text up to copy `i` is as long as the text up to its offset and the
/// copies together, and has the line feeds of both.
pub proof fn lemma_up_to_copy(text: Seq<char>, offsets: Seq<int>, typed: Seq<char>, i: int)
    requires
        places_in_order(text, offsets),
        0 <= i < offsets.len(),
    ensures
        up_to_copy(text, offsets, typed, i).len() == offsets[i] + (i + 1) * typed.len(),
        line_breaks(up_to_copy(text, offsets, typed, i)) == line_breaks(text.take(offsets[i])) + (i
            + 1) * line_breaks(typed),
    decreases i,
{
    if i <= 0 {
        lemma_line_breaks_of_both(text.take(offsets[0]), typed);
    } else {
        lemma_up_to_copy(text, offsets, typed, i - 1);
        let before = up_to_copy(text, offsets, typed, i - 1);
        let between = text.subrange(offsets[i - 1], offsets[i]);
        lemma_line_breaks_of_both(before, between);
        lemma_line_breaks_of_both(before + between, typed);
        assert(text.take(offsets[i]) =~= text.take(offsets[i - 1]) + between);
        lemma_line_breaks_of_both(text.take(offsets[i - 1]), between);
        assert((i - 1 + 1) * typed.len() + typed.len() == (i + 1) * typed.len())
            by (nonlinear_arith);
        assert((i - 1 + 1) * line_breaks(typed) + line_breaks(typed) == (i + 1) * line_breaks(
            typed,
        )) by (nonlinear_arith);
    }
}

/// The text with a copy at each offset is the text up to the last copy and
/// what stood behind the last offset.
pub proof fn lemma_inserted_up_to_last(text: Seq<char>, offsets: Seq<int>, typed: Seq<char>)
    requires
        places_in_order(text, offsets),
        offsets.len() >= 1,
    ensures
        inserted_at_all(text, offsets, typed) == up_to_copy(
            text,
            offsets,
            typed,
            offsets.len() - 1,
        ) + text.skip(offsets.last()),
    decreases offsets.len(),
{
    let at = offsets.last();
    let rest = offsets.drop_last();
    let grown = with_inserted(text, at, typed);
    lemma_inserted_before(grown, rest, typed, at);
    assert(grown.take(at) =~= text.take(at));
    assert(grown.skip(at) =~= typed + text.skip(at));
    let front = text.take(at);
    if rest.len() == 0 {
        assert(offsets[0] == at);
    } else {
        assert forall|i: int| 0 <= i < rest.len() implies 0 <= #[trigger] rest[i] <= front.len() by {
            assert(rest[i] == offsets[i]);
        }
        assert forall|i: int, j: int| 0 <= i < j < rest.len() implies rest[i] <= rest[j] by {
            assert(rest[i] == offsets[i] && rest[j] == offsets[j]);
        }
        lemma_inserted_up_to_last(front, rest, typed);
        assert(front.take(front.len() as int) =~= front);
        lemma_up_to_copy_alike(text, offsets, front, rest, typed, rest.len() - 1);
        assert(front.skip(rest.last()) =~= text.subrange(offsets[offsets.len() - 2], at));
    }
}

/// The text with a copy at each offset begins with the text up to any of
/// the copies.
pub proof fn lemma_inserted_begins(text: Seq<char>, offsets: Seq<int>, typed: Seq<char>, i: int)
    requires
        places_in_order(text, offsets),
        0 <= i < offsets.len(),
    ensures
        up_to_copy(text, offsets, typed, i).len() <= inserted_at_all(
            text,
            offsets,
            typed,
        ).len(),
        inserted_at_all(text, offsets, typed).take(
            up_to_copy(text, offsets, typed, i).len() as int,
        ) == up_to_copy(text, offsets, typed, i),
    decreases offsets.len() - i,
{
    let all = inserted_at_all(text, offsets, typed);
    let here = up_to_copy(text, offsets, typed, i);
    if i == offsets.len() - 1 {
        lemma_inserted_up_to_last(text, offsets, typed);
        assert(all.take(here.len() as int) =~= here);
    } else {
        lemma_inserted_begins(text, offsets, typed, i + 1);
        let next = up_to_copy(text, offsets, typed, i + 1);
        assert(next.take(here.len() as int) =~= here);
        assert(all.take(here.len() as int) =~= all.take(next.len() as int).take(
            here.len() as int,
        ));
    }
}

/// As many line feeds stand before a slot of a text as lines come before
/// its line.
pub proof fn lemma_slot_line(text: Seq<char>, p: Pos)
    requires
        p.within(text_lines(text)),
    ensures
        line_breaks(text.take(char_index(text, p.line, p.col))) == p.line - 1,
        0 <= char_index(text, p.line, p.col) <= text.len(),
{
    lemma_index_within(text, p);
    lemma_line_starts(text, p.line - 1);
    if p.line <= line_breaks(text) {
        lemma_line_begins_behind_feed(text, p.line);
        lemma_content_end(text, line_start(text, p.line - 1), line_start(text, p.line) - 1);
    }
    lemma_line_breaks_before(text, p.line - 1, char_index(text, p.line, p.col));
}

/// Slots of a text that are in order name places that are in order.
pub proof fn lemma_slots_in_order(text: Seq<char>, p: Pos, q: Pos)
    requires
        p.within(text_lines(text)),
        q.within(text_lines(text)),
        p.le(q),
    ensures
        0 <= char_index(text, p.line, p.col) <= char_index(text, q.line, q.col) <= text.len(),
{
    lemma_index_within(text, p);
    lemma_index_within(text, q);
    if p.line < q.line {
        lemma_line_starts_in_order(text, p.line, q.line - 1);
    }
}

/// The cursors of a coherent buffer of bare cursors name places of the
/// text that are in order.
pub proof fn lemma_cursor_places(c: Contents)
    requires
        c.well_formed(),
        c.coherent(),
        c.store.all_points(),
    ensures
        places_in_order(c.text, c.cursor_indices()),
        c.cursor_indices().len() == c.store.selections.len(),
{
    let places = c.cursor_indices();
    assert forall|i: int| 0 <= i < places.len() implies 0 <= #[trigger] places[i]
        <= c.text.len() by {
        let s = c.store.selections[i];
        assert(s.within(c.lines()) && s.well_formed() && s.is_point());
        lemma_index_within(c.text, s.cursor());
    }
    assert forall|i: int, j: int| 0 <= i < j < places.len() implies places[i] <= places[j] by {
        let a = c.store.selections[i];
        let b = c.store.selections[j];
        assert(a.within(c.lines()) && a.well_formed() && a.is_point());
        assert(b.within(c.lines()) && b.well_formed() && b.is_point());
        assert(a.to.lt(b.from));
        lemma_slots_in_order(c.text, a.cursor(), b.cursor());
    }
}

/// Putting an empty text in changes nothing.
pub proof fn lemma_inserted_nothing(text: Seq<char>, offsets: Seq<int>)
    requires
        places_in_order(text, offsets),
    ensures
        inserted_at_all(text, offsets, Seq::empty()) == text,
    decreases offsets.len(),
{
    if offsets.len() > 0 {
        assert(with_inserted(text, offsets.last(), Seq::empty()) =~= text);
        let rest = offsets.drop_last();
        assert forall|i: int| 0 <= i < rest.len() implies 0 <= #[trigger] rest[i] <= text.len() by {
            assert(rest[i] == offsets[i]);
        }
        assert forall|i: int, j: int| 0 <= i < j < rest.len() implies rest[i] <= rest[j] by {
            assert(rest[i] == offsets[i] && rest[j] == offsets[j]);
        }
        lemma_inserted_nothing(text, rest);
    }
}

/// Every bare cursor of a coherent buffer comes to stand behind its copy
/// of a typed text: the slot that [`cursor_behind`] gives it is on the line
/// on which its copy ends, and names the place behind the copy.
pub proof fn lemma_cursor_index(c: Contents, typed: Seq<char>, i: int)
    requires
        c.well_formed(),
        c.coherent(),
        c.store.all_points(),
        0 <= i < c.store.selections.len(),
    ensures
        ({
            let q = cursors_behind(c.store, typed)[i].from;
            let all = inserted_at_all(c.text, c.cursor_indices(), typed);
            let copy_end = up_to_copy(c.text, c.cursor_indices(), typed, i);
            &&& q.line - 1 == line_breaks(copy_end)
            &&& char_index(all, q.line, q.col) == copy_end.len()
            &&& copy_end.len() == c.cursor_indices()[i] + (i + 1) * typed.len()
            &&& q.col >= 1
        }),
    decreases i,
{
    let text = c.text;
    let places = c.cursor_indices();
    let lines = c.store.head_lines();
    let all = inserted_at_all(text, places, typed);
    let s = c.store.selections[i];
    let p = s.from;
    let q = cursors_behind(c.store, typed)[i].from;
    let feeds = line_breaks(typed);
    lemma_cursor_places(c);
    assert(s.within(c.lines()) && s.well_formed() && s.is_point());
    assert(places[i] == char_index(text, p.line, p.col));
    lemma_slot_line(text, p);
    lemma_index_within(text, p);
    let here = up_to_copy(text, places, typed, i);
    lemma_up_to_copy(text, places, typed, i);
    lemma_inserted_begins(text, places, typed, i);
    let back = all.skip(here.len() as int);
    assert(all =~= here + back);
    lemma_rank_positive(lines, i);
    lemma_rank_follows(lines, i);
    lemma_line_starts(typed, feeds);
    let rank = ranks(runs(lines))[i];
    assert(rank * typed.len() >= 0) by (nonlinear_arith)
        requires
            rank >= 1,
            typed.len() >= 0,
    ;
    // the text up to the copy, without the copy
    let front = if i == 0 {
        text.take(places[0])
    } else {
        up_to_copy(text, places, typed, i - 1) + text.subrange(places[i - 1], places[i])
    };
    assert(here == front + typed);
    lemma_line_breaks_of_both(front, typed);
    assert(line_breaks(front) == p.line - 1 + i * feeds) by {
        assert((i + 1) * feeds == i * feeds + feeds) by (nonlinear_arith);
    }
    assert(front.len() == places[i] + i * typed.len()) by {
        assert((i + 1) * typed.len() == i * typed.len() + typed.len()) by (nonlinear_arith);
    }
    lemma_line_start_of_both(here, back, q.line - 1);
    if feeds >= 1 {
        assert((i + 1) * feeds >= 1) by (nonlinear_arith)
            requires
                i >= 0,
                feeds >= 1,
        ;
        assert(i * feeds >= 0) by (nonlinear_arith)
            requires
                i >= 0,
                feeds >= 1,
        ;
        lemma_line_start_of_both(front, typed, line_breaks(here));
    } else {
        assert(i * feeds == 0 && (i + 1) * feeds == 0) by (nonlinear_arith)
            requires
                feeds == 0,
        ;
        lemma_line_start_of_both(front, typed, p.line - 1);
        if i == 0 {
            assert(text =~= front + text.skip(places[0]));
            lemma_line_start_of_both(front, text.skip(places[0]), p.line - 1);
            assert(rank * typed.len() == typed.len()) by (nonlinear_arith)
                requires
                    rank == 1,
            ;
        } else {
            let before = c.store.selections[i - 1];
            assert(before.within(c.lines()) && before.well_formed() && before.is_point());
            assert(before.to.lt(p));
            assert(places[i - 1] == char_index(text, before.from.line, before.from.col));
            lemma_cursor_index(c, typed, i - 1);
            lemma_slot_line(text, before.from);
            lemma_rank_positive(lines, i - 1);
            let rank_before = ranks(runs(lines))[i - 1];
            if before.from.line == p.line {
                assert(rank == rank_before + 1);
                assert(rank * typed.len() == rank_before * typed.len() + typed.len())
                    by (nonlinear_arith)
                    requires
                        rank == rank_before + 1,
                ;
            } else {
                assert(rank == 1);
                assert(rank * typed.len() == typed.len()) by (nonlinear_arith)
                    requires
                        rank == 1,
                ;
                let earlier = up_to_copy(text, places, typed, i - 1);
                let between = text.subrange(places[i - 1], places[i]);
                lemma_up_to_copy(text, places, typed, i - 1);
                assert(((i - 1) + 1) * feeds == 0) by (nonlinear_arith)
                    requires
                        feeds == 0,
                ;
                lemma_line_start_of_both(earlier, between, p.line - 1);
                let upto = text.take(places[i]);
                assert(upto =~= text.take(places[i - 1]) + between);
                lemma_line_start_of_both(text.take(places[i - 1]), between, p.line - 1);
                assert(text =~= upto + text.skip(places[i]));
                lemma_line_start_of_both(upto, text.skip(places[i]), p.line - 1);
            }
        }
    }
}

/// Every bare cursor of a coherent buffer stands on a slot of the text
/// once a text has been typed at the cursors, unless that text ends in a
/// carriage return.
pub proof fn lemma_cursor_within(c: Contents, typed: Seq<char>, i: int)
    requires
        c.well_formed(),
        c.coherent(),
        c.store.all_points(),
        0 <= i < c.store.selections.len(),
        typed.len() == 0 || typed.last() != '\r',
        cursors_behind(c.store, typed)[i].from.col <= usize::MAX,
    ensures
        cursors_behind(c.store, typed)[i].from.within(
            text_lines(inserted_at_all(c.text, c.cursor_indices(), typed)),
        ),
{
    let text = c.text;
    let places = c.cursor_indices();
    let all = inserted_at_all(text, places, typed);
    let s = c.store.selections[i];
    let q = cursors_behind(c.store, typed)[i].from;
    lemma_cursor_places(c);
    lemma_cursor_index(c, typed, i);
    assert(s.within(c.lines()) && s.well_formed() && s.is_point());
    if typed.len() == 0 {
        lemma_inserted_nothing(text, places);
        assert(typed =~= Seq::empty());
        lemma_rank_positive(c.store.head_lines(), i);
        assert(ranks(runs(c.store.head_lines()))[i] * typed.len() == 0) by (nonlinear_arith)
            requires
                typed.len() == 0,
        ;
    } else {
        let here = up_to_copy(text, places, typed, i);
        lemma_inserted_begins(text, places, typed, i);
        let back = all.skip(here.len() as int);
        assert(all =~= here + back);
        lemma_line_breaks_of_both(here, back);
        lemma_line_starts(here, 0);
        lemma_line_starts(back, 0);
        lemma_line_starts(back, 1);
        lemma_line_starts(all, q.line - 1);
        lemma_line_start_of_both(here, back, q.line);
        let at = here.len() as int;
        assert(all[at - 1] == typed.last()) by {
            assert(all.take(at)[at - 1] == here[at - 1]);
        }
        if typed.last() == '\n' {
            // nothing stands behind the last line feed of the copy
            lemma_line_starts(typed.drop_last(), line_breaks(typed));
        }
        lemma_content_reaches(all, line_start(all, q.line - 1), line_start(all, q.line), at);
    }
}

/// Typing at bare cursors: in a coherent buffer whose selections are bare
/// cursors, typing a text leaves as many bare cursors, each behind its copy
/// of the text; and unless the text ends in a carriage return, the buffer is
/// coherent again.
pub proof fn law_typing_at_bare_cursors(c: Contents, typed: Seq<char>)
    requires
        c.well_formed(),
        c.coherent(),
        c.store.all_points(),
        c.takes(typed),
    ensures
        c.inserted(typed).store.well_formed(),
        c.inserted(typed).store.all_points(),
        c.inserted(typed).store.selections.len() == c.store.selections.len(),
        c.inserted(typed).store.selections == cursors_behind(c.store, typed),
        typed.len() == 0 || typed.last() != '\r' ==> c.inserted(typed).coherent(),
        forall|i: int|
            0 <= i < c.store.selections.len() ==> #[trigger] c.inserted(typed).cursor_indices()[i]
                == c.cursor_indices()[i] + (i + 1) * typed.len(),
{
    let flags = line_feed_flags(typed);
    let count = runs(flags).len() as int;
    lemma_runs_total(flags);
    lemma_typed_points(c.store, typed, count);
    assert(runs(flags).take(count) =~= runs(flags));
    assert(typed_so_far(typed, count) =~= typed);
    let after = c.inserted(typed);
    let behind = cursors_behind(c.store, typed);
    assert(after.store.selections == behind);
    assert forall|i: int| 0 <= i < behind.len() implies char_index(
        after.text,
        (#[trigger] behind[i]).cursor().line,
        behind[i].cursor().col,
    ) == c.cursor_indices()[i] + (i + 1) * typed.len() && (typed.len() == 0 || typed.last()
        != '\r' ==> behind[i].within(after.lines())) by {
        assert(behind[i].is_point() && after.store.selections[i].well_formed());
        lemma_cursor_index(c, typed, i);
        if count >= 1 {
            // the selections fit the machine as they are what the last run left
            assert(behind[i].fits());
        } else {
            assert(typed.len() == 0);
            assert(c.store.selections[i].within(c.lines()));
            lemma_rank_positive(c.store.head_lines(), i);
            assert(ranks(runs(c.store.head_lines()))[i] * typed.len() == 0) by (nonlinear_arith)
                requires
                    typed.len() == 0,
            ;
        }
        if typed.len() == 0 || typed.last() != '\r' {
            lemma_cursor_within(c, typed, i);
        }
    }
}

/// Whether a selection lies on one line.
pub open spec fn on_a_line(s: Sel) -> bool {
    s.from.line == s.to.line
}

/// Keys that are all alike are one run.
pub proof fn lemma_one_run<K>(keys: Seq<K>)
    requires
        keys.len() >= 1,
        forall|i: int| 0 <= i < keys.len() ==> #[trigger] keys[i] == keys[0],
    ensures
        runs(keys) == seq![keys.len() as int],
    decreases keys.len(),
{
    if keys.len() > 1 {
        let rest = keys.drop_last();
        assert(rest[0] == keys[0]);
        assert forall|i: int| 0 <= i < rest.len() implies #[trigger] rest[i] == rest[0] by {
            assert(rest[i] == keys[i]);
        }
        lemma_one_run(rest);
        assert(keys[keys.len() - 1] == keys[keys.len() - 2]);
        assert(runs(keys) =~= seq![keys.len() as int]);
    } else {
        assert(runs(keys) =~= seq![keys.len() as int]);
    }
}

/// A place of a text stands on the line before which as many lines come as
/// line feeds stand before the place.
pub proof fn lemma_place_on_line(text: Seq<char>, at: int)
    requires
        0 <= at <= text.len(),
    ensures
        line_start(text, line_breaks(text.take(at))) <= at <= line_start(
            text,
            line_breaks(text.take(at)) + 1,
        ),
{
    let front = text.take(at);
    let back = text.skip(at);
    let line = line_breaks(front);
    assert(text =~= front + back);
    lemma_line_starts(front, line);
    lemma_line_starts(back, 0);
    lemma_line_starts(back, 1);
    lemma_line_start_of_both(front, back, line);
    lemma_line_start_of_both(front, back, line + 1);
}

/// Where the content of a stretch is not empty, it ends with a character
/// that is no line-end character.
pub proof fn lemma_content_ends_plain(text: Seq<char>, from: int, to: int)
    requires
        0 <= from <= to <= text.len(),
        content_end(text, from, to) > from,
    ensures
        from < content_end(text, from, to) <= to,
        !is_line_end_char(text[content_end(text, from, to) - 1]),
    decreases to - from,
{
    if from < to && is_line_end_char(text[to - 1]) {
        lemma_content_ends_plain(text, from, to - 1);
    }
}

/// Whether a text can be typed on a line: it holds no line feed and does
/// not end in a carriage return.
pub open spec fn plain(typed: Seq<char>) -> bool {
    &&& forall|k: int| 0 <= k < typed.len() ==> typed[k] != '\n'
    &&& typed.len() == 0 || typed.last() != '\r'
}

/// A text without a line feed put in at a slot of a text leaves the lines
/// as many as they were; those up to the line of the slot begin where they
/// began, and those behind it as much later as the text is long.
pub proof fn lemma_typed_line_starts(text: Seq<char>, p: Pos, typed: Seq<char>, line: int)
    requires
        p.within(text_lines(text)),
        forall|k: int| 0 <= k < typed.len() ==> typed[k] != '\n',
        line >= 0,
    ensures
        ({
            let grown = with_inserted(text, char_index(text, p.line, p.col), typed);
            &&& line_breaks(grown) == line_breaks(text)
            &&& line_start(grown, line) == line_start(text, line) + if line >= p.line {
                typed.len() as int
            } else {
                0
            }
        }),
{
    let at = char_index(text, p.line, p.col);
    let grown = with_inserted(text, at, typed);
    let front = text.take(at);
    let back = text.skip(at);
    lemma_index_within(text, p);
    lemma_slot_line(text, p);
    lemma_no_feeds(typed);
    assert(grown =~= front + (typed + back));
    assert(text =~= front + back);
    lemma_line_breaks_of_both(typed, back);
    lemma_line_breaks_of_both(front, typed + back);
    lemma_line_breaks_of_both(front, back);
    lemma_line_start_of_both(front, typed + back, line);
    lemma_line_start_of_both(front, back, line);
    if line > p.line - 1 {
        lemma_line_start_of_both(typed, back, line - (p.line - 1));
    }
}

/// A plain text put in at a slot of a text gives the line of the slot as
/// many slots more as the text is long, and leaves the other lines as long
/// as they were.
pub proof fn lemma_typed_on_one_line(text: Seq<char>, p: Pos, typed: Seq<char>, line: int)
    requires
        p.within(text_lines(text)),
        plain(typed),
        typed.len() >= 1,
        1 <= line <= line_count(text),
    ensures
        ({
            let grown = with_inserted(text, char_index(text, p.line, p.col), typed);
            &&& line_breaks(grown) == line_breaks(text)
            &&& line_start(grown, line - 1) == line_start(text, line - 1) + if line > p.line {
                typed.len() as int
            } else {
                0
            }
            &&& slots(grown, line) == slots(text, line) + if line == p.line {
                typed.len() as int
            } else {
                0
            }
        }),
{
    let at = char_index(text, p.line, p.col);
    let n = typed.len() as int;
    let grown = with_inserted(text, at, typed);
    let start = line_start(text, line - 1);
    let end = line_start(text, line);
    let content = content_end(text, start, end);
    lemma_index_within(text, p);
    lemma_typed_line_starts(text, p, typed, line - 1);
    lemma_typed_line_starts(text, p, typed, line);
    lemma_line_starts(text, line - 1);
    lemma_line_starts(grown, line - 1);
    lemma_content_end(text, start, end);
    if content > start {
        lemma_content_ends_plain(text, start, end);
    }
    assert forall|k: int| content <= k < end implies is_line_end_char(#[trigger] text[k]) by {
        lemma_content_tail(text, start, end, k);
    }
    assert(grown.len() == text.len() + n);
    assert(forall|k: int| 0 <= k < at ==> grown[k] == text[k]);
    assert(forall|k: int| at + n <= k < grown.len() ==> grown[k] == text[k - n]);
    if line < p.line {
        lemma_line_starts_in_order(text, line, p.line - 1);
        lemma_content_ends_at(grown, start, end, content);
    } else if line > p.line {
        lemma_line_starts_in_order(text, p.line, line - 1);
        lemma_content_ends_at(grown, start + n, end + n, content + n);
    } else {
        assert(at <= content);
        if content == at {
            assert(grown[content + n - 1] == typed[n - 1]);
        }
        lemma_content_ends_at(grown, start, end + n, content + n);
    }
}

/// The places in `text` that the slots `slots_at` name.
pub open spec fn places_of(text: Seq<char>, slots_at: Seq<Pos>) -> Seq<int> {
    slots_at.map_values(|p: Pos| char_index(text, p.line, p.col))
}

/// How many of the slots `slots_at` are on line `line`.
pub open spec fn count_on(slots_at: Seq<Pos>, line: int) -> int
    decreases slots_at.len(),
{
    if slots_at.len() == 0 {
        0
    } else {
        count_on(slots_at.drop_last(), line) + if slots_at.last().line == line {
            1int
        } else {
            0int
        }
    }
}

/// No more of the first `k` slots are on a line than of all of them, and
/// at least one of those up to a slot that is on the line.
pub proof fn lemma_count_grows(slots_at: Seq<Pos>, k: int, line: int)
    requires
        0 <= k <= slots_at.len(),
    ensures
        0 <= count_on(slots_at.take(k), line) <= count_on(slots_at, line),
        k >= 1 && slots_at[k - 1].line == line ==> count_on(slots_at.take(k), line) >= 1,
    decreases slots_at.len() + slots_at.len() - k,
{
    if k >= 1 {
        assert(slots_at.take(k).drop_last() =~= slots_at.take(k - 1));
        if k < slots_at.len() {
            assert(slots_at.take(k - 1) =~= slots_at.drop_last().take(k - 1));
            lemma_count_grows(slots_at.drop_last(), k - 1, line);
        } else {
            lemma_count_grows(slots_at.drop_last(), k - 1, line);
            assert(slots_at.take(k - 1) =~= slots_at.drop_last());
        }
    }
    if k < slots_at.len() {
        lemma_count_grows(slots_at, k + 1, line);
        assert(slots_at.take(k + 1).drop_last() =~= slots_at.take(k));
    } else {
        assert(slots_at.take(k) =~= slots_at);
    }
}

/// A plain text put in at slots of a text that are in order leaves the
/// lines as many as they were, and gives each line as many slots more as the
/// text is long, for each of the slots on that line.
pub proof fn lemma_typed_on_lines(text: Seq<char>, slots_at: Seq<Pos>, typed: Seq<char>, line: int)
    requires
        forall|i: int| 0 <= i < slots_at.len() ==> (#[trigger] slots_at[i]).within(text_lines(text)),
        forall|i: int, j: int|
            0 <= i < j < slots_at.len() ==> (#[trigger] slots_at[i]).le(#[trigger] slots_at[j]),
        plain(typed),
        typed.len() >= 1,
        1 <= line <= line_count(text),
    ensures
        line_breaks(inserted_at_all(text, places_of(text, slots_at), typed)) == line_breaks(text),
        slots(inserted_at_all(text, places_of(text, slots_at), typed), line) == slots(text, line)
            + typed.len() * count_on(slots_at, line),
    decreases slots_at.len(),
{
    let places = places_of(text, slots_at);
    let n = typed.len() as int;
    if slots_at.len() == 0 {
        assert(places =~= Seq::empty());
        assert(n * 0 == 0);
    } else {
        let last = slots_at.last();
        let rest = slots_at.drop_last();
        let at = char_index(text, last.line, last.col);
        let grown = with_inserted(text, at, typed);
        assert(places.last() == at);
        assert(places.drop_last() =~= places_of(text, rest));
        assert forall|i: int| 0 <= i < rest.len() implies (#[trigger] rest[i]).within(
            text_lines(grown),
        ) && char_index(grown, rest[i].line, rest[i].col) == char_index(
            text,
            rest[i].line,
            rest[i].col,
        ) by {
            assert(rest[i] == slots_at[i]);
            assert(slots_at[i].le(slots_at[slots_at.len() - 1]));
            lemma_typed_on_one_line(text, last, typed, rest[i].line);
        }
        assert(places_of(grown, rest) =~= places_of(text, rest));
        assert forall|i: int, j: int| 0 <= i < j < rest.len() implies (#[trigger] rest[i]).le(
            #[trigger] rest[j],
        ) by {
            assert(rest[i] == slots_at[i] && rest[j] == slots_at[j]);
        }
        lemma_typed_on_one_line(text, last, typed, line);
        lemma_typed_on_lines(grown, rest, typed, line);
        let k = count_on(rest, line);
        assert(n * (k + 1) == n * k + n) by (nonlinear_arith);
    }
}

/// The cursors of the selections of a set, in order.
pub open spec fn cursors(store: Store) -> Seq<Pos> {
    store.selections.map_values(|s: Sel| s.cursor())
}

/// How many cursors of a set are on line `line`.
pub open spec fn cursors_on(store: Store, line: int) -> int {
    count_on(cursors(store), line)
}

/// The cursors of a well-formed set are in order, and where they name slots
/// of the text of a buffer, they name places that are in order.
pub proof fn lemma_cursors_in_order(c: Contents)
    requires
        c.well_formed(),
        c.cursors_within(),
    ensures
        forall|i: int, j: int|
            0 <= i < j < cursors(c.store).len() ==> (#[trigger] cursors(c.store)[i]).le(
                #[trigger] cursors(c.store)[j],
            ),
        forall|i: int|
            0 <= i < cursors(c.store).len() ==> (#[trigger] cursors(c.store)[i]).within(c.lines()),
        c.cursor_indices() == places_of(c.text, cursors(c.store)),
        places_in_order(c.text, c.cursor_indices()),
{
    let sels = c.store.selections;
    let at = cursors(c.store);
    assert forall|i: int| 0 <= i < at.len() implies (#[trigger] at[i]).within(c.lines()) by {
        assert(sels[i].cursor().within(c.lines()));
    }
    assert forall|i: int, j: int| 0 <= i < j < at.len() implies (#[trigger] at[i]).le(
        #[trigger] at[j],
    ) by {
        assert(sels[i].to.lt(sels[j].from));
        assert(sels[i].well_formed() && sels[j].well_formed());
    }
    assert(c.cursor_indices() =~= places_of(c.text, at));
    let places = c.cursor_indices();
    assert forall|i: int| 0 <= i < places.len() implies 0 <= #[trigger] places[i]
        <= c.text.len() by {
        assert(at[i].within(c.lines()));
        lemma_index_within(c.text, at[i]);
    }
    assert forall|i: int, j: int| 0 <= i < j < places.len() implies places[i] <= places[j] by {
        assert(at[i].le(at[j]));
        assert(at[i].within(c.lines()) && at[j].within(c.lines()));
        lemma_slots_in_order(c.text, at[i], at[j]);
    }
}

/// Typing a plain text makes lines longer: the lines are as many as they
/// were, and each has as many slots more as the text is long, for each
/// cursor on that line.
pub proof fn law_plain_text_grows_lines(c: Contents, typed: Seq<char>)
    requires
        c.well_formed(),
        c.cursors_within(),
        plain(typed),
    ensures
        line_count(c.inserted(typed).text) == line_count(c.text),
        forall|line: int|
            1 <= line <= line_count(c.text) ==> #[trigger] slots(c.inserted(typed).text, line)
                == slots(c.text, line) + typed.len() * cursors_on(c.store, line),
{
    lemma_cursors_in_order(c);
    if typed.len() == 0 {
        assert(typed =~= Seq::empty());
        lemma_inserted_nothing(c.text, c.cursor_indices());
        assert forall|line: int| 1 <= line <= line_count(c.text) implies typed.len() * cursors_on(
            c.store,
            line,
        ) == 0 by {
            assert(typed.len() * cursors_on(c.store, line) == 0) by (nonlinear_arith)
                requires
                    typed.len() == 0,
            ;
        }
    } else {
        lemma_line_starts(c.text, 0);
        lemma_typed_on_lines(c.text, cursors(c.store), typed, 1);
        assert forall|line: int| 1 <= line <= line_count(c.text) implies #[trigger] slots(
            c.inserted(typed).text,
            line,
        ) == slots(c.text, line) + typed.len() * cursors_on(c.store, line) by {
            lemma_typed_on_lines(c.text, cursors(c.store), typed, line);
        }
    }
}

/// No more selections of a run of selections that begin on one line come
/// up to a selection whose cursor is on that line than cursors are on the
/// line.
pub proof fn lemma_rank_is_counted(store: Store, i: int)
    requires
        store.well_formed(),
        0 <= i < store.selections.len(),
        store.selections[i].cursor().line == store.selections[i].from.line,
    ensures
        1 <= ranks(runs(store.head_lines()))[i] <= count_on(
            cursors(store).take(i + 1),
            store.selections[i].from.line,
        ),
        ranks(runs(store.head_lines()))[i] <= cursors_on(store, store.selections[i].from.line),
    decreases i,
{
    let sels = store.selections;
    let lines = store.head_lines();
    let at = cursors(store);
    let line = sels[i].from.line;
    lemma_rank_follows(lines, i);
    lemma_rank_positive(lines, i);
    assert(at.take(i + 1).drop_last() =~= at.take(i));
    assert(at.take(i + 1).last() == at[i]);
    lemma_count_grows(at, i, line);
    lemma_count_grows(at, i + 1, line);
    if i >= 1 && lines[i] == lines[i - 1] {
        // the selection before lies on this line, and so does its cursor
        let before = sels[i - 1];
        assert(before.to.lt(sels[i].from));
        assert(before.well_formed());
        lemma_rank_is_counted(store, i - 1);
    }
}

/// Whether the tail of selection `i` of a buffer, pushed right as typing a
/// plain text of `n` characters pushes it, fits into its line as the line
/// has grown then: the tail goes as many columns right as the text is long,
/// for each selection up to it in its run of selections that begin on one
/// line, and the line gets as many slots more, for each cursor on it.
pub open spec fn tail_fits(c: Contents, n: int, i: int) -> bool {
    c.store.selections[i].to.col + n * ranks(runs(c.store.head_lines()))[i] <= c.lines().lengths[c.store.selections[i].to.line]
        + n * cursors_on(c.store, c.store.selections[i].to.line)
}

/// Whether selection `i` of a set is the first to begin on its line: no
/// selection comes before it, or the one before it begins on another line.
pub open spec fn first_on_its_line(store: Store, i: int) -> bool {
    i == 0 || store.selections[i - 1].from.line != store.selections[i].from.line
}

/// Whether selection `i` of a set grows or moves with its line where a
/// plain text is typed: it lies on one line, or it has its cursor at its
/// tail and is the first to begin on its line.
pub open spec fn keeps_to_its_line(store: Store, i: int) -> bool {
    on_a_line(store.selections[i]) || (store.selections[i].cursor() == store.selections[i].to
        && first_on_its_line(store, i))
}

/// The tail of a selection of a coherent buffer fits into its line after
/// typing, see [`tail_fits`], where the selection lies on one line, or has
/// its cursor at its tail and is the first to begin on its line.
pub proof fn lemma_tail_fits(c: Contents, n: int, i: int)
    requires
        c.well_formed(),
        c.coherent(),
        n >= 0,
        0 <= i < c.store.selections.len(),
        keeps_to_its_line(c.store, i),
    ensures
        tail_fits(c, n, i),
{
    let s = c.store.selections[i];
    let rank = ranks(runs(c.store.head_lines()))[i];
    let count = cursors_on(c.store, s.to.line);
    assert(s.well_formed() && s.within(c.lines()));
    if on_a_line(s) {
        lemma_rank_is_counted(c.store, i);
    } else {
        lemma_rank_follows(c.store.head_lines(), i);
        lemma_count_grows(cursors(c.store), i + 1, s.to.line);
    }
    assert(n * rank <= n * count) by (nonlinear_arith)
        requires
            n >= 0,
            rank <= count,
    ;
}

/// Typing a plain text: in a coherent buffer, typing a text without a line
/// feed that does not end in a carriage return leaves a coherent buffer,
/// if the tail of every selection fits into its line afterwards, see
/// [`tail_fits`] and [`lemma_tail_fits`].
pub proof fn law_typing_plain_text(c: Contents, typed: Seq<char>)
    requires
        c.well_formed(),
        c.coherent(),
        c.takes(typed),
        plain(typed),
        forall|i: int| 0 <= i < c.store.selections.len() ==> tail_fits(c, typed.len() as int, i),
    ensures
        c.inserted(typed).store.well_formed(),
        c.inserted(typed).coherent(),
{
    let flags = line_feed_flags(typed);
    let sels = c.store.selections;
    assert(c.cursors_within()) by {
        assert forall|i: int| 0 <= i < sels.len() implies (#[trigger] sels[i]).cursor().within(
            c.lines(),
        ) by {
            assert(sels[i].within(c.lines()));
        }
    }
    lemma_cursors_in_order(c);
    if typed.len() == 0 {
        assert(flags =~= Seq::empty());
        lemma_inserted_nothing(c.text, c.cursor_indices());
        assert(runs(flags).len() == 0);
        assert(c.store.typed(flags, 0) == c.store);
        assert(typed =~= Seq::empty());
        assert(c.inserted(typed).text == c.text);
        assert(c.inserted(typed) == c);
    } else {
        let n = typed.len() as int;
        lemma_no_feeds(typed);
        lemma_one_run(flags);
        assert(runs(flags).take(0) =~= Seq::empty());
        assert(c.store.typed(flags, 0) == c.store);
        assert(c.store.typed(flags, 1) == Store::of(c.store.pushed_right(n)));
        let changed = c.store.typed_right(n);
        let after = c.inserted(typed);
        let m = text_lines(after.text);
        law_plain_text_grows_lines(c, typed);
        assert(Store::all_fit(changed));
        assert forall|i: int| 0 <= i < changed.len() implies (#[trigger] changed[i]).well_formed()
            && changed[i].within(m) by {
            let s = sels[i];
            let rank = ranks(runs(c.store.head_lines()))[i];
            lemma_rank_positive(c.store.head_lines(), i);
            assert(n * rank >= 0) by (nonlinear_arith)
                requires
                    n >= 1,
                    rank >= 1,
            ;
            assert(s.well_formed() && s.within(c.lines()));
            assert(changed[i] == s.pushed_right(n * rank));
            assert(changed[i].fits());
            assert(tail_fits(c, n, i));
            lemma_count_grows(cursors(c.store), 0, s.from.line);
            lemma_count_grows(cursors(c.store), 0, s.to.line);
            assert(n * cursors_on(c.store, s.from.line) >= 0) by (nonlinear_arith)
                requires
                    n >= 1,
                    cursors_on(c.store, s.from.line) >= 0,
            ;
            assert(slots(after.text, s.to.line) == slots(c.text, s.to.line) + n * cursors_on(
                c.store,
                s.to.line,
            ));
            assert(slots(after.text, s.from.line) == slots(c.text, s.from.line) + n * cursors_on(
                c.store,
                s.from.line,
            ));
            if s.cursor() == s.from {
                lemma_rank_is_counted(c.store, i);
                assert(n * rank <= n * cursors_on(c.store, s.from.line)) by (nonlinear_arith)
                    requires
                        n >= 1,
                        rank <= cursors_on(c.store, s.from.line),
                ;
            }
        }
        lemma_rebuilt(c.store, changed);
        lemma_rebuilt_within(c.store, changed, m);
        assert(after.store == Store::of(c.store.rebuilt(changed)));
        assert forall|i: int| 0 <= i < after.store.selections.len() implies (
        #[trigger] after.store.selections[i]).within(after.lines()) by {
            assert(c.store.rebuilt(changed).selections[i].within(m));
        }
    }
}

/// Typing on a line: in a coherent buffer whose selections each lie on one
/// line, or have the cursor at the tail and are the first to begin on their
/// line, typing a text without a line feed that does not end in a carriage
/// return leaves a coherent buffer. A selection with the cursor at its tail
/// has grown to hold its copy, any other has moved behind its copy as a
/// whole; those that overlap afterwards are merged.
pub proof fn law_typing_on_a_line(c: Contents, typed: Seq<char>)
    requires
        c.well_formed(),
        c.coherent(),
        c.takes(typed),
        plain(typed),
        forall|i: int| 0 <= i < c.store.selections.len() ==> keeps_to_its_line(c.store, i),
    ensures
        c.inserted(typed).store.well_formed(),
        c.inserted(typed).coherent(),
{
    assert forall|i: int| 0 <= i < c.store.selections.len() implies tail_fits(
        c,
        typed.len() as int,
        i,
    ) by {
        lemma_tail_fits(c, typed.len() as int, i);
    }
    law_typing_plain_text(c, typed);
}

/// Typing at the tail of a single selection: after the first `k` runs of a
/// text have been typed at the one selection of a set, which has its cursor
/// at its tail, the head stands where it stood, and the tail where the bare
/// cursor at the tail would stand.
pub proof fn lemma_one_tail_typed(s: Sel, flags: Seq<usize>, k: int)
    requires
        s.well_formed(),
        s.from.lt(s.to),
        s.cursor_direction == CursorDirection::Forward,
        0 <= k <= runs(flags).len(),
    ensures
        ({
            let grown = alone(s).typed(flags, k);
            let moved = alone(Sel::point(s.to)).typed(flags, k);
            &&& moved.selections.len() == 1
            &&& moved == alone(Sel::point(moved.selections[0].to))
            &&& moved.selections[0].to.valid()
            &&& s.to.le(moved.selections[0].to)
            &&& grown == alone(Sel { to: moved.selections[0].to, ..s })
            &&& k >= 1 ==> grown.selections == if flags[total(runs(flags).take(k - 1))] == 1 {
                alone(s).typed(flags, k - 1).typed_down(runs(flags)[k - 1])
            } else {
                alone(s).typed(flags, k - 1).typed_right(runs(flags)[k - 1])
            }
        }),
    decreases k,
{
    if k >= 1 {
        lemma_one_tail_typed(s, flags, k - 1);
        lemma_runs_total(flags);
        let n = runs(flags)[k - 1];
        let before = alone(Sel::point(s.to)).typed(flags, k - 1);
        let at = before.selections[0].to;
        let point = Sel::point(at);
        let range = Sel { to: at, ..s };
        let down = flags[total(runs(flags).take(k - 1))] == 1;
        assert(alone(s).typed(flags, k - 1) == alone(range));
        assert(before == alone(point));
        assert(alone(range).head_lines() =~= seq![range.from.line]);
        assert(alone(point).head_lines() =~= seq![point.from.line]);
        lemma_rank_follows(alone(range).head_lines(), 0);
        lemma_rank_follows(alone(point).head_lines(), 0);
        assert(n * 1 == n && n * (0 + 1) == n);
        let next_point = if down {
            point.pushed_down(n, n).reseated()
        } else {
            point.pushed_right(n)
        };
        let next_range = if down {
            range.pushed_down(n, n).reseated()
        } else {
            range.pushed_right(n)
        };
        let points = if down {
            alone(point).typed_down(n)
        } else {
            alone(point).typed_right(n)
        };
        let ranges = if down {
            alone(range).typed_down(n)
        } else {
            alone(range).typed_right(n)
        };
        assert(points =~= seq![next_point]);
        assert(ranges =~= seq![next_range]);
        assert(next_point == Sel::point(next_point.to));
        assert(next_range == Sel { to: next_point.to, ..s });
        assert(alone(point).marked(points) =~= seq![(next_point, true)]);
        assert(alone(range).marked(ranges) =~= seq![(next_range, true)]);
        lemma_place_one(next_point);
        lemma_place_one(next_range);
        assert(Store::of(alone(point).rebuilt(points)) == alone(next_point));
        assert(Store::of(alone(range).rebuilt(ranges)) == alone(next_range));
    }
}

/// A text put in at a slot of a text leaves the lines before the line of
/// the slot as they are.
pub proof fn lemma_lines_before_what_is_typed(text: Seq<char>, p: Pos, typed: Seq<char>, line: int)
    requires
        p.within(text_lines(text)),
        1 <= line < p.line,
    ensures
        ({
            let grown = with_inserted(text, char_index(text, p.line, p.col), typed);
            &&& line_count(grown) >= line_count(text)
            &&& slots(grown, line) == slots(text, line)
        }),
{
    let at = char_index(text, p.line, p.col);
    let grown = with_inserted(text, at, typed);
    let front = text.take(at);
    let back = text.skip(at);
    let start = line_start(text, line - 1);
    let end = line_start(text, line);
    let content = content_end(text, start, end);
    lemma_index_within(text, p);
    lemma_slot_line(text, p);
    assert(grown =~= front + (typed + back));
    assert(text =~= front + back);
    lemma_line_starts(typed, 0);
    lemma_line_breaks_of_both(typed, back);
    lemma_line_breaks_of_both(front, typed + back);
    lemma_line_breaks_of_both(front, back);
    lemma_line_start_of_both(front, typed + back, line - 1);
    lemma_line_start_of_both(front, typed + back, line);
    lemma_line_start_of_both(front, back, line - 1);
    lemma_line_start_of_both(front, back, line);
    lemma_line_starts(text, line - 1);
    lemma_line_starts_in_order(text, line, p.line - 1);
    lemma_content_end(text, start, end);
    if content > start {
        lemma_content_ends_plain(text, start, end);
    }
    assert forall|k: int| content <= k < end implies is_line_end_char(#[trigger] grown[k]) by {
        lemma_content_tail(text, start, end, k);
        assert(grown[k] == text[k]);
    }
    if content > start {
        assert(grown[content - 1] == text[content - 1]);
    }
    lemma_content_ends_at(grown, start, end, content);
}

/// Typing at the tail of a single selection: in a coherent buffer whose one
/// selection has its cursor at its tail, typing a text that does not end in
/// a carriage return leaves a coherent buffer, the selection grown to hold
/// the text, if the text leaves the tail a slot where the selection lies on
/// one line, see [`keeps_slot`].
pub proof fn law_typing_at_one_tail(c: Contents, typed: Seq<char>)
    requires
        c.well_formed(),
        c.coherent(),
        c.takes(typed),
        c.store.selections.len() == 1,
        c.store.selections[0].cursor() == c.store.selections[0].to,
        typed.len() == 0 || typed.last() != '\r',
        on_a_line(c.store.selections[0]) ==> keeps_slot(c.text, c.store.selections[0].to, typed),
    ensures
        c.inserted(typed).store.well_formed(),
        c.inserted(typed).coherent(),
        c.inserted(typed).store.selections.len() == 1,
        !c.store.selections[0].is_point() ==> c.inserted(typed).store.selections[0].from
            == c.store.selections[0].from,
{
    let s = c.store.selections[0];
    let text = c.text;
    let flags = line_feed_flags(typed);
    let count = runs(flags).len() as int;
    assert(s.well_formed() && s.within(c.lines()));
    assert(c.store.selections =~= seq![s]);
    assert(c.store == alone(s));
    if s.is_point() {
        law_typing_at_bare_cursors(c, typed);
    } else {
        let t = Contents { text: text, store: alone(Sel::point(s.to)) };
        let at = char_index(text, s.to.line, s.to.col);
        let after = c.inserted(typed);
        assert(t.store.selections[0] == Sel::point(s.to));
        assert(t.store.selections[0].from == t.store.main);
        assert(t.well_formed());
        assert(t.coherent()) by {
            assert forall|i: int| 0 <= i < t.store.selections.len() implies (
            #[trigger] t.store.selections[i]).within(t.lines()) by {
                assert(t.store.selections[i] == Sel::point(s.to));
            }
        }
        assert(t.cursor_indices() =~= c.cursor_indices());
        assert(c.cursor_indices() =~= seq![at]);
        lemma_inserted_once(text, at, typed);
        lemma_runs_total(flags);
        lemma_one_tail_typed(s, flags, count);
        lemma_typed_points(t.store, typed, count);
        assert(runs(flags).take(count) =~= runs(flags));
        assert(typed_so_far(typed, count) =~= typed);
        let grown = after.store.selections[0];
        let moved = t.store.typed(flags, count).selections[0];
        assert(grown.to == moved.to);
        assert(moved == cursors_behind(t.store, typed)[0]);
        if count >= 1 {
            assert(grown.fits());
        } else {
            assert(typed.len() == 0);
            lemma_rank_positive(t.store.head_lines(), 0);
            assert(ranks(runs(t.store.head_lines()))[0] * typed.len() == 0) by (nonlinear_arith)
                requires
                    typed.len() == 0,
            ;
        }
        lemma_cursor_within(t, typed, 0);
        lemma_index_within(text, s.to);
        lemma_slot_before_what_is_typed(text, s.to, typed);
        if s.from.line < s.to.line {
            lemma_lines_before_what_is_typed(text, s.to, typed, s.from.line);
        }
        assert(grown.from == s.from);
        assert(grown.from.within(after.lines()));
        assert forall|i: int| 0 <= i < after.store.selections.len() implies (
        #[trigger] after.store.selections[i]).within(after.lines()) by {
            assert(after.store.selections[i] == grown);
        }
        assert(after.store.selections[0].from == after.store.main);
    }
}

/// Typing at the head of a single selection: after the first `k` runs of a
/// text have been typed at the one selection of a set, which lies on one
/// line with its cursor at its head, the head stands where the bare cursor
/// at the head would stand, and the tail as far behind it as it was.
pub proof fn lemma_one_head_typed(s: Sel, flags: Seq<usize>, k: int)
    requires
        s.well_formed(),
        s.from.lt(s.to),
        on_a_line(s),
        s.cursor_direction == CursorDirection::Backward,
        0 <= k <= runs(flags).len(),
    ensures
        ({
            let moved = alone(Sel::point(s.from)).typed(flags, k);
            let carried = alone(s).typed(flags, k);
            let head = moved.selections[0].to;
            &&& moved.selections.len() == 1
            &&& moved == alone(Sel::point(head))
            &&& head.valid()
            &&& carried == alone(
                Sel {
                    from: head,
                    to: Pos { line: head.line, col: head.col + s.to.col - s.from.col },
                    ..s
                },
            )
            &&& k >= 1 ==> carried.selections == if flags[total(runs(flags).take(k - 1))] == 1 {
                alone(s).typed(flags, k - 1).typed_down(runs(flags)[k - 1])
            } else {
                alone(s).typed(flags, k - 1).typed_right(runs(flags)[k - 1])
            }
        }),
    decreases k,
{
    if k >= 1 {
        lemma_one_head_typed(s, flags, k - 1);
        lemma_runs_total(flags);
        let n = runs(flags)[k - 1];
        let width = s.to.col - s.from.col;
        let before = alone(Sel::point(s.from)).typed(flags, k - 1);
        let at = before.selections[0].to;
        let point = Sel::point(at);
        let range = Sel { from: at, to: Pos { line: at.line, col: at.col + width }, ..s };
        let down = flags[total(runs(flags).take(k - 1))] == 1;
        assert(alone(s).typed(flags, k - 1) == alone(range));
        assert(before == alone(point));
        assert(alone(range).head_lines() =~= seq![range.from.line]);
        assert(alone(point).head_lines() =~= seq![point.from.line]);
        lemma_rank_follows(alone(range).head_lines(), 0);
        lemma_rank_follows(alone(point).head_lines(), 0);
        assert(n * 1 == n && n * (0 + 1) == n);
        let next_point = if down {
            point.pushed_down(n, n).reseated()
        } else {
            point.pushed_right(n)
        };
        let next_range = if down {
            range.pushed_down(n, n).reseated()
        } else {
            range.pushed_right(n)
        };
        let points = if down {
            alone(point).typed_down(n)
        } else {
            alone(point).typed_right(n)
        };
        let ranges = if down {
            alone(range).typed_down(n)
        } else {
            alone(range).typed_right(n)
        };
        assert(points =~= seq![next_point]);
        assert(ranges =~= seq![next_range]);
        assert(next_point == Sel::point(next_point.to));
        assert(next_range == Sel {
            from: next_point.to,
            to: Pos { line: next_point.to.line, col: next_point.to.col + width },
            ..s
        });
        assert(alone(point).marked(points) =~= seq![(next_point, true)]);
        assert(alone(range).marked(ranges) =~= seq![(next_range, true)]);
        lemma_place_one(next_point);
        lemma_place_one(next_range);
        assert(Store::of(alone(point).rebuilt(points)) == alone(next_point));
        assert(Store::of(alone(range).rebuilt(ranges)) == alone(next_range));
    }
}

/// Where a text is put in at the slot `p` of a text, and `q` is the slot
/// behind what was put in, a slot behind `p` on its line is as far behind
/// `q` on the line of `q` afterwards: the line goes on behind what was put in
/// as it went on behind `p`.
pub proof fn lemma_slot_behind_what_is_typed(
    text: Seq<char>,
    p: Pos,
    width: int,
    typed: Seq<char>,
    q: Pos,
)
    requires
        p.within(text_lines(text)),
        width >= 1,
        (Pos { line: p.line, col: p.col + width }).within(text_lines(text)),
        q.within(text_lines(with_inserted(text, char_index(text, p.line, p.col), typed))),
        char_index(with_inserted(text, char_index(text, p.line, p.col), typed), q.line, q.col)
            == char_index(text, p.line, p.col) + typed.len(),
        q.col + width <= usize::MAX,
    ensures
        (Pos { line: q.line, col: q.col + width }).within(
            text_lines(with_inserted(text, char_index(text, p.line, p.col), typed)),
        ),
{
    let at = char_index(text, p.line, p.col);
    let all = with_inserted(text, at, typed);
    let x = Pos { line: p.line, col: p.col + width };
    let line = p.line;
    let start = line_start(text, line - 1);
    let end = line_start(text, line);
    let content = content_end(text, start, end);
    let here = text.take(at) + typed;
    let reach = content - at;
    let stretch = text.subrange(at, content);
    lemma_index_within(text, p);
    lemma_index_within(text, x);
    lemma_index_within(all, q);
    lemma_slot_line(text, p);
    lemma_slot_line(all, q);
    lemma_line_starts(text, line - 1);
    lemma_content_end(text, start, end);
    assert(at < content);
    lemma_content_ends_plain(text, start, end);
    if line <= line_breaks(text) {
        lemma_line_begins_behind_feed(text, line);
        lemma_content_end(text, start, end - 1);
    }
    assert(all.take(here.len() as int) =~= here);
    assert(all.take(here.len() + reach) =~= here + stretch);
    assert(line_breaks(stretch) == 0) by {
        assert(text.take(content) =~= text.take(at) + stretch);
        lemma_line_breaks_of_both(text.take(at), stretch);
        lemma_line_breaks_before(text, line - 1, content);
    }
    lemma_line_breaks_of_both(here, stretch);
    lemma_place_on_line(all, here.len() + reach);
    lemma_line_starts(all, q.line - 1);
    assert(all[here.len() + reach - 1] == text[content - 1]) by {
        assert(all.take(here.len() + reach)[here.len() + reach - 1] == stretch[reach - 1]);
    }
    lemma_content_reaches(
        all,
        line_start(all, q.line - 1),
        line_start(all, q.line),
        here.len() + reach,
    );
}

/// Typing at the head of a single selection: in a coherent buffer whose one
/// selection lies on one line with its cursor at its head, typing a text
/// that does not end in a carriage return leaves a coherent buffer, the
/// selection behind the text as a whole.
pub proof fn law_typing_at_one_head(c: Contents, typed: Seq<char>)
    requires
        c.well_formed(),
        c.coherent(),
        c.takes(typed),
        c.store.selections.len() == 1,
        c.store.selections[0].cursor() == c.store.selections[0].from,
        on_a_line(c.store.selections[0]),
        typed.len() == 0 || typed.last() != '\r',
    ensures
        c.inserted(typed).store.well_formed(),
        c.inserted(typed).coherent(),
        c.inserted(typed).store.selections.len() == 1,
{
    let s = c.store.selections[0];
    let text = c.text;
    let flags = line_feed_flags(typed);
    let count = runs(flags).len() as int;
    assert(s.well_formed() && s.within(c.lines()));
    assert(c.store.selections =~= seq![s]);
    assert(c.store == alone(s));
    if s.is_point() {
        law_typing_at_bare_cursors(c, typed);
    } else {
        let t = Contents { text: text, store: alone(Sel::point(s.from)) };
        let at = char_index(text, s.from.line, s.from.col);
        let width = s.to.col - s.from.col;
        let after = c.inserted(typed);
        assert(t.store.selections[0] == Sel::point(s.from));
        assert(t.store.selections[0].from == t.store.main);
        assert(t.well_formed());
        assert(t.coherent()) by {
            assert forall|i: int| 0 <= i < t.store.selections.len() implies (
            #[trigger] t.store.selections[i]).within(t.lines()) by {
                assert(t.store.selections[i] == Sel::point(s.from));
            }
        }
        assert(t.cursor_indices() =~= c.cursor_indices());
        assert(c.cursor_indices() =~= seq![at]);
        lemma_inserted_once(text, at, typed);
        lemma_runs_total(flags);
        lemma_one_head_typed(s, flags, count);
        lemma_typed_points(t.store, typed, count);
        assert(runs(flags).take(count) =~= runs(flags));
        assert(typed_so_far(typed, count) =~= typed);
        let carried = after.store.selections[0];
        let q = t.store.typed(flags, count).selections[0].to;
        assert(carried.from == q);
        assert(carried.to == Pos { line: q.line, col: q.col + width });
        assert(q == cursors_behind(t.store, typed)[0].from);
        if count >= 1 {
            assert(carried.fits());
        } else {
            assert(typed.len() == 0);
            lemma_rank_positive(t.store.head_lines(), 0);
            assert(ranks(runs(t.store.head_lines()))[0] * typed.len() == 0) by (nonlinear_arith)
                requires
                    typed.len() == 0,
            ;
        }
        lemma_cursor_within(t, typed, 0);
        lemma_cursor_index(t, typed, 0);
        assert((0 + 1) * typed.len() == typed.len());
        lemma_slot_behind_what_is_typed(text, s.from, width, typed, q);
        assert forall|i: int| 0 <= i < after.store.selections.len() implies (
        #[trigger] after.store.selections[i]).within(after.lines()) by {
            assert(after.store.selections[i] == carried);
        }
        assert(after.store.selections[0].from == after.store.main);
    }
}

/// Whether `typed` does not end in a carriage return.
pub open spec fn ends_well(typed: Seq<char>) -> bool {
    typed.len() == 0 || typed.last() != '\r'
}

/// What is known to leave the selections of a coherent buffer on the slots
/// of the text where `typed` is typed, each line for itself:
/// - every selection is a bare cursor, and the text does not end in a
///   carriage return;
/// - the text is plain, and the tail of every selection fits into its line
///   afterwards, see [`tail_fits`];
/// - the text is plain, and every selection lies on one line, or has its
///   cursor at its tail and is the first to begin on its line;
/// - there is one selection, with its cursor at its tail, the text does not
///   end in a carriage return, and it leaves the tail a slot where the
///   selection lies on one line, see [`keeps_slot`];
/// - there is one selection, on one line with its cursor at its head, and
///   the text does not end in a carriage return.
pub open spec fn types_within(c: Contents, typed: Seq<char>) -> bool {
    ||| c.store.all_points() && ends_well(typed)
    ||| (plain(typed) && forall|i: int|
        0 <= i < c.store.selections.len() ==> tail_fits(c, typed.len() as int, i))
    ||| (plain(typed) && forall|i: int|
        0 <= i < c.store.selections.len() ==> keeps_to_its_line(c.store, i))
    ||| (c.store.selections.len() == 1 && c.store.selections[0].cursor()
        == c.store.selections[0].to && ends_well(typed) && (on_a_line(c.store.selections[0])
        ==> keeps_slot(c.text, c.store.selections[0].to, typed)))
    ||| (c.store.selections.len() == 1 && c.store.selections[0].cursor()
        == c.store.selections[0].from && on_a_line(c.store.selections[0]) && ends_well(typed))
}

/// Typing within the text: where a text is typed in a coherent buffer of
/// which one of the things holds that [`types_within`] names, the buffer is
/// coherent again.
pub proof fn law_typing_within(c: Contents, typed: Seq<char>)
    requires
        c.well_formed(),
        c.coherent(),
        c.takes(typed),
        types_within(c, typed),
    ensures
        c.inserted(typed).store.well_formed(),
        c.inserted(typed).coherent(),
{
    if c.store.all_points() && ends_well(typed) {
        law_typing_at_bare_cursors(c, typed);
    } else if plain(typed) && forall|i: int|
        0 <= i < c.store.selections.len() ==> tail_fits(c, typed.len() as int, i) {
        law_typing_plain_text(c, typed);
    } else if plain(typed) && forall|i: int|
        0 <= i < c.store.selections.len() ==> keeps_to_its_line(c.store, i) {
        law_typing_on_a_line(c, typed);
    } else if c.store.selections.len() == 1 && c.store.selections[0].cursor()
        == c.store.selections[0].to {
        law_typing_at_one_tail(c, typed);
    } else {
        law_typing_at_one_head(c, typed);
    }
}

} // verus!
