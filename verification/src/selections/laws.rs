//! What holds of every movement of a single selection.
use crate::Lines;
use crate::util::at_least_one;
use super::{Pos, remaining_on_line, Sel, settle_column, walk_left, walk_right};
use vstd::prelude::*;

verus! {

/// A walk to the left ends on a one-based position.
pub proof fn lemma_walk_left_valid(m: Lines, p: Pos, n: int)
    requires
        p.valid(),
    ensures
        walk_left(m, p, n).valid(),
    decreases n,
{
    if n >= p.col && m.lengths.contains_key(p.line - 1) {
        lemma_walk_left_valid(
            m,
            Pos { line: at_least_one(p.line - 1), col: at_least_one(m.lengths[p.line - 1]) },
            n - p.col,
        );
    }
}

/// A walk to the right ends on a one-based position.
pub proof fn lemma_walk_right_valid(m: Lines, p: Pos, fallback: Pos, n: int)
    requires
        p.valid(),
        fallback.valid(),
        n >= 0,
    ensures
        walk_right(m, p, fallback, n).valid(),
    decreases n,
{
    if m.lengths.contains_key(p.line) {
        let remaining = remaining_on_line(m.lengths[p.line], p.col);
        if n > remaining {
            lemma_walk_right_valid(
                m,
                Pos { line: p.line + 1, col: 1 },
                Pos { line: p.line, col: p.col + remaining },
                n - remaining - 1,
            );
        }
    }
}

/// On well-formed lines a walk to the left that starts on a slot ends on a
/// slot.
pub proof fn lemma_walk_left_within(m: Lines, p: Pos, n: int)
    requires
        m.well_formed(),
        p.within(m),
        n >= 0,
    ensures
        walk_left(m, p, n).within(m),
    decreases n,
{
    if n >= p.col {
        if m.lengths.contains_key(p.line - 1) {
            lemma_walk_left_within(
                m,
                Pos { line: at_least_one(p.line - 1), col: at_least_one(m.lengths[p.line - 1]) },
                n - p.col,
            );
        } else {
            assert(m.lengths.contains_key(1));
        }
    }
}

/// On well-formed lines a walk to the right that starts on a slot ends on a
/// slot.
pub proof fn lemma_walk_right_within(m: Lines, p: Pos, fallback: Pos, n: int)
    requires
        m.well_formed(),
        p.within(m) || (p.col == 1 && !m.lengths.contains_key(p.line)),
        fallback.within(m),
        n >= 0,
    ensures
        walk_right(m, p, fallback, n).within(m),
    decreases n,
{
    if m.lengths.contains_key(p.line) {
        let remaining = remaining_on_line(m.lengths[p.line], p.col);
        if n > remaining {
            let next = Pos { line: p.line + 1, col: 1 };
            if m.lengths.contains_key(next.line) {
                assert(next.within(m));
            }
            lemma_walk_right_within(
                m,
                next,
                Pos { line: p.line, col: p.col + remaining },
                n - remaining - 1,
            );
        }
    }
}

/// Putting the ends in order keeps the cursor where it is and leaves a
/// well-formed selection.
pub proof fn lemma_reseated(s: Sel)
    requires
        s.from.valid(),
        s.to.valid(),
        s.sticky_column matches Some(c) ==> c >= 1,
    ensures
        s.reseated().well_formed(),
        s.reseated().cursor() == s.cursor(),
        s.reseated().anchor() == s.anchor(),
        s.reseated().sticky_column == s.sticky_column,
{
}

/// However a movement ends, it leaves a well-formed selection with its
/// cursor where the movement put it; a movement that does not extend leaves
/// a bare cursor.
pub proof fn lemma_settled(s: Sel, extend: bool)
    requires
        s.from.valid(),
        s.to.valid(),
        s.sticky_column matches Some(c) ==> c >= 1,
    ensures
        s.settled(extend).well_formed(),
        s.settled(extend).cursor() == s.cursor(),
        s.settled(extend).sticky_column == s.sticky_column,
        extend ==> s.settled(extend).anchor() == s.anchor(),
        !extend ==> s.settled(extend).is_point(),
{
    lemma_reseated(s);
}

/// A movement to the left keeps a selection well-formed, forgets the sticky
/// column, and leaves a bare cursor unless it extends.
pub proof fn lemma_moved_left(s: Sel, n: int, extend: bool, m: Lines)
    requires
        s.well_formed(),
    ensures
        s.moved_left(n, extend, m).well_formed(),
        s.moved_left(n, extend, m).sticky_column is None,
        s.moved_left(n, extend, m).cursor() == walk_left(m, s.cursor(), n),
        extend ==> s.moved_left(n, extend, m).anchor() == s.anchor(),
        !extend ==> s.moved_left(n, extend, m).is_point(),
{
    lemma_walk_left_valid(m, s.cursor(), n);
    let moved = Sel { sticky_column: None, ..s.with_cursor(walk_left(m, s.cursor(), n)) };
    lemma_settled(moved, extend);
}

/// A movement to the right keeps a selection well-formed, forgets the
/// sticky column, and leaves a bare cursor unless it extends.
pub proof fn lemma_moved_right(s: Sel, n: int, extend: bool, m: Lines)
    requires
        s.well_formed(),
        n >= 0,
    ensures
        s.moved_right(n, extend, m).well_formed(),
        s.moved_right(n, extend, m).sticky_column is None,
        s.moved_right(n, extend, m).cursor() == walk_right(m, s.cursor(), s.cursor(), n),
        extend ==> s.moved_right(n, extend, m).anchor() == s.anchor(),
        !extend ==> s.moved_right(n, extend, m).is_point(),
{
    lemma_walk_right_valid(m, s.cursor(), s.cursor(), n);
    let moved = Sel {
        sticky_column: None,
        ..s.with_cursor(walk_right(m, s.cursor(), s.cursor(), n))
    };
    lemma_settled(moved, extend);
}

/// A vertical movement onto `line` keeps a selection well-formed, puts the
/// cursor on that line in the column that [`settle_column`] gives, and
/// leaves a bare cursor unless it extends.
pub proof fn lemma_moved_to_line(s: Sel, line: int, extend: bool, m: Lines)
    requires
        s.well_formed(),
        line >= 1,
    ensures
        s.moved_to_line(line, extend, m).well_formed(),
        s.moved_to_line(line, extend, m).cursor() == (Pos {
            line: line,
            col: settle_column(m, line, s.cursor().col, s.sticky_column).0,
        }),
        s.moved_to_line(line, extend, m).sticky_column == settle_column(
            m,
            line,
            s.cursor().col,
            s.sticky_column,
        ).1,
        extend ==> s.moved_to_line(line, extend, m).anchor() == s.anchor(),
        !extend ==> s.moved_to_line(line, extend, m).is_point(),
{
    let settled = settle_column(m, line, s.cursor().col, s.sticky_column);
    let moved = Sel {
        sticky_column: settled.1,
        ..s.with_cursor(Pos { line: line, col: settled.0 })
    };
    lemma_settled(moved, extend);
}

/// A movement up keeps a selection well-formed and leaves a bare cursor
/// unless it extends.
pub proof fn lemma_moved_up(s: Sel, n: int, extend: bool, m: Lines)
    requires
        s.well_formed(),
    ensures
        s.moved_up(n, extend, m).well_formed(),
        !extend ==> s.moved_up(n, extend, m).is_point(),
{
    lemma_moved_to_line(s, at_least_one(s.cursor().line - n), extend, m);
}

/// A movement down keeps a selection well-formed and leaves a bare cursor
/// unless it extends.
pub proof fn lemma_moved_down(s: Sel, n: int, extend: bool, m: Lines)
    requires
        s.well_formed(),
        n >= 0,
    ensures
        s.moved_down(n, extend, m).well_formed(),
        !extend ==> s.moved_down(n, extend, m).is_point(),
{
    let line = if s.cursor().line + n > m.count {
        at_least_one(m.count)
    } else {
        s.cursor().line + n
    };
    lemma_moved_to_line(s, line, extend, m);
}

/// A selection whose ends are slots of well-formed lines still has both
/// ends on slots after any movement.
pub proof fn lemma_movements_stay_within(s: Sel, n: int, extend: bool, m: Lines)
    requires
        s.well_formed(),
        s.within(m),
        m.well_formed(),
        n >= 0,
    ensures
        s.moved_left(n, extend, m).within(m),
        s.moved_right(n, extend, m).within(m),
        s.moved_up(n, extend, m).within(m),
        s.moved_down(n, extend, m).within(m),
{
    lemma_moved_left(s, n, extend, m);
    lemma_walk_left_within(m, s.cursor(), n);
    lemma_within_by_ends(s, s.moved_left(n, extend, m), extend, m);
    lemma_moved_right(s, n, extend, m);
    lemma_walk_right_within(m, s.cursor(), s.cursor(), n);
    lemma_within_by_ends(s, s.moved_right(n, extend, m), extend, m);
    let up = at_least_one(s.cursor().line - n);
    lemma_moved_to_line(s, up, extend, m);
    lemma_within_by_ends(s, s.moved_up(n, extend, m), extend, m);
    let down = if s.cursor().line + n > m.count {
        at_least_one(m.count)
    } else {
        s.cursor().line + n
    };
    lemma_moved_to_line(s, down, extend, m);
    lemma_within_by_ends(s, s.moved_down(n, extend, m), extend, m);
}

/// A well-formed selection lies on slots as soon as its cursor does and its
/// anchor is that of a selection that lies on slots, or it is a bare
/// cursor.
proof fn lemma_within_by_ends(s: Sel, r: Sel, extend: bool, m: Lines)
    requires
        s.within(m),
        r.cursor().within(m),
        extend ==> r.anchor() == s.anchor(),
        !extend ==> r.is_point(),
    ensures
        r.within(m),
{
}

/// There is one first line at most under a selection on which it fits; the
/// copy placed there is the one that [`Sel::under`] names, and it is
/// well-formed if the selection is.
pub proof fn lemma_first_under(s: Sel, m: Lines, i: int)
    requires
        s.first_under(m, i),
    ensures
        s.under(m) == Some(s.placed_under(i)),
        s.well_formed() ==> s.placed_under(i).well_formed(),
{
    let j = choose|j: int| s.first_under(m, j);
    if j < i {
        assert(m.lengths.contains_key(j) && !s.fits_under(m, j));
    }
    if i < j {
        assert(m.lengths.contains_key(i) && !s.fits_under(m, i));
    }
}

/// Typed text keeps a selection well-formed.
pub proof fn lemma_pushed(s: Sel, offset: int, n: int)
    requires
        s.well_formed(),
        0 <= n <= offset,
    ensures
        s.pushed_right(offset).well_formed(),
        s.pushed_down(offset, n).reseated().well_formed(),
        n >= 1 ==> s.pushed_down(offset, n).well_formed(),
{
    lemma_reseated(s.pushed_down(offset, n));
}

/// Swapping the cursor twice gives the selection back.
pub proof fn law_swap_cursor_twice(s: Sel)
    ensures
        s.swapped().swapped() == s,
{
}

/// A movement to the right that stays on its line, followed by the same
/// number of steps to the left, gives back the ends and the direction of a
/// selection that is extended both times, and of a bare cursor in any case.
pub proof fn law_right_then_left(s: Sel, n: int, extend: bool, m: Lines)
    requires
        s.well_formed(),
        n >= 0,
        extend || s.is_point(),
        m.lengths.contains_key(s.cursor().line),
        s.cursor().col + n <= m.lengths[s.cursor().line],
    ensures
        s.moved_right(n, extend, m).moved_left(n, extend, m).from == s.from,
        s.moved_right(n, extend, m).moved_left(n, extend, m).to == s.to,
        s.moved_right(n, extend, m).moved_left(n, extend, m).cursor_direction
            == s.cursor_direction,
{
    let there = s.moved_right(n, extend, m);
    lemma_moved_right(s, n, extend, m);
    lemma_moved_left(there, n, extend, m);
    assert(there.cursor() == Pos { line: s.cursor().line, col: s.cursor().col + n });
    assert(walk_left(m, there.cursor(), n) == s.cursor());
}

/// A movement to the left that stays on its line, followed by the same
/// number of steps to the right, gives back the ends and the direction of a
/// selection that is extended both times, and of a bare cursor in any case.
pub proof fn law_left_then_right(s: Sel, n: int, extend: bool, m: Lines)
    requires
        s.well_formed(),
        0 <= n < s.cursor().col,
        extend || s.is_point(),
        m.lengths.contains_key(s.cursor().line),
        s.cursor().col <= m.lengths[s.cursor().line],
    ensures
        s.moved_left(n, extend, m).moved_right(n, extend, m).from == s.from,
        s.moved_left(n, extend, m).moved_right(n, extend, m).to == s.to,
        s.moved_left(n, extend, m).moved_right(n, extend, m).cursor_direction
            == s.cursor_direction,
{
    let there = s.moved_left(n, extend, m);
    lemma_moved_left(s, n, extend, m);
    lemma_moved_right(there, n, extend, m);
    assert(there.cursor() == Pos { line: s.cursor().line, col: s.cursor().col - n });
    assert(walk_right(m, there.cursor(), there.cursor(), n) == s.cursor());
}

/// The sticky column: a cursor without one that a vertical movement puts
/// on a line too short for its column takes the last slot of that line and
/// remembers the column; the next vertical movement onto a line that is long
/// enough gives the column back and forgets it.
pub proof fn law_sticky_column_restored(
    s: Sel,
    short: int,
    long: int,
    extend_first: bool,
    extend_second: bool,
    m: Lines,
)
    requires
        s.well_formed(),
        s.sticky_column is None,
        short >= 1,
        long >= 1,
        m.lengths.contains_key(short),
        m.lengths.contains_key(long),
        m.lengths[short] < s.cursor().col <= m.lengths[long],
    ensures
        s.moved_to_line(short, extend_first, m).cursor() == (Pos {
            line: short,
            col: at_least_one(m.lengths[short]),
        }),
        s.moved_to_line(short, extend_first, m).sticky_column == Some(s.cursor().col),
        s.moved_to_line(short, extend_first, m).moved_to_line(long, extend_second, m).cursor()
            == (Pos { line: long, col: s.cursor().col }),
        s.moved_to_line(short, extend_first, m).moved_to_line(
            long,
            extend_second,
            m,
        ).sticky_column is None,
{
    lemma_moved_to_line(s, short, extend_first, m);
    lemma_moved_to_line(s.moved_to_line(short, extend_first, m), long, extend_second, m);
}

/// A horizontal movement breaks the sticky column: whatever the selection
/// remembered, after a movement to the left or to the right a vertical
/// movement onto a line that is long enough for the column where the cursor
/// now stands keeps that column.
pub proof fn law_horizontal_movement_forgets_sticky(
    s: Sel,
    n: int,
    extend: bool,
    line: int,
    extend_vertical: bool,
    m: Lines,
)
    requires
        s.well_formed(),
        n >= 0,
        line >= 1,
        m.lengths.contains_key(line),
    ensures
        s.moved_left(n, extend, m).sticky_column is None,
        s.moved_right(n, extend, m).sticky_column is None,
        s.moved_left(n, extend, m).cursor().col <= m.lengths[line] ==> s.moved_left(
            n,
            extend,
            m,
        ).moved_to_line(line, extend_vertical, m).cursor() == (Pos {
            line: line,
            col: s.moved_left(n, extend, m).cursor().col,
        }),
        s.moved_right(n, extend, m).cursor().col <= m.lengths[line] ==> s.moved_right(
            n,
            extend,
            m,
        ).moved_to_line(line, extend_vertical, m).cursor() == (Pos {
            line: line,
            col: s.moved_right(n, extend, m).cursor().col,
        }),
{
    lemma_moved_left(s, n, extend, m);
    lemma_moved_right(s, n, extend, m);
    lemma_moved_to_line(s.moved_left(n, extend, m), line, extend_vertical, m);
    lemma_moved_to_line(s.moved_right(n, extend, m), line, extend_vertical, m);
}

/// The number of slots on the lines before line `line`.
pub open spec fn slots_before(m: Lines, line: int) -> int
    decreases line,
{
    if line <= 1 {
        0
    } else {
        slots_before(m, line - 1) + m.lengths[line - 1]
    }
}

/// The place of a slot among the slots of all lines in reading order,
/// counted from 0.
pub open spec fn slot_number(m: Lines, p: Pos) -> int {
    slots_before(m, p.line) + p.col - 1
}

/// The number of slots of all lines.
pub open spec fn slot_count(m: Lines) -> int {
    slots_before(m, m.count + 1)
}

/// Later lines have more slots before them.
pub proof fn lemma_slots_before(m: Lines, first: int, second: int)
    requires
        m.well_formed(),
        1 <= first <= second <= m.count + 1,
    ensures
        0 <= slots_before(m, first),
        slots_before(m, first) + (second - first) <= slots_before(m, second),
    decreases second,
{
    if first < second {
        lemma_slots_before(m, first, second - 1);
        assert(m.lengths.contains_key(second - 1));
    } else if first > 1 {
        lemma_slots_before(m, first - 1, first - 1);
        assert(m.lengths.contains_key(first - 1));
    }
}

/// Every slot has a number below the number of slots, and slots with the
/// same number are the same slot.
pub proof fn lemma_slot_numbers(m: Lines, p: Pos, q: Pos)
    requires
        m.well_formed(),
        p.within(m),
        q.within(m),
    ensures
        0 <= slot_number(m, p) < slot_count(m),
        slot_number(m, p) == slot_number(m, q) ==> p == q,
        p.lt(q) ==> slot_number(m, p) < slot_number(m, q),
{
    lemma_slots_before(m, p.line, p.line + 1);
    lemma_slots_before(m, p.line + 1, m.count + 1);
    lemma_slots_before(m, q.line, q.line + 1);
    if p.line < q.line {
        lemma_slots_before(m, p.line + 1, q.line);
    }
    if q.line < p.line {
        lemma_slots_before(m, q.line + 1, p.line);
    }
}

/// A walk to the right over `n` slots ends on the slot `n` places on, and
/// on the last slot where there are not as many.
pub proof fn lemma_walk_right_number(m: Lines, p: Pos, fallback: Pos, n: int)
    requires
        m.well_formed(),
        n >= 0,
        fallback.within(m),
        p.within(m) || (p == Pos { line: m.count + 1, col: 1 } && slot_number(m, fallback)
            == slot_count(m) - 1),
    ensures
        walk_right(m, p, fallback, n).within(m),
        slot_number(m, walk_right(m, p, fallback, n)) == if slot_number(m, p) + n < slot_count(m) {
            slot_number(m, p) + n
        } else {
            slot_count(m) - 1
        },
    decreases n,
{
    lemma_slot_numbers(m, fallback, fallback);
    if m.lengths.contains_key(p.line) {
        lemma_slot_numbers(m, p, p);
        lemma_slots_before(m, p.line, p.line + 1);
        lemma_slots_before(m, p.line + 1, m.count + 1);
        let remaining = remaining_on_line(m.lengths[p.line], p.col);
        if n > remaining {
            let next = Pos { line: p.line + 1, col: 1 };
            let end = Pos { line: p.line, col: p.col + remaining };
            if m.lengths.contains_key(next.line) {
                assert(next.within(m));
            }
            lemma_walk_right_number(m, next, end, n - remaining - 1);
        }
    }
}

/// A walk to the left over `n` slots ends on the slot `n` places back, and
/// on the first slot where there are not as many.
pub proof fn lemma_walk_left_number(m: Lines, p: Pos, n: int)
    requires
        m.well_formed(),
        n >= 0,
        p.within(m),
    ensures
        walk_left(m, p, n).within(m),
        slot_number(m, walk_left(m, p, n)) == if slot_number(m, p) >= n {
            slot_number(m, p) - n
        } else {
            0
        },
    decreases n,
{
    lemma_slot_numbers(m, p, p);
    lemma_slots_before(m, 1, p.line);
    if n >= p.col {
        if m.lengths.contains_key(p.line - 1) {
            let above = Pos {
                line: at_least_one(p.line - 1),
                col: at_least_one(m.lengths[p.line - 1]),
            };
            assert(slots_before(m, p.line) == slots_before(m, p.line - 1) + m.lengths[p.line
                - 1]);
            assert(above.within(m));
            assert(slot_number(m, above) == slot_number(m, p) - p.col);
            lemma_slot_numbers(m, above, above);
            lemma_walk_left_number(m, above, n - p.col);
            assert(walk_left(m, p, n) == walk_left(m, above, n - p.col));
        } else {
            assert(m.lengths.contains_key(1));
            assert(p.line == 1);
            assert(walk_left(m, p, n) == Pos { line: 1, col: 1 });
            assert(slot_number(m, Pos { line: 1, col: 1 }) == 0);
        }
    } else {
        assert(walk_left(m, p, n) == Pos { line: p.line, col: p.col - n });
    }
}

/// Horizontal movement over the slots of a text: on well-formed lines a
/// cursor that moves `n` slots to the right comes to stand `n` slots on in
/// reading order, or on the last slot of all; one that moves to the left
/// comes to stand `n` slots back, or on the first slot of all.
pub proof fn law_horizontal_movement_counts_slots(s: Sel, n: int, extend: bool, m: Lines)
    requires
        s.well_formed(),
        s.within(m),
        m.well_formed(),
        n >= 0,
    ensures
        slot_number(m, s.moved_right(n, extend, m).cursor()) == if slot_number(m, s.cursor()) + n
            < slot_count(m) {
            slot_number(m, s.cursor()) + n
        } else {
            slot_count(m) - 1
        },
        slot_number(m, s.moved_left(n, extend, m).cursor()) == if slot_number(m, s.cursor()) >= n {
            slot_number(m, s.cursor()) - n
        } else {
            0
        },
{
    lemma_moved_right(s, n, extend, m);
    lemma_moved_left(s, n, extend, m);
    lemma_walk_right_number(m, s.cursor(), s.cursor(), n);
    lemma_walk_left_number(m, s.cursor(), n);
}

/// A movement to the right followed by the same number of steps to the
/// left, over whatever line ends, on well-formed lines, gives back the ends
/// and the direction of a selection that is extended both times, and of a
/// bare cursor in any case, unless the way to the right ends at the last slot
/// of all before its number of steps is done.
pub proof fn law_right_then_left_over_lines(s: Sel, n: int, extend: bool, m: Lines)
    requires
        s.well_formed(),
        s.within(m),
        m.well_formed(),
        n >= 0,
        extend || s.is_point(),
        slot_number(m, s.cursor()) + n < slot_count(m),
    ensures
        s.moved_right(n, extend, m).moved_left(n, extend, m).from == s.from,
        s.moved_right(n, extend, m).moved_left(n, extend, m).to == s.to,
        s.moved_right(n, extend, m).moved_left(n, extend, m).cursor_direction
            == s.cursor_direction,
{
    let there = s.moved_right(n, extend, m);
    lemma_moved_right(s, n, extend, m);
    lemma_moved_left(there, n, extend, m);
    assert(s.cursor().within(m));
    lemma_slot_numbers(m, s.cursor(), s.cursor());
    lemma_walk_right_number(m, s.cursor(), s.cursor(), n);
    assert(there.cursor() == walk_right(m, s.cursor(), s.cursor(), n));
    lemma_walk_left_number(m, there.cursor(), n);
    lemma_slot_numbers(m, walk_left(m, there.cursor(), n), s.cursor());
    assert(walk_left(m, there.cursor(), n) == s.cursor());
}

/// A movement to the left followed by the same number of steps to the
/// right, over whatever line ends, on well-formed lines, gives back the ends
/// and the direction of a selection that is extended both times, and of a
/// bare cursor in any case, unless the way to the left ends at the first
/// slot of all before its number of steps is done.
pub proof fn law_left_then_right_over_lines(s: Sel, n: int, extend: bool, m: Lines)
    requires
        s.well_formed(),
        s.within(m),
        m.well_formed(),
        n >= 0,
        extend || s.is_point(),
        slot_number(m, s.cursor()) >= n,
    ensures
        s.moved_left(n, extend, m).moved_right(n, extend, m).from == s.from,
        s.moved_left(n, extend, m).moved_right(n, extend, m).to == s.to,
        s.moved_left(n, extend, m).moved_right(n, extend, m).cursor_direction
            == s.cursor_direction,
{
    let there = s.moved_left(n, extend, m);
    lemma_moved_left(s, n, extend, m);
    lemma_moved_right(there, n, extend, m);
    assert(s.cursor().within(m));
    lemma_walk_left_number(m, s.cursor(), n);
    assert(there.cursor() == walk_left(m, s.cursor(), n));
    lemma_walk_right_number(m, there.cursor(), there.cursor(), n);
    lemma_slot_numbers(m, s.cursor(), s.cursor());
    lemma_slot_numbers(m, walk_right(m, there.cursor(), there.cursor(), n), s.cursor());
    assert(walk_right(m, there.cursor(), there.cursor(), n) == s.cursor());
}

} // verus!
