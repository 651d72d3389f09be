//! Positions and selections as mathematical values, and what movements make
//! of them.
use crate::Lines;
use crate::util::at_least_one;
use super::{CursorDirection, SelectionUnbound};
use vstd::prelude::*;

verus! {

/// A position as a pair of integers: the mathematical value of a
/// [`PositionUnbound`].
pub struct Pos {
    pub line: int,
    pub col: int,
}

impl Pos {
    /// Strict lexicographic order by `(line, col)`.
    pub open spec fn lt(self, other: Pos) -> bool {
        self.line < other.line || (self.line == other.line && self.col < other.col)
    }

    /// Lexicographic order by `(line, col)`.
    pub open spec fn le(self, other: Pos) -> bool {
        self.line < other.line || (self.line == other.line && self.col <= other.col)
    }

    /// Both coordinates are one-based.
    pub open spec fn valid(self) -> bool {
        self.line >= 1 && self.col >= 1
    }

    /// The position names a slot of `m`.
    pub open spec fn within(self, m: Lines) -> bool {
        &&& self.valid()
        &&& m.lengths.contains_key(self.line)
        &&& self.col <= m.lengths[self.line]
    }

    /// The next slot: the next column on the same line, or the first column
    /// of the next line; `None` after the last slot of the last line.
    pub open spec fn successor(self, m: Lines) -> Option<Pos> {
        if m.lengths.contains_key(self.line) && self.col < m.lengths[self.line] {
            Some(Pos { line: self.line, col: self.col + 1 })
        } else if self.line < m.count {
            Some(Pos { line: self.line + 1, col: 1 })
        } else {
            None
        }
    }

    /// The previous slot: the previous column on the same line, or the last
    /// slot of the previous line; `None` before the first slot.
    pub open spec fn predecessor(self, m: Lines) -> Option<Pos> {
        if self.col > 1 {
            Some(Pos { line: self.line, col: self.col - 1 })
        } else if self.line > 1 && m.lengths.contains_key(self.line - 1) {
            Some(Pos { line: self.line - 1, col: at_least_one(m.lengths[self.line - 1]) })
        } else {
            None
        }
    }

    /// The position is on or past the last slot of its line.
    pub open spec fn is_line_end(self, m: Lines) -> bool {
        m.lengths.contains_key(self.line) && self.col >= m.lengths[self.line]
    }
}

/// Where a cursor that starts at `p` stands after `n` steps to the left:
/// steps within the line first, then one step over each line break onto the
/// last slot of the line above, and the first slot of all where the lines
/// run out.
pub open spec fn walk_left(m: Lines, p: Pos, n: int) -> Pos
    decreases n,
    when p.col >= 1
{
    if n < p.col {
        Pos { line: p.line, col: p.col - n }
    } else if m.lengths.contains_key(p.line - 1) {
        walk_left(
            m,
            Pos { line: at_least_one(p.line - 1), col: at_least_one(m.lengths[p.line - 1]) },
            n - p.col,
        )
    } else {
        Pos { line: 1, col: 1 }
    }
}

/// The steps that a cursor at column `col` can take to the right on a line
/// of `length` slots.
pub open spec fn remaining_on_line(length: int, col: int) -> int {
    if length > col {
        length - col
    } else {
        0
    }
}

/// Where a cursor that starts at `p` stands after `n` steps to the right:
/// steps within the line first, then one step over each line break onto the
/// first slot of the line below. `fallback` is the last slot that the walk
/// has left behind: where the lines run out, the cursor stays there.
pub open spec fn walk_right(m: Lines, p: Pos, fallback: Pos, n: int) -> Pos
    decreases n,
{
    if m.lengths.contains_key(p.line) {
        let remaining = remaining_on_line(m.lengths[p.line], p.col);
        if n > remaining {
            walk_right(
                m,
                Pos { line: p.line + 1, col: 1 },
                Pos { line: p.line, col: p.col + remaining },
                n - remaining - 1,
            )
        } else {
            Pos { line: p.line, col: p.col + n }
        }
    } else {
        fallback
    }
}

/// The column and the sticky column of a cursor that a vertical movement
/// has put on `line`. The column it wants is its sticky column, or else the
/// one it comes from. Where the line is long enough the cursor takes that
/// column and forgets the sticky one; where it is not, the cursor takes the
/// last slot of the line and remembers the column it wanted.
pub open spec fn settle_column(m: Lines, line: int, col: int, sticky: Option<int>) -> (
    int,
    Option<int>,
) {
    if m.lengths.contains_key(line) {
        let wanted = match sticky {
            Some(c) => c,
            None => col,
        };
        if wanted <= m.lengths[line] {
            (wanted, None)
        } else {
            (at_least_one(m.lengths[line]), Some(wanted))
        }
    } else {
        (col, sticky)
    }
}

/// A selection as a mathematical value: the value of a
/// [`SelectionUnbound`].
pub struct Sel {
    pub from: Pos,
    pub to: Pos,
    pub cursor_direction: CursorDirection,
    pub sticky_column: Option<int>,
}

impl Sel {
    /// The bare cursor at `p`.
    pub open spec fn point(p: Pos) -> Sel {
        Sel { from: p, to: p, cursor_direction: CursorDirection::Forward, sticky_column: None }
    }

    /// The ends are in order and one-based, and a bare cursor points
    /// forward.
    pub open spec fn well_formed(self) -> bool {
        &&& self.from.valid()
        &&& self.to.valid()
        &&& self.from.le(self.to)
        &&& self.from == self.to ==> self.cursor_direction == CursorDirection::Forward
        &&& self.sticky_column matches Some(c) ==> c >= 1
    }

    /// Both ends name slots of `m`.
    pub open spec fn within(self, m: Lines) -> bool {
        self.from.within(m) && self.to.within(m)
    }

    /// The selection is a bare cursor.
    pub open spec fn is_point(self) -> bool {
        self.from == self.to
    }

    /// Two selections overlap when they share a slot.
    pub open spec fn overlaps(self, other: Sel) -> bool {
        self.from.le(other.to) && other.from.le(self.to)
    }

    /// The end that movements move.
    pub open spec fn cursor(self) -> Pos {
        match self.cursor_direction {
            CursorDirection::Forward => self.to,
            CursorDirection::Backward => self.from,
        }
    }

    /// The end that stays where it is while the selection is extended.
    pub open spec fn anchor(self) -> Pos {
        match self.cursor_direction {
            CursorDirection::Forward => self.from,
            CursorDirection::Backward => self.to,
        }
    }

    /// The selection with its cursor put at `p`, whatever that does to the
    /// order of the ends.
    pub open spec fn with_cursor(self, p: Pos) -> Sel {
        match self.cursor_direction {
            CursorDirection::Forward => Sel { to: p, ..self },
            CursorDirection::Backward => Sel { from: p, ..self },
        }
    }

    /// The selection with the cursor at its other end; a bare cursor stays
    /// as it is.
    pub open spec fn swapped(self) -> Sel {
        if self.from != self.to {
            Sel { cursor_direction: self.cursor_direction.inverted(), ..self }
        } else {
            self
        }
    }

    /// The selection with its ends in order again: where the cursor has
    /// crossed the anchor the ends change places and the direction turns,
    /// and where it has landed on the anchor a bare cursor is left.
    pub open spec fn reseated(self) -> Sel {
        if self.to.lt(self.from) {
            Sel {
                from: self.to,
                to: self.from,
                cursor_direction: self.cursor_direction.inverted(),
                ..self
            }
        } else if self.from == self.to {
            Sel { cursor_direction: CursorDirection::Forward, ..self }
        } else {
            self
        }
    }

    /// The bare cursor at the cursor of the selection.
    pub open spec fn collapsed(self) -> Sel {
        Sel {
            from: self.cursor(),
            to: self.cursor(),
            cursor_direction: CursorDirection::Forward,
            ..self
        }
    }

    /// The bare cursor at the head of the selection.
    pub open spec fn collapsed_to_head(self) -> Sel {
        Sel { to: self.from, cursor_direction: CursorDirection::Forward, ..self }
    }

    /// How every movement ends once the cursor has moved: the ends are put
    /// in order, and unless the selection is extended it is dropped to the
    /// cursor.
    pub open spec fn settled(self, extend: bool) -> Sel {
        if extend {
            self.reseated()
        } else {
            self.reseated().collapsed()
        }
    }

    /// The selection after its cursor has moved `n` slots to the left.
    pub open spec fn moved_left(self, n: int, extend: bool, m: Lines) -> Sel {
        Sel { sticky_column: None, ..self.with_cursor(walk_left(m, self.cursor(), n)) }.settled(
            extend,
        )
    }

    /// The selection after its cursor has moved `n` slots to the right.
    pub open spec fn moved_right(self, n: int, extend: bool, m: Lines) -> Sel {
        Sel {
            sticky_column: None,
            ..self.with_cursor(walk_right(m, self.cursor(), self.cursor(), n))
        }.settled(extend)
    }

    /// The selection after its cursor has been put on `line` by a vertical
    /// movement.
    pub open spec fn moved_to_line(self, line: int, extend: bool, m: Lines) -> Sel {
        let settled = settle_column(m, line, self.cursor().col, self.sticky_column);
        Sel {
            sticky_column: settled.1,
            ..self.with_cursor(Pos { line: line, col: settled.0 })
        }.settled(extend)
    }

    /// The selection after its cursor has moved `n` lines up, stopping at
    /// the first line.
    pub open spec fn moved_up(self, n: int, extend: bool, m: Lines) -> Sel {
        self.moved_to_line(at_least_one(self.cursor().line - n), extend, m)
    }

    /// The selection after its cursor has moved `n` lines down, stopping at
    /// the last line.
    pub open spec fn moved_down(self, n: int, extend: bool, m: Lines) -> Sel {
        let line = if self.cursor().line + n > m.count {
            at_least_one(m.count)
        } else {
            self.cursor().line + n
        };
        self.moved_to_line(line, extend, m)
    }

    /// The selection moved `n` columns to the left, as far as column 1. The
    /// tail moves with the head only where both are on one line.
    pub open spec fn nudged_left(self, n: int) -> Sel {
        Sel {
            from: Pos { col: at_least_one(self.from.col - n), ..self.from },
            to: if self.to.line == self.from.line {
                Pos { col: at_least_one(self.to.col - n), ..self.to }
            } else {
                self.to
            },
            ..self
        }
    }

    /// The selection moved `n` columns to the right. The tail moves with
    /// the head only where both are on one line.
    pub open spec fn nudged_right(self, n: int) -> Sel {
        Sel {
            from: Pos { col: self.from.col + n, ..self.from },
            to: if self.to.line == self.from.line {
                Pos { col: self.to.col + n, ..self.to }
            } else {
                self.to
            },
            ..self
        }
    }

    /// The selection moved `n` lines up, as far as line 1.
    pub open spec fn nudged_up(self, n: int) -> Sel {
        Sel {
            from: Pos { line: at_least_one(self.from.line - n), ..self.from },
            to: Pos { line: at_least_one(self.to.line - n), ..self.to },
            ..self
        }
    }

    /// Every coordinate is a number of the machine.
    pub open spec fn fits(self) -> bool {
        &&& self.from.line <= usize::MAX
        &&& self.from.col <= usize::MAX
        &&& self.to.line <= usize::MAX
        &&& self.to.col <= usize::MAX
    }

    /// The selection after text of `offset` characters without a line
    /// break has been typed at its cursor, and as much again at the cursors
    /// before it on its line that add up to `offset`: with the cursor at its
    /// tail it grows to hold the text, otherwise it moves as a whole.
    pub open spec fn pushed_right(self, offset: int) -> Sel {
        Sel {
            from: if self.cursor_direction == CursorDirection::Backward || self.is_point() {
                Pos { col: self.from.col + offset, ..self.from }
            } else {
                self.from
            },
            to: Pos { col: self.to.col + offset, ..self.to },
            ..self
        }
    }

    /// The selection after `n` line breaks have been typed at its cursor,
    /// and at the cursors before it, so that `offset` line breaks stand at or
    /// before its cursor: with the cursor at its tail the head stays behind
    /// the last `n` of them and the tail goes to the start of the new line;
    /// otherwise the selection goes to the start of the new line as a whole,
    /// as wide as it was.
    pub open spec fn pushed_down(self, offset: int, n: int) -> Sel {
        if self.is_point() {
            Sel {
                from: Pos { line: self.from.line + offset, col: 1 },
                to: Pos { line: self.to.line + offset, col: 1 },
                ..self
            }
        } else if self.cursor_direction == CursorDirection::Backward {
            Sel {
                from: Pos { line: self.from.line + offset, col: 1 },
                to: Pos {
                    line: self.to.line + offset,
                    col: at_least_one(self.to.col - self.from.col) + 1,
                },
                ..self
            }
        } else {
            Sel {
                from: Pos { line: self.from.line + offset - n, ..self.from },
                to: Pos { line: self.to.line + offset, col: 1 },
                ..self
            }
        }
    }

    /// The number of lines between the head and the tail.
    pub open spec fn height(self) -> int {
        self.to.line - self.from.line
    }

    /// A copy of the selection with its tail on line `i` would lie on lines
    /// that are long enough for both of its ends.
    pub open spec fn fits_under(self, m: Lines, i: int) -> bool {
        &&& m.lengths.contains_key(i)
        &&& m.lengths.contains_key(i - self.height())
        &&& m.lengths[i - self.height()] >= self.from.col
        &&& m.lengths[i] >= self.to.col
    }

    /// Line `i` is the first below the selection, and clear of it, on which
    /// a copy fits, and every line on the way to it has a length.
    pub open spec fn first_under(self, m: Lines, i: int) -> bool {
        &&& i > self.to.line + self.height()
        &&& self.fits_under(m, i)
        &&& forall|j: int|
            self.to.line + self.height() < j < i ==> #[trigger] m.lengths.contains_key(j)
                && !self.fits_under(m, j)
    }

    /// The copy of the selection with its tail on line `i`.
    pub open spec fn placed_under(self, i: int) -> Sel {
        Sel {
            from: Pos { line: i - self.height(), col: self.from.col },
            to: Pos { line: i, col: self.to.col },
            cursor_direction: self.cursor_direction,
            sticky_column: None,
        }
    }

    /// The copy that is placed under the selection: on the first line
    /// below it on which it fits, see [`Sel::first_under`], if there is one.
    pub open spec fn under(self, m: Lines) -> Option<Sel> {
        if exists|i: int| self.first_under(m, i) {
            Some(self.placed_under(choose|i: int| self.first_under(m, i)))
        } else {
            None
        }
    }

    /// The selection with its cursor set to `p`: as after a movement that
    /// ends there.
    pub open spec fn cursor_set(self, p: Pos, extend: bool) -> Sel {
        let moved = self.with_cursor(p);
        let kept = if extend {
            moved
        } else {
            moved.collapsed()
        };
        Sel { sticky_column: None, ..kept.reseated() }
    }
}

/// The coordinates of a selection that a program holds are numbers of the
/// machine.
pub proof fn lemma_fits(s: SelectionUnbound)
    ensures
        s@.fits(),
{
    crate::util::lemma_view_is_usize(s.from.line);
    crate::util::lemma_view_is_usize(s.from.col);
    crate::util::lemma_view_is_usize(s.to.line);
    crate::util::lemma_view_is_usize(s.to.col);
}

} // verus!
