//! Code specific to individual selection
use crate::{LineLength, lines_of};
use crate::util::{at_least_one, PositiveUsize};
use vstd::prelude::*;

pub mod bound;
pub mod intersect;
pub mod laws;
pub mod model;
pub mod storage;

pub use bound::{Position, Selection};
pub use model::{lemma_fits, Pos, remaining_on_line, Sel, settle_column, walk_left, walk_right};

verus! {

/// A position in a text buffer represented by 1-based numbered
/// line and column
#[derive(PartialOrd, PartialEq, Ord, Eq, Debug, Clone, Copy)]
pub struct PositionUnbound {
    /// One-indexed line
    pub line: PositiveUsize,
    /// One-indexed column
    pub col: PositiveUsize,
}

impl View for PositionUnbound {
    type V = Pos;

    open spec fn view(&self) -> Pos {
        Pos { line: self.line@, col: self.col@ }
    }
}

impl Default for PositionUnbound {
    fn default() -> (r: Self)
        ensures
            r@ == (Pos { line: 1, col: 1 }),
    {
        PositionUnbound { line: PositiveUsize::default(), col: PositiveUsize::default() }
    }
}

impl PositionUnbound {
    /// The position at `line` and `col`; a zero counts as one.
    pub fn new(line: usize, col: usize) -> (r: Self)
        ensures
            r@ == (Pos { line: at_least_one(line as int), col: at_least_one(col as int) }),
            r@.valid(),
    {
        PositionUnbound { line: PositiveUsize::from(line), col: PositiveUsize::from(col) }
    }

    /// Whether `self` comes strictly before `other`.
    pub fn lt(&self, other: &Self) -> (r: bool)
        ensures
            r == self@.lt(other@),
    {
        self.line.get() < other.line.get() || (self.line.get() == other.line.get()
            && self.col.get() < other.col.get())
    }

    /// Whether `self` comes before `other` or is equal to it.
    pub fn le(&self, other: &Self) -> (r: bool)
        ensures
            r == self@.le(other@),
    {
        self.line.get() < other.line.get() || (self.line.get() == other.line.get()
            && self.col.get() <= other.col.get())
    }

    /// Whether both positions name the same slot.
    pub fn same(&self, other: &Self) -> (r: bool)
        ensures
            r == (self@ == other@),
    {
        self.line.get() == other.line.get() && self.col.get() == other.col.get()
    }

    /// Returns a following position.
    /// Returns `None` if called for the last possible position in
    /// buffer.
    pub fn successor<L: LineLength>(&self, line_length: &L) -> (r: Option<Self>)
        ensures
            r matches Some(p) ==> self@.successor(lines_of(line_length)) == Some(p@),
            r is None ==> self@.successor(lines_of(line_length)) is None,
    {
        let line = self.line.get();
        let col = self.col.get();
        let within = match line_length.line_length(line) {
            Some(length) => col < length,
            None => false,
        };
        if within {
            Some(PositionUnbound { line: self.line, col: PositiveUsize::from(col + 1) })
        } else if line < line_length.lines_count() {
            Some(PositionUnbound { line: PositiveUsize::from(line + 1), col: PositiveUsize::from(1) })
        } else {
            None
        }
    }

    /// Returns a previous position.
    /// Returns `None` if called for the beginning of buffer.
    pub fn predecessor<L: LineLength>(&self, line_length: &L) -> (r: Option<Self>)
        ensures
            r matches Some(p) ==> self@.predecessor(lines_of(line_length)) == Some(p@),
            r is None ==> self@.predecessor(lines_of(line_length)) is None,
    {
        let line = self.line.get();
        let col = self.col.get();
        if col > 1 {
            Some(PositionUnbound { line: self.line, col: PositiveUsize::from(col - 1) })
        } else if line > 1 {
            match line_length.line_length(line - 1) {
                Some(length) => Some(
                    PositionUnbound {
                        line: PositiveUsize::from(line - 1),
                        col: PositiveUsize::from(length),
                    },
                ),
                None => None,
            }
        } else {
            None
        }
    }

    /// Check if is line end (technically points at newline)
    pub fn is_line_end<L: LineLength>(&self, line_length: &L) -> (r: bool)
        ensures
            r == self@.is_line_end(lines_of(line_length)),
    {
        match line_length.line_length(self.line.get()) {
            Some(length) => self.col.get() >= length,
            None => false,
        }
    }
}

/// For selection the head must be less than the tail, but
/// cursor position can be specified with CursorDirection.
#[derive(Debug, PartialEq, Eq, Clone, Copy)]
pub enum CursorDirection {
    /// Tail is also a cursor
    Forward,
    /// Head is also a cursor
    Backward,
}

impl CursorDirection {
    /// The opposite direction.
    pub open spec fn inverted(self) -> CursorDirection {
        match self {
            CursorDirection::Forward => CursorDirection::Backward,
            CursorDirection::Backward => CursorDirection::Forward,
        }
    }

    /// Get an opposite direction
    pub fn inverse(&mut self)
        ensures
            *final(self) == old(self).inverted(),
    {
        match self {
            CursorDirection::Forward => *self = CursorDirection::Backward,
            CursorDirection::Backward => *self = CursorDirection::Forward,
        }
    }

    /// Whether the tail is the cursor.
    pub fn is_forward(&self) -> (r: bool)
        ensures
            r == (*self == CursorDirection::Forward),
    {
        match self {
            CursorDirection::Forward => true,
            CursorDirection::Backward => false,
        }
    }
}

impl Default for CursorDirection {
    fn default() -> (r: Self)
        ensures
            r == CursorDirection::Forward,
    {
        CursorDirection::Forward
    }
}

/// Selection is as pair of positions, which are pairs of line/column values with
/// a cursor in the beginning or in the end.
#[derive(Debug, PartialEq, Eq, Clone, Copy)]
pub struct SelectionUnbound {
    /// One of the selection's ends nearest to the buffer's beginning
    pub from: PositionUnbound,
    /// One of the selection's ends nearest to the buffer's end
    pub to: PositionUnbound,
    /// One of the selection's ends is marked as a "cursor", if it's on the right,
    /// then selection's cursor direction is `Forward`.
    pub cursor_direction: CursorDirection,
    /// If after up/down movement the selection happened to get onto a line which is
    /// shorter than the previous one, then it will be placed in the line's and
    /// remembering its previous column as a "sticky column". If a subsequent
    /// up/down movement leads to a line longer than this value the sticky column
    /// will restore the column that the selection came from. Left/right movements will
    /// reset `sticky_column`.
    pub sticky_column: Option<PositiveUsize>,
}

impl View for SelectionUnbound {
    type V = Sel;

    open spec fn view(&self) -> Sel {
        Sel {
            from: self.from@,
            to: self.to@,
            cursor_direction: self.cursor_direction,
            sticky_column: match self.sticky_column {
                Some(c) => Some(c@),
                None => None,
            },
        }
    }
}

impl Default for SelectionUnbound {
    fn default() -> (r: Self)
        ensures
            r@ == Sel::point(Pos { line: 1, col: 1 }),
    {
        SelectionUnbound {
            from: PositionUnbound::default(),
            to: PositionUnbound::default(),
            cursor_direction: CursorDirection::Forward,
            sticky_column: None,
        }
    }
}

impl PositionUnbound {
    /// The position `n` steps to the left of this one: see [`walk_left`].
    pub fn walked_left<L: LineLength>(self, n: usize, line_length: &L) -> (r: Self)
        ensures
            r@ == walk_left(lines_of(line_length), self@, n as int),
    {
        let ghost m = lines_of(line_length);
        let mut cursor = self;
        let mut left = n;
        loop
            invariant_except_break
                m == lines_of(line_length),
                walk_left(m, cursor@, left as int) == walk_left(m, self@, n as int),
            ensures
                cursor@ == walk_left(lines_of(line_length), self@, n as int),
            decreases left,
        {
            let col = cursor.col.get();
            let line = cursor.line.get();
            if left >= col {
                match line_length.line_length(line - 1) {
                    Some(length) => {
                        left -= col;
                        cursor.col = PositiveUsize::from(length);
                        cursor.line.sub_assign(1);
                    },
                    None => {
                        cursor = PositionUnbound::new(1, 1);
                        break ;
                    },
                }
            } else {
                cursor.col.sub_assign(left);
                break ;
            }
        }
        cursor
    }

    /// The position `n` steps to the right of this one: see [`walk_right`].
    pub fn walked_right<L: LineLength>(self, n: usize, line_length: &L) -> (r: Self)
        ensures
            r@ == walk_right(lines_of(line_length), self@, self@, n as int),
    {
        let ghost m = lines_of(line_length);
        let mut cursor = self;
        let mut fallback = self;
        let mut left = n;
        loop
            invariant_except_break
                m == lines_of(line_length),
                walk_right(m, cursor@, fallback@, left as int) == walk_right(
                    m,
                    self@,
                    self@,
                    n as int,
                ),
            ensures
                cursor@ == walk_right(lines_of(line_length), self@, self@, n as int),
            decreases left,
        {
            let col = cursor.col.get();
            let line = cursor.line.get();
            match line_length.line_length(line) {
                Some(length) => {
                    let remaining = if length > col {
                        length - col
                    } else {
                        0
                    };
                    if left > remaining {
                        cursor.col.add_assign(remaining);
                        fallback = cursor;
                        left -= remaining + 1;
                        if line == usize::MAX {
                            assert(walk_right(
                                m,
                                Pos { line: line + 1, col: 1 },
                                fallback@,
                                left as int,
                            ) == fallback@);
                            break ;
                        }
                        cursor = PositionUnbound::new(line + 1, 1);
                    } else {
                        cursor.col.add_assign(left);
                        break ;
                    }
                },
                None => {
                    cursor = fallback;
                    break ;
                },
            }
        }
        cursor
    }
}

impl SelectionUnbound {
    /// Whether both selections have the same ends, direction and sticky
    /// column.
    pub fn same(&self, other: &Self) -> (r: bool)
        ensures
            r == (self@ == other@),
    {
        self.from.same(&other.from) && self.to.same(&other.to) && self.cursor_direction.is_forward()
            == other.cursor_direction.is_forward() && match (
            self.sticky_column,
            other.sticky_column,
        ) {
            (Some(a), Some(b)) => a.get() == b.get(),
            (None, None) => true,
            _ => false,
        }
    }

    /// Whether the ends are in order and a bare cursor points forward.
    pub fn is_well_formed(&self) -> (r: bool)
        ensures
            r == self@.well_formed(),
    {
        // Reading a number tells that it is at least one.
        let _ = self.from.line.get();
        let _ = self.from.col.get();
        let _ = self.to.line.get();
        let _ = self.to.col.get();
        let sticky_is_column = match self.sticky_column {
            Some(column) => column.get() >= 1,
            None => true,
        };
        sticky_is_column && self.from.le(&self.to) && (!self.from.same(&self.to)
            || self.cursor_direction.is_forward())
    }

    /// Check if the selection's length equals to 1.
    pub fn is_point(&self) -> (r: bool)
        ensures
            r == self@.is_point(),
    {
        self.from.same(&self.to)
    }

    /// Swap selection's cursor.
    pub fn swap_cursor(self) -> (r: Self)
        ensures
            r@ == self@.swapped(),
    {
        let mut s = self;
        s.swap_cursor_mut();
        s
    }

    fn swap_cursor_mut(&mut self)
        ensures
            final(self)@ == old(self)@.swapped(),
    {
        if !self.from.same(&self.to) {
            self.cursor_direction.inverse();
        }
    }

    /// If something was moved too much and became reversed
    /// let's fix head/tail and change direction
    pub fn fix_direction(&mut self)
        ensures
            final(self)@ == old(self)@.reseated(),
    {
        if self.to.lt(&self.from) {
            let head = self.from;
            self.from = self.to;
            self.to = head;
            self.cursor_direction.inverse();
        } else if self.from.same(&self.to) {
            self.cursor_direction = CursorDirection::Forward;
        }
    }

    /// Left or right movement should drop sticky column
    fn drop_sticky(&mut self)
        ensures
            final(self)@ == (Sel { sticky_column: None, ..old(self)@ }),
    {
        self.sticky_column = None;
    }

    /// If not extend then drop selection to 1-length
    fn drop_selection(&mut self)
        ensures
            final(self)@ == old(self)@.collapsed(),
    {
        match self.cursor_direction {
            CursorDirection::Forward => {
                self.from = self.to;
                self.cursor_direction = CursorDirection::Forward;
            },
            CursorDirection::Backward => {
                self.to = self.from;
                self.cursor_direction = CursorDirection::Forward;
            },
        }
    }

    /// Drop selection to 1-length but always to the beginning
    pub fn drop_selection_to_head(&mut self)
        ensures
            final(self)@ == old(self)@.collapsed_to_head(),
    {
        self.to = self.from;
        self.cursor_direction = CursorDirection::Forward;
    }

    /// Get cursor reference
    pub fn get_cursor(&self) -> (r: &PositionUnbound)
        ensures
            r@ == self@.cursor(),
    {
        match self.cursor_direction {
            CursorDirection::Forward => &self.to,
            CursorDirection::Backward => &self.from,
        }
    }

    /// Get cursor mutable reference for inplace operations
    pub fn get_cursor_mut(&mut self) -> (r: &mut PositionUnbound)
        ensures
            r@ == old(self)@.cursor(),
            final(self)@ == old(self)@.with_cursor(final(r)@),
    {
        match self.cursor_direction {
            CursorDirection::Forward => &mut self.to,
            CursorDirection::Backward => &mut self.from,
        }
    }

    /// Get positions pair references
    pub fn get_bounds(&self) -> (r: (PositionUnbound, PositionUnbound))
        ensures
            r.0@ == self@.from,
            r.1@ == self@.to,
    {
        (self.from, self.to)
    }

    /// Put the cursor at `position`, whatever that does to the order of the
    /// ends.
    fn set_cursor(&mut self, position: PositionUnbound)
        ensures
            final(self)@ == old(self)@.with_cursor(position@),
    {
        let cursor = self.get_cursor_mut();
        *cursor = position;
    }

    /// Move selection right keeping its shape if possible.
    /// If it is a multiline selection then only head is affected.
    ///
    /// This is what happens on characters deletion before the selection.
    pub fn nudge_left(&mut self, n: usize)
        ensures
            final(self)@ == old(self)@.nudged_left(n as int),
    {
        self.from.col.sub_assign(n);
        if self.to.line.get() == self.from.line.get() {
            self.to.col.sub_assign(n);
        }
    }

    /// Move selection right keeping its shape if possible.
    /// If it is a multiline selection then only head is affected.
    ///
    /// This is what happens on characters insertion before the selection.
    pub fn nudge_right(&mut self, n: usize)
        requires
            old(self)@.from.col + n <= usize::MAX,
            old(self)@.to.line == old(self)@.from.line ==> old(self)@.to.col + n <= usize::MAX,
        ensures
            final(self)@ == old(self)@.nudged_right(n as int),
    {
        self.from.col.add_assign(n);
        if self.to.line.get() == self.from.line.get() {
            self.to.col.add_assign(n);
        }
    }

    /// Move selection up keeping its shape.
    /// No checks are made and lengths used as it is a helper method.
    ///
    /// This is what happens on newlines deletion above.
    pub fn nudge_up(&mut self, n: usize)
        ensures
            final(self)@ == old(self)@.nudged_up(n as int),
    {
        self.from.line.sub_assign(n);
        self.to.line.sub_assign(n);
    }

    // Actions triggered by user directly (meaning "move_x" command, not a helper methods):
    /// Move cursor left by n characters, handling line lengthes and buffer bounds
    pub fn move_left<L: LineLength>(self, n: usize, extend: bool, line_length: &L) -> (r: Self)
        ensures
            r@ == self@.moved_left(n as int, extend, lines_of(line_length)),
            self@.well_formed() ==> r@.well_formed(),
            r@.sticky_column is None,
            !extend ==> r@.is_point(),
    {
        proof {
            if self@.well_formed() {
                laws::lemma_moved_left(self@, n as int, extend, lines_of(line_length));
            }
        }
        let mut s = self;
        let cursor = s.get_cursor().walked_left(n, line_length);
        s.set_cursor(cursor);
        s.fix_direction();
        s.drop_sticky();
        if !extend {
            s.drop_selection();
        }
        s
    }

    /// Move cursor right by n characters, handling line lengthes and buffer bounds
    pub fn move_right<L: LineLength>(self, n: usize, extend: bool, line_length: &L) -> (r: Self)
        ensures
            r@ == self@.moved_right(n as int, extend, lines_of(line_length)),
            self@.well_formed() ==> r@.well_formed(),
            r@.sticky_column is None,
            !extend ==> r@.is_point(),
    {
        proof {
            if self@.well_formed() {
                laws::lemma_moved_right(self@, n as int, extend, lines_of(line_length));
            }
        }
        let mut s = self;
        let cursor = s.get_cursor().walked_right(n, line_length);
        s.set_cursor(cursor);
        s.fix_direction();
        s.drop_sticky();
        if !extend {
            s.drop_selection();
        }
        s
    }

    /// Put the cursor on `line`, as a vertical movement does: see
    /// [`settle_column`].
    fn move_to_line<L: LineLength>(self, line: PositiveUsize, extend: bool, line_length: &L) -> (r:
        Self)
        ensures
            r@ == self@.moved_to_line(line@, extend, lines_of(line_length)),
    {
        let mut s = self;
        let mut cursor = *s.get_cursor();
        cursor.line = line;
        match line_length.line_length(line.get()) {
            Some(length) => {
                let wanted = match s.sticky_column {
                    Some(sticky_column) => sticky_column,
                    None => cursor.col,
                };
                if wanted.get() <= length {
                    cursor.col = wanted;
                    s.sticky_column = None;
                } else {
                    cursor.col = PositiveUsize::from(length);
                    s.sticky_column = Some(wanted);
                }
            },
            None => {},
        }
        s.set_cursor(cursor);
        s.fix_direction();
        if !extend {
            s.drop_selection();
        }
        s
    }

    /// Move cursor up by n lines, handling line lengthes and buffer bounds;
    /// If line is shorter, then previous column is preserved as sticky column
    /// and will be restored on enough lenth.
    pub fn move_up<L: LineLength>(self, n: usize, extend: bool, line_length: &L) -> (r: Self)
        ensures
            r@ == self@.moved_up(n as int, extend, lines_of(line_length)),
            self@.well_formed() ==> r@.well_formed(),
            !extend ==> r@.is_point(),
    {
        proof {
            if self@.well_formed() {
                laws::lemma_moved_up(self@, n as int, extend, lines_of(line_length));
            }
        }
        let mut line = self.get_cursor().line;
        line.sub_assign(n);
        self.move_to_line(line, extend, line_length)
    }

    /// Move cursor down by n lines, handling line lengthes and buffer bounds;
    /// If line is shorter, then previous column is preserved as sticky column
    /// and will be restored on enough lenth.
    pub fn move_down<L: LineLength>(self, n: usize, extend: bool, line_length: &L) -> (r: Self)
        ensures
            r@ == self@.moved_down(n as int, extend, lines_of(line_length)),
            self@.well_formed() ==> r@.well_formed(),
            !extend ==> r@.is_point(),
    {
        proof {
            if self@.well_formed() {
                laws::lemma_moved_down(self@, n as int, extend, lines_of(line_length));
            }
        }
        let mut line = self.get_cursor().line;
        let lines_count = line_length.lines_count();
        if n > usize::MAX - line.get() || line.get() + n > lines_count {
            line = PositiveUsize::from(lines_count);
        } else {
            line.add_assign(n);
        }
        self.move_to_line(line, extend, line_length)
    }

    /// Pick the first line under the selection where a copy of it fits, and
    /// return the copy.
    pub fn create_selection_under<L: LineLength>(&self, line_length: &L) -> (r: Option<Self>)
        requires
            self@.from.line <= self@.to.line,
        ensures
            r matches Some(under) ==> self@.under(lines_of(line_length)) == Some(under@),
            r is None ==> self@.under(lines_of(line_length)) is None,
            self@.well_formed() && r is Some ==> r.unwrap()@.well_formed(),
    {
        let r = self.find_selection_under(line_length);
        proof {
            if let Some(under) = r {
                laws::lemma_first_under(self@, lines_of(line_length), under@.to.line);
            }
        }
        r
    }

    /// Pick the first line under the selection where a copy of it fits, and
    /// return the copy.
    fn find_selection_under<L: LineLength>(&self, line_length: &L) -> (r: Option<Self>)
        requires
            self@.from.line <= self@.to.line,
        ensures
            r matches Some(under) ==> self@.first_under(lines_of(line_length), under@.to.line)
                && under@ == self@.placed_under(under@.to.line),
            r is None ==> forall|i: int| !self@.first_under(lines_of(line_length), i),
    {
        let ghost m = lines_of(line_length);
        let to_line = self.to.line.get();
        let width = to_line - self.from.line.get();
        if width >= usize::MAX - to_line {
            return None;
        }
        // Pick a line with enough length for tail
        let mut line_idx = to_line + width + 1;
        loop
            invariant
                m == lines_of(line_length),
                width == self@.height(),
                to_line == self@.to.line,
                to_line + width < line_idx,
                forall|j: int|
                    to_line + width < j < line_idx ==> #[trigger] m.lengths.contains_key(j)
                        && !self@.fits_under(m, j),
            decreases usize::MAX - line_idx,
        {
            match line_length.line_length(line_idx) {
                Some(length_to) => {
                    if let Some(length_from) = line_length.line_length(line_idx - width) {
                        if length_from >= self.from.col.get() && length_to >= self.to.col.get() {
                            return Some(
                                SelectionUnbound {
                                    from: PositionUnbound {
                                        line: PositiveUsize::from(line_idx - width),
                                        col: self.from.col,
                                    },
                                    to: PositionUnbound {
                                        line: PositiveUsize::from(line_idx),
                                        col: self.to.col,
                                    },
                                    cursor_direction: self.cursor_direction,
                                    sticky_column: None,
                                },
                            );
                        }
                    }
                    assert(!self@.fits_under(m, line_idx as int));
                    if line_idx == usize::MAX {
                        assert forall|i: int| !self@.first_under(m, i) by {
                            if i > line_idx {
                                assert(!m.lengths.contains_key(i));
                            }
                        }
                        return None;
                    }
                    line_idx += 1;
                },
                None => {
                    assert forall|i: int| !self@.first_under(m, i) by {
                        assert(!m.lengths.contains_key(line_idx as int));
                    }
                    return None;
                },
            }
        }
    }

    /// A shortcut to create selections in place; a zero counts as one.
    pub fn new_quick(
        head_line: usize,
        head_col: usize,
        tail_line: usize,
        tail_col: usize,
        cursor_direction: CursorDirection,
    ) -> (r: Self)
        ensures
            r@ == (Sel {
                from: Pos {
                    line: at_least_one(head_line as int),
                    col: at_least_one(head_col as int),
                },
                to: Pos {
                    line: at_least_one(tail_line as int),
                    col: at_least_one(tail_col as int),
                },
                cursor_direction: cursor_direction,
                sticky_column: None,
            }),
    {
        SelectionUnbound {
            from: PositionUnbound::new(head_line, head_col),
            to: PositionUnbound::new(tail_line, tail_col),
            cursor_direction,
            sticky_column: None,
        }
    }

    /// Set sticky column to the selection.
    pub fn with_sticky(self, sticky: usize) -> (r: Self)
        ensures
            r@ == (Sel { sticky_column: Some(at_least_one(sticky as int)), ..self@ }),
    {
        let mut s = self;
        s.sticky_column = Some(PositiveUsize::from(sticky));
        s
    }

    /// As movements can be complicated, setting, on the contrary,
    /// is an assignment of a cursor to an existing position
    pub fn set(&mut self, line: usize, col: usize, extend: bool)
        ensures
            final(self)@ == old(self)@.cursor_set(
                Pos { line: at_least_one(line as int), col: at_least_one(col as int) },
                extend,
            ),
    {
        self.set_cursor(PositionUnbound::new(line, col));
        if !extend {
            self.drop_selection();
        }
        self.fix_direction();
        self.drop_sticky();
    }
}

/// Selection of length 1 is simply a cursor thus can be
/// created from the position of it
impl From<PositionUnbound> for SelectionUnbound {
    fn from(position: PositionUnbound) -> (r: Self)
        ensures
            r@ == Sel::point(position@),
    {
        SelectionUnbound {
            from: position,
            to: position,
            cursor_direction: CursorDirection::Forward,
            sticky_column: None,
        }
    }
}

impl vstd::std_specs::convert::FromSpecImpl<PositionUnbound> for SelectionUnbound {
    open spec fn obeys_from_spec() -> bool {
        true
    }

    open spec fn from_spec(position: PositionUnbound) -> Self {
        SelectionUnbound {
            from: position,
            to: position,
            cursor_direction: CursorDirection::Forward,
            sticky_column: None,
        }
    }
}

} // verus!
