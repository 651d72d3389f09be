//! Positions and selections as those of a buffer.
use crate::buffer::{Buffer, lemma_rope_lines};
use super::{CursorDirection, PositionUnbound, SelectionUnbound};
use core::cmp::Ordering;
use vstd::prelude::*;
use vstd::std_specs::cmp::{PartialEqSpecImpl, PartialOrdSpecImpl};

verus! {

/// `std::ptr::eq` on two buffers: whether both references lead to the same
/// place. Where they do they lead to the same buffer; where they do not,
/// nothing is said.
#[verifier::external_body]
pub(crate) fn same_buffer(a: &Buffer, b: &Buffer) -> (r: bool)
    ensures
        r ==> a@ == b@,
{
    std::ptr::eq(a, b)
}

/// A position with binded to a buffer
#[derive(Debug, Clone, Copy)]
pub struct Position<'a> {
    /// Internal raw position
    pub position: PositionUnbound,
    /// Buffer reference required for line lengths
    pub buffer: &'a Buffer,
}

/// Positions are equal if they are the same position of the same buffer.
/// Which buffer a reference leads to is not a matter of values: the
/// comparison asks whether the buffers are one, and
/// [`PositionUnbound::equal_where`] says what follows from the answer.
impl PartialEq for Position<'_> {
    fn eq(&self, other: &Self) -> (r: bool)
        ensures
            r ==> self.position@ == other.position@ && self.buffer@ == other.buffer@,
    {
        let same = same_buffer(self.buffer, other.buffer);
        PositionUnbound::equal_where(same, &self.position, &other.position)
    }
}

impl PartialEqSpecImpl for Position<'_> {
    open spec fn obeys_eq_spec() -> bool {
        false
    }

    open spec fn eq_spec(&self, other: &Self) -> bool {
        self.position@ == other.position@ && self.buffer@ == other.buffer@
    }
}

impl Eq for Position<'_> {

}

/// Only positions linked to the same buffer could be compared: those are
/// in the order of line, then column. The comparison asks whether the
/// buffers are one, and [`PositionUnbound::order_where`] says what follows
/// from the answer.
impl PartialOrd for Position<'_> {
    fn partial_cmp(&self, other: &Self) -> (r: Option<Ordering>)
        ensures
            r is Some ==> self.buffer@ == other.buffer@,
            r matches Some(order) ==> (order is Less <==> self.position@.lt(other.position@)) && (
            order is Equal <==> self.position@ == other.position@),
    {
        let same = same_buffer(self.buffer, other.buffer);
        PositionUnbound::order_where(same, &self.position, &other.position)
    }
}

impl PartialOrdSpecImpl for Position<'_> {
    open spec fn obeys_partial_cmp_spec() -> bool {
        false
    }

    open spec fn partial_cmp_spec(&self, other: &Self) -> Option<Ordering> {
        if self.position@.lt(other.position@) {
            Some(Ordering::Less)
        } else if self.position@ == other.position@ {
            Some(Ordering::Equal)
        } else {
            Some(Ordering::Greater)
        }
    }
}

impl<'a> Position<'a> {
    /// Returns a `line` component
    pub fn line(&self) -> (r: usize)
        ensures
            r == self.position@.line,
    {
        self.position.line.get()
    }

    /// Returns a `col` component
    pub fn col(&self) -> (r: usize)
        ensures
            r == self.position@.col,
    {
        self.position.col.get()
    }

    /// Returns a following position.
    /// Returns `None` if called for the last possible position in
    /// buffer.
    pub fn successor(&self) -> (r: Option<Self>)
        requires
            self.buffer@.well_formed(),
        ensures
            r matches Some(p) ==> self.position@.successor(self.buffer@.lines()) == Some(
                p.position@,
            ) && p.buffer == self.buffer,
            r is None ==> self.position@.successor(self.buffer@.lines()) is None,
    {
        let rope = self.buffer.get_rope();
        proof {
            lemma_rope_lines(*rope);
        }
        match self.position.successor(rope) {
            Some(p) => Some(p.binded(self.buffer)),
            None => None,
        }
    }

    /// Returns a previous position.
    /// Returns `None` if called for the beginning of buffer.
    pub fn predecessor(&self) -> (r: Option<Self>)
        requires
            self.buffer@.well_formed(),
        ensures
            r matches Some(p) ==> self.position@.predecessor(self.buffer@.lines()) == Some(
                p.position@,
            ) && p.buffer == self.buffer,
            r is None ==> self.position@.predecessor(self.buffer@.lines()) is None,
    {
        let rope = self.buffer.get_rope();
        proof {
            lemma_rope_lines(*rope);
        }
        match self.position.predecessor(rope) {
            Some(p) => Some(p.binded(self.buffer)),
            None => None,
        }
    }

    /// Check if is line end (technically points at newline)
    pub fn is_line_end(&self) -> (r: bool)
        requires
            self.buffer@.well_formed(),
        ensures
            r == self.position@.is_line_end(self.buffer@.lines()),
    {
        let rope = self.buffer.get_rope();
        proof {
            lemma_rope_lines(*rope);
        }
        self.position.is_line_end(rope)
    }
}

impl PositionUnbound {
    /// How two positions of buffers compare, `same` saying whether the
    /// buffers are one: positions of one buffer are in the order of line,
    /// then column, and positions of two buffers do not compare.
    pub fn order_where(same: bool, a: &PositionUnbound, b: &PositionUnbound) -> (r: Option<
        Ordering,
    >)
        ensures
            !same ==> r is None,
            same ==> r == Some(
                if a@.lt(b@) {
                    Ordering::Less
                } else if a@ == b@ {
                    Ordering::Equal
                } else {
                    Ordering::Greater
                },
            ),
    {
        if !same {
            None
        } else if a.lt(b) {
            Some(Ordering::Less)
        } else if a.same(b) {
            Some(Ordering::Equal)
        } else {
            Some(Ordering::Greater)
        }
    }

    /// Whether two positions of buffers are equal, `same` saying whether
    /// the buffers are one: they are if the buffers are one and the
    /// positions name one slot.
    pub fn equal_where(same: bool, a: &PositionUnbound, b: &PositionUnbound) -> (r: bool)
        ensures
            r == (same && a@ == b@),
    {
        same && a.same(b)
    }

    /// Build a binded position
    pub fn binded(self, buffer: &Buffer) -> (r: Position)
        ensures
            r.position == self,
            r.buffer == buffer,
    {
        Position { position: self, buffer }
    }
}

/// Selection is as pair of positions, which are pairs of line/column values with
/// a cursor in the beginning or in the end, attached to a buffer.
#[derive(Debug, Clone, Copy)]
pub struct Selection<'a> {
    /// Inner selection
    pub selection: SelectionUnbound,
    /// Link to the buffer
    pub buffer: &'a Buffer,
}

/// Selections are equal if they are the same selection of the same buffer.
/// Which buffer a reference leads to is not a matter of values: the
/// comparison asks whether the buffers are one, and
/// [`SelectionUnbound::equal_where`] says what follows from the answer.
impl PartialEq for Selection<'_> {
    fn eq(&self, other: &Self) -> (r: bool)
        ensures
            r ==> self.selection@ == other.selection@ && self.buffer@ == other.buffer@,
    {
        let same = same_buffer(self.buffer, other.buffer);
        SelectionUnbound::equal_where(same, &self.selection, &other.selection)
    }
}

impl PartialEqSpecImpl for Selection<'_> {
    open spec fn obeys_eq_spec() -> bool {
        false
    }

    open spec fn eq_spec(&self, other: &Self) -> bool {
        self.selection@ == other.selection@ && self.buffer@ == other.buffer@
    }
}

impl Eq for Selection<'_> {

}

impl<'a> Selection<'a> {
    /// Check if the selection's length equals to 1.
    pub fn is_point(&self) -> (r: bool)
        ensures
            r == self.selection@.is_point(),
    {
        self.selection.is_point()
    }

    /// Get cursor direction
    pub fn cursor_direction(&self) -> (r: CursorDirection)
        ensures
            r == self.selection@.cursor_direction,
    {
        self.selection.cursor_direction
    }

    /// Get `from` component
    pub fn from(&self) -> (r: Position<'a>)
        ensures
            r.position@ == self.selection@.from,
            r.buffer == self.buffer,
    {
        self.selection.from.binded(self.buffer)
    }

    /// Get `to` component
    pub fn to(&self) -> (r: Position<'a>)
        ensures
            r.position@ == self.selection@.to,
            r.buffer == self.buffer,
    {
        self.selection.to.binded(self.buffer)
    }

    /// Get `from` and `to` components as a tuple
    pub fn bounds(&self) -> (r: (Position<'a>, Position<'a>))
        ensures
            r.0.position@ == self.selection@.from,
            r.1.position@ == self.selection@.to,
            r.0.buffer == self.buffer,
            r.1.buffer == self.buffer,
    {
        (self.from(), self.to())
    }
}

impl SelectionUnbound {
    /// Whether two selections of buffers are equal, `same` saying whether
    /// the buffers are one: they are if the buffers are one and the
    /// selections are alike.
    pub fn equal_where(same: bool, a: &SelectionUnbound, b: &SelectionUnbound) -> (r: bool)
        ensures
            r == (same && a@ == b@),
    {
        same && a.same(b)
    }

    /// Build a binded selection
    pub fn binded(self, buffer: &Buffer) -> (r: Selection)
        ensures
            r.selection == self,
            r.buffer == buffer,
    {
        Selection { selection: self, buffer }
    }
}

} // verus!
