//! The buffer: a text and the selections on it.
use crate::{
    Change, changes, CursorDirection, Delta, DeltaType, Error, LineLength, lines_of, reported,
};
use crate::deleting::{
    law_deleting_alone, law_deleting_leaves_points, law_deleting_within_lines, tidy_line_ends,
    within_a_line,
};
use crate::rope::{measure, rope_from_bytes, rope_remove, rope_text, rope_to_string};
use crate::runs::runs;
use crate::selections::{Pos, Position, PositionUnbound, Sel, Selection, SelectionUnbound};
use crate::selections::bound::same_buffer;
use crate::selections::storage::{
    ends_by, lemma_first_before, lemma_moved_within, lemma_placed_under_within, SelectionStorage,
    Store, views,
};
use crate::text::{
    char_index, inserted_at_all, line_count, line_feed_flags, slots, with_inserted,
};
use crate::typing::{
    cursors_on, law_plain_text_grows_lines, law_typing_at_bare_cursors, law_typing_within, plain,
    types_within,
};
use crate::util::at_least_one;
use vstd::prelude::*;
use vstd::std_specs::cmp::PartialEqSpecImpl;
use vstd::string::*;

pub mod model;

pub use model::{
    all_of, Contents, deleting, edit_changes, lemma_delete_range, lemma_fresh_is_coherent, lemma_index_within,
    lemma_rope_lines, lemma_text_lines, text_lines,
};

verus! {

/// The main structure to store and process text.
///
/// As usual for editors, could be created empty or from a reader.
#[derive(Debug)]
pub struct Buffer {
    rope: ropey::Rope,
    selection_storage: SelectionStorage,
}

impl View for Buffer {
    type V = Contents;

    closed spec fn view(&self) -> Contents {
        Contents { text: rope_text(self.rope), store: self.selection_storage@ }
    }
}

impl Buffer {
    /// Create an empty `Buffer`.
    pub fn empty() -> (r: Self)
        ensures
            r@ == Contents::fresh(),
            r@.well_formed(),
            r@.coherent(),
    {
        let rope = ropey::Rope::from_str("");
        proof {
            reveal_strlit("");
            assert(rope_text(rope) =~= Seq::empty());
            lemma_fresh_is_coherent(Seq::empty());
        }
        measure(&rope);
        Buffer { rope, selection_storage: SelectionStorage::new() }
    }

    /// Create `Buffer` from the bytes that a reader gave: they are to
    /// encode a text in UTF-8.
    pub fn from_reader(reader: &[u8]) -> (r: Result<Self, Error>)
        ensures
            r is Ok <==> vstd::utf8::valid_utf8(reader@),
            r matches Ok(buffer) ==> buffer@ == (Contents {
                text: vstd::utf8::decode_utf8(reader@),
                store: Store::fresh(),
            }) && buffer@.well_formed() && buffer@.coherent(),
    {
        match rope_from_bytes(reader) {
            Ok(rope) => {
                proof {
                    lemma_fresh_is_coherent(rope_text(rope));
                }
                measure(&rope);
                Ok(Buffer { rope, selection_storage: SelectionStorage::new() })
            },
            Err(error) => Err(Error::CreateFromReader(error)),
        }
    }

    /// Get lines count
    pub fn lines_count(&self) -> (r: usize)
        ensures
            r == line_count(self@.text),
    {
        self.rope.len_lines()
    }

    /// Get length of line `line`.
    /// Note that lines indexing starts from 1
    pub fn line_length(&self, line: usize) -> (r: Option<usize>)
        ensures
            r matches Some(length) ==> self@.lines().lengths.contains_key(line as int)
                && self@.lines().lengths[line as int] == length,
            r is None ==> !self@.lines().lengths.contains_key(line as int),
    {
        let r = self.rope.line_length(line);
        measure(&self.rope);
        proof {
            lemma_rope_lines(self.rope);
        }
        r
    }

    /// Expose underlying Rope read-only way
    pub fn get_rope(&self) -> (r: &ropey::Rope)
        ensures
            rope_text(*r) == self@.text,
    {
        &self.rope
    }

    /// The text as a string.
    pub fn to_string(&self) -> (r: String)
        ensures
            r@ == self@.text,
    {
        rope_to_string(&self.rope)
    }

    /// The selections in document order, as they are in themselves.
    pub fn internal_selections_iter(&self) -> (r: Vec<SelectionUnbound>)
        ensures
            views(r@) == self@.store.selections,
    {
        self.selection_storage.iter()
    }

    /// The head of the main selection.
    pub fn main_selection(&self) -> (r: PositionUnbound)
        ensures
            r@ == self@.store.main,
    {
        self.selection_storage.main_selection_ptr()
    }
}

impl Buffer {
    /// Swap selections' cursor position.
    pub fn swap_cursor(&mut self) -> (r: Vec<Delta>)
        requires
            old(self)@.well_formed(),
        ensures
            final(self)@.text == old(self)@.text,
            final(self)@.store == Store::of(old(self)@.store.swapped()),
            reported(r@) == old(self)@.store.swapped().deltas,
            all_of(r@, final(self)@),
            final(self)@.well_formed(),
            old(self)@.coherent() ==> final(self)@.coherent(),
    {
        proof {
            lemma_text_lines(self@.text);
            if self@.coherent() {
                lemma_moved_within(self@.store, 0, false, self@.lines());
            }
        }
        let deltas = self.selection_storage.swap_cursor();
        DeltaType::bind_vec(deltas, self)
    }

    /// Move all cursors up by `n`, shrinking selections to length 1
    /// if `extend` is not set.
    pub fn move_up(&mut self, n: usize, extend: bool) -> (r: Vec<Delta>)
        requires
            old(self)@.well_formed(),
        ensures
            final(self)@.text == old(self)@.text,
            final(self)@.store == Store::of(
                old(self)@.store.moved_up(n as int, extend, old(self)@.lines()),
            ),
            reported(r@) == old(self)@.store.moved_up(n as int, extend, old(self)@.lines()).deltas,
            all_of(r@, final(self)@),
            final(self)@.well_formed(),
            !extend ==> final(self)@.store.all_points(),
            old(self)@.coherent() ==> final(self)@.coherent(),
    {
        proof {
            lemma_rope_lines(self.rope);
            lemma_text_lines(self@.text);
            if self@.coherent() {
                lemma_moved_within(self@.store, n as int, extend, self@.lines());
            }
        }
        let deltas = self.selection_storage.move_up(n, extend, &self.rope);
        DeltaType::bind_vec(deltas, self)
    }

    /// Move all cursors down by `n`, shrinking selections to length 1
    /// if `extend` is not set.
    pub fn move_down(&mut self, n: usize, extend: bool) -> (r: Vec<Delta>)
        requires
            old(self)@.well_formed(),
        ensures
            final(self)@.text == old(self)@.text,
            final(self)@.store == Store::of(
                old(self)@.store.moved_down(n as int, extend, old(self)@.lines()),
            ),
            reported(r@) == old(self)@.store.moved_down(
                n as int,
                extend,
                old(self)@.lines(),
            ).deltas,
            all_of(r@, final(self)@),
            final(self)@.well_formed(),
            !extend ==> final(self)@.store.all_points(),
            old(self)@.coherent() ==> final(self)@.coherent(),
    {
        proof {
            lemma_rope_lines(self.rope);
            lemma_text_lines(self@.text);
            if self@.coherent() {
                lemma_moved_within(self@.store, n as int, extend, self@.lines());
            }
        }
        let deltas = self.selection_storage.move_down(n, extend, &self.rope);
        DeltaType::bind_vec(deltas, self)
    }

    /// Move all cursors left by `n`, shrinking selections to length 1
    /// if `extend` is not set.
    pub fn move_left(&mut self, n: usize, extend: bool) -> (r: Vec<Delta>)
        requires
            old(self)@.well_formed(),
        ensures
            final(self)@.text == old(self)@.text,
            final(self)@.store == Store::of(
                old(self)@.store.moved_left(n as int, extend, old(self)@.lines()),
            ),
            reported(r@) == old(self)@.store.moved_left(
                n as int,
                extend,
                old(self)@.lines(),
            ).deltas,
            all_of(r@, final(self)@),
            final(self)@.well_formed(),
            !extend ==> final(self)@.store.all_points(),
            old(self)@.coherent() ==> final(self)@.coherent(),
    {
        proof {
            lemma_rope_lines(self.rope);
            lemma_text_lines(self@.text);
            if self@.coherent() {
                lemma_moved_within(self@.store, n as int, extend, self@.lines());
            }
        }
        let deltas = self.selection_storage.move_left(n, extend, &self.rope);
        DeltaType::bind_vec(deltas, self)
    }

    /// Move all cursors right by `n`, shrinking selections to length 1
    /// if `extend` is not set.
    pub fn move_right(&mut self, n: usize, extend: bool) -> (r: Vec<Delta>)
        requires
            old(self)@.well_formed(),
        ensures
            final(self)@.text == old(self)@.text,
            final(self)@.store == Store::of(
                old(self)@.store.moved_right(n as int, extend, old(self)@.lines()),
            ),
            reported(r@) == old(self)@.store.moved_right(
                n as int,
                extend,
                old(self)@.lines(),
            ).deltas,
            all_of(r@, final(self)@),
            final(self)@.well_formed(),
            !extend ==> final(self)@.store.all_points(),
            old(self)@.coherent() ==> final(self)@.coherent(),
    {
        proof {
            lemma_rope_lines(self.rope);
            lemma_text_lines(self@.text);
            if self@.coherent() {
                lemma_moved_within(self@.store, n as int, extend, self@.lines());
            }
        }
        let deltas = self.selection_storage.move_right(n, extend, &self.rope);
        DeltaType::bind_vec(deltas, self)
    }

    /// Place a new selection under each existing one with the same columns if it will fit the line.
    /// If the next line is too short to put a selection then it will use matching subsequent line.
    pub fn place_selection_under(&mut self) -> (r: Vec<Delta>)
        requires
            old(self)@.well_formed(),
        ensures
            final(self)@.text == old(self)@.text,
            final(self)@.store == Store::of(old(self)@.store.placed_under(old(self)@.lines())),
            reported(r@) == old(self)@.store.placed_under(old(self)@.lines()).deltas,
            all_of(r@, final(self)@),
            final(self)@.well_formed(),
            old(self)@.coherent() ==> final(self)@.coherent(),
    {
        proof {
            lemma_rope_lines(self.rope);
            if self@.coherent() {
                lemma_placed_under_within(
                    self@.store,
                    self@.lines(),
                    self@.store.selections.len() as int,
                );
            }
        }
        let deltas = self.selection_storage.place_selection_under(&self.rope);
        DeltaType::bind_vec(deltas, self)
    }
}

/// The report of an edit that found the selections as `before` and left
/// them as `after`.
fn edit_deltas<'b>(before: &Vec<SelectionUnbound>, after: &Vec<SelectionUnbound>) -> (r: Vec<
    DeltaType<'b>,
>)
    ensures
        changes(r@) == edit_changes(views(before@), views(after@)),
{
    let mut r: Vec<DeltaType<'b>> = Vec::new();
    if before.len() == after.len() {
        let mut i: usize = 0;
        while i < before.len()
            invariant
                i <= before.len(),
                before.len() == after.len(),
                r@.len() == i,
                forall|k: int|
                    0 <= k < i ==> (#[trigger] r@[k])@ == (Change::SelectionChanged {
                        identity: before@[k]@.from,
                        new_state: after@[k]@,
                    }),
            decreases before.len() - i,
        {
            r.push(DeltaType::SelectionChanged { identity: before[i].from, new_state: after[i] });
            i += 1;
        }
        assert(changes(r@) =~= edit_changes(views(before@), views(after@)));
    } else {
        let mut i: usize = 0;
        while i < before.len()
            invariant
                i <= before.len(),
                r@.len() == i,
                forall|k: int|
                    0 <= k < i ==> (#[trigger] r@[k])@ == (Change::SelectionDeleted {
                        identity: before@[k]@.from,
                    }),
            decreases before.len() - i,
        {
            r.push(DeltaType::SelectionDeleted { identity: before[i].from });
            i += 1;
        }
        let mut j: usize = 0;
        while j < after.len()
            invariant
                j <= after.len(),
                r@.len() == before.len() + j,
                forall|k: int|
                    0 <= k < before.len() ==> (#[trigger] r@[k])@ == (Change::SelectionDeleted {
                        identity: before@[k]@.from,
                    }),
                forall|k: int|
                    0 <= k < j ==> (#[trigger] r@[before.len() + k])@ == (Change::SelectionAdded {
                        selection: after@[k]@,
                    }),
            decreases after.len() - j,
        {
            r.push(DeltaType::SelectionAdded { selection: after[j] });
            j += 1;
        }
        let ghost gone = views(before@).map_values(
            |s: Sel| Change::SelectionDeleted { identity: s.from },
        );
        let ghost come = views(after@).map_values(
            |s: Sel| Change::SelectionAdded { selection: s },
        );
        assert forall|k: int| 0 <= k < r@.len() implies changes(r@)[k] == (gone + come)[k] by {
            if k < before.len() {
                assert(r@[k]@ == gone[k]);
            } else {
                assert(r@[before.len() + (k - before.len())]@ == come[k - before.len()]);
            }
        }
        assert(changes(r@) =~= gone + come);
    }
    r
}

/// For each character of `text` whether it is a line feed: 1 if it is, 0
/// if not.
fn flags_of(text: &str) -> (r: Vec<usize>)
    ensures
        r@ == line_feed_flags(text@),
{
    let mut flags: Vec<usize> = Vec::new();
    for c in it: text.chars()
        invariant
            it.seq() == text@,
            flags@ == line_feed_flags(text@.take(it.index() as int)),
    {
        flags.push(
            if c == '\n' {
                1
            } else {
                0
            },
        );
        assert(flags@ =~= line_feed_flags(text@.take(it.index() + 1)));
    }
    assert(text@.take(text@.len() as int) =~= text@);
    flags
}

impl Buffer {
    /// For each selection the index in the text of the character at its
    /// cursor, if every cursor names a slot of the text.
    fn cursor_indices(&self) -> (r: Option<Vec<usize>>)
        requires
            self@.well_formed(),
        ensures
            r is Some == self@.cursors_within(),
            r matches Some(indices) ==> indices@.map_values(|i: usize| i as int)
                == self@.cursor_indices(),
            r matches Some(indices) ==> forall|k: int|
                0 <= k < indices@.len() ==> #[trigger] indices@[k] <= self@.text.len(),
    {
        let selections = self.selection_storage.iter();
        let lines_count = self.rope.len_lines();
        let ghost sels = self@.store.selections;
        let ghost text = self@.text;
        proof {
            lemma_rope_lines(self.rope);
        }
        let mut indices: Vec<usize> = Vec::new();
        let mut k: usize = 0;
        while k < selections.len()
            invariant
                k <= selections.len(),
                sels == self@.store.selections,
                text == self@.text,
                text == rope_text(self.rope),
                sels == views(selections@),
                lines_count == line_count(text),
                lines_of(&self.rope) == text_lines(text),
                text.len() <= usize::MAX,
                indices@.len() == k,
                forall|i: int| 0 <= i < k ==> (#[trigger] sels[i]).cursor().within(text_lines(text)),
                forall|i: int|
                    0 <= i < k ==> #[trigger] indices@[i] == char_index(
                        text,
                        sels[i].cursor().line,
                        sels[i].cursor().col,
                    ) && indices@[i] <= text.len(),
            decreases selections.len() - k,
        {
            let cursor = selections[k].get_cursor();
            assert(cursor@ == sels[k as int].cursor());
            let line = cursor.line.get();
            let col = cursor.col.get();
            let within = match self.rope.line_length(line) {
                Some(length) => col <= length,
                None => false,
            };
            if !within {
                assert(!sels[k as int].cursor().within(text_lines(text)));
                return None;
            }
            proof {
                lemma_index_within(text, cursor@);
            }
            indices.push(self.rope.line_to_char(line - 1) + (col - 1));
            k += 1;
        }
        assert(indices@.map_values(|i: usize| i as int) =~= self@.cursor_indices());
        Some(indices)
    }

    /// Insert `text` on all cursors, and report what became of the
    /// selections, see [`edit_changes`]. Nothing changes, and nothing is
    /// reported, if a cursor does not name a slot of the text, or if the text
    /// or a selection would outgrow the numbers of the machine.
    ///
    /// If selection's cursor is in front, then the selection will be moved
    /// right; otherwise it will be extened.
    ///
    /// Where the text is plain, which is to say that it holds no line feed
    /// and does not end in a carriage return, every line gets as many slots
    /// more as the text is long, for each cursor on it. Selections that lay
    /// on the slots of the text lie on them afterwards where one of the
    /// things holds that [`types_within`] names. This is left out:
    /// - a text that ends in a carriage return, which a line end behind it
    ///   takes out of the line, so that the cursor stands beyond its line;
    /// - a plain text at a range over lines with its cursor at its head,
    ///   or behind another selection that begins on its line: its tail is
    ///   pushed right on a line on which less was typed before it;
    /// - a line feed typed where there are several selections and one of
    ///   them is a range, or at a range over lines with its cursor at its
    ///   head: the selections are pushed run by run of the text, each by
    ///   what was typed at those that begin on its line, and a range can be
    ///   left beyond the end of a line.
    pub fn insert(&mut self, text: &str) -> (r: Option<Vec<Delta>>)
        requires
            old(self)@.well_formed(),
        ensures
            r is Some == old(self)@.takes(text@),
            r is Some ==> final(self)@ == old(self)@.inserted(text@),
            r is None ==> final(self)@ == old(self)@,
            r matches Some(deltas) ==> reported(deltas@) == edit_changes(
                old(self)@.store.selections,
                final(self)@.store.selections,
            ) && all_of(deltas@, final(self)@),
            final(self)@.well_formed(),
            old(self)@.coherent() && old(self)@.store.all_points() && (text@.len() == 0
                || text@.last() != '\r') ==> final(self)@.coherent()
                && final(self)@.store.all_points(),
            r is Some && plain(text@) ==> line_count(final(self)@.text) == line_count(
                old(self)@.text,
            ) && forall|line: int|
                1 <= line <= line_count(old(self)@.text) ==> #[trigger] slots(
                    final(self)@.text,
                    line,
                ) == slots(old(self)@.text, line) + text@.len() * cursors_on(
                    old(self)@.store,
                    line,
                ),
            old(self)@.coherent() && types_within(old(self)@, text@) ==> final(self)@.coherent(),
    {
        proof {
            if plain(text@) && self@.takes(text@) {
                law_plain_text_grows_lines(self@, text@);
            }
            if self@.coherent() && types_within(self@, text@) && self@.takes(text@) {
                law_typing_within(self@, text@);
            }
            if self@.coherent() && self@.store.all_points() && self@.takes(text@) {
                law_typing_at_bare_cursors(self@, text@);
            }
        }
        let found = self.selection_storage.iter();
        let indices = match self.cursor_indices() {
            Some(indices) => indices,
            None => {
                return None;
            },
        };
        let size = text.unicode_len();
        let length = self.rope.len_chars();
        let count = indices.len();
        assert(count * size <= 0xffff_ffff_ffff_ffff * 0xffff_ffff_ffff_ffff) by (nonlinear_arith)
            requires
                0 <= count <= 0xffff_ffff_ffff_ffff,
                0 <= size <= 0xffff_ffff_ffff_ffff,
        ;
        let needed: u128 = length as u128 + (count as u128) * (size as u128);
        assert(count == self@.store.selections.len()) by {
            assert(indices@.map_values(|i: usize| i as int).len() == indices@.len());
            assert(self@.cursor_indices().len() == self@.store.selections.len());
        }
        if needed > usize::MAX as u128 {
            return None;
        }
        let flags = flags_of(text);
        // Perform insertion reversed to prevent selections invalidation
        // on previous iteration if it were moved forward
        if !self.selection_storage.try_type(&flags) {
            return None;
        }
        let ghost before = old(self)@.text;
        let ghost places = old(self)@.cursor_indices();
        assert(places.take(count as int) =~= places);
        let mut k: usize = count;
        while k > 0
            invariant
                k <= count,
                count == indices@.len(),
                size == text@.len(),
                places == indices@.map_values(|i: usize| i as int),
                forall|i: int| 0 <= i < indices@.len() ==> #[trigger] indices@[i] <= before.len(),
                before.len() + count * size <= usize::MAX,
                self@.store == old(self)@.store.typed(flags@, runs(flags@).len() as int),
                self@.store.well_formed(),
                rope_text(self.rope).len() == before.len() + (count - k) * size,
                inserted_at_all(rope_text(self.rope), places.take(k as int), text@)
                    == inserted_at_all(before, places, text@),
            decreases k,
        {
            k -= 1;
            proof {
                assert((count - k) * size == (count - (k + 1)) * size + size) by (nonlinear_arith);
                assert((count - k) * size <= count * size) by (nonlinear_arith)
                    requires
                        0 <= k <= count,
                        0 <= size,
                ;
                assert(places.take(k + 1).drop_last() =~= places.take(k as int));
            }
            self.rope.insert(indices[k], text);
        }
        proof {
            assert(places.take(0) =~= Seq::empty());
        }
        measure(&self.rope);
        let left = self.selection_storage.iter();
        let deltas = edit_deltas(&found, &left);
        Some(DeltaType::bind_vec(deltas, self))
    }
}

impl Buffer {
    /// Whether `position` names a slot of the text.
    fn holds(&self, position: &PositionUnbound) -> (r: bool)
        requires
            self@.well_formed(),
        ensures
            r == position@.within(self@.lines()),
    {
        proof {
            lemma_rope_lines(self.rope);
        }
        match self.rope.line_length(position.line.get()) {
            Some(length) => position.col.get() <= length,
            None => false,
        }
    }

    /// Delete the text of the selection `s`, and say whether it was done:
    /// nothing changes if an end of `s` names no slot of the text, or if a
    /// selection would outgrow the numbers of the machine.
    fn delete_selection(&mut self, s: SelectionUnbound) -> (done: bool)
        requires
            old(self)@.well_formed(),
            s@.well_formed(),
        ensures
            done == old(self)@.can_delete(s@),
            done ==> final(self)@ == old(self)@.without(s@),
            !done ==> final(self)@ == old(self)@,
            final(self)@.well_formed(),
    {
        if !self.holds(&s.from) || !self.holds(&s.to) {
            return false;
        }
        proof {
            lemma_rope_lines(self.rope);
            lemma_delete_range(self@, s@);
            lemma_index_within(self@.text, s@.from);
            lemma_index_within(self@.text, s@.to);
        }
        let (from, to) = s.get_bounds();
        let from_line: usize = from.line.get();
        let to_line: usize = to.line.get();
        let from_ch: usize = self.rope.line_to_char(from_line - 1) + (from.col.get() - 1);
        let at_line_end = match self.rope.line_length(to_line) {
            Some(length) => to.col.get() == length,
            None => false,
        };
        let to_ch: usize = if at_line_end {
            let next = self.rope.line_to_char(to_line);
            if next > 0 {
                next - 1
            } else {
                0
            }
        } else {
            self.rope.line_to_char(to_line - 1) + (to.col.get() - 1)
        };
        if !self.selection_storage.try_apply_delete(s, &self.rope) {
            return false;
        }
        if to_ch < self.rope.len_chars() {
            rope_remove(&mut self.rope, from_ch, to_ch + 1);
        }
        measure(&self.rope);
        true
    }

    /// Delete selected text for all selections, from the last selection
    /// back to the first; say whether all of it was done, and report what
    /// became of the selections, see [`edit_changes`]. The deletion stops at
    /// a selection whose text cannot be deleted, see
    /// [`Contents::can_delete`].
    ///
    /// All selections will have length equal 1.
    ///
    /// In a text whose lines end in a line feed, alone or behind a carriage
    /// return, a single selection on the slots of the text is deleted, and
    /// so are selections that each lie on one line short of its last slot;
    /// the selections lie on the slots of the text afterwards.
    pub fn delete(&mut self) -> (r: (bool, Vec<Delta>))
        requires
            old(self)@.well_formed(),
        ensures
            (final(self)@, r.0) == deleting(old(self)@, old(self)@.store.selections.last()),
            reported(r.1@) == edit_changes(
                old(self)@.store.selections,
                final(self)@.store.selections,
            ),
            all_of(r.1@, final(self)@),
            final(self)@.well_formed(),
            r.0 ==> final(self)@.store.all_points(),
            old(self)@.coherent() && old(self)@.store.selections.len() == 1 ==> r.0,
            old(self)@.coherent() && old(self)@.store.selections.len() == 1
                && tidy_line_ends(old(self)@.text) ==> final(self)@.coherent(),
            old(self)@.coherent() && tidy_line_ends(old(self)@.text)
                && old(self)@.text.len() < usize::MAX && (forall|i: int|
                0 <= i < old(self)@.store.selections.len() ==> within_a_line(
                    #[trigger] old(self)@.store.selections[i],
                    old(self)@.lines(),
                )) ==> r.0 && final(self)@.coherent(),
    {
        proof {
            law_deleting_leaves_points(self@);
            if self@.coherent() && tidy_line_ends(self@.text)
                && self@.text.len() < usize::MAX && (forall|i: int|
                0 <= i < self@.store.selections.len() ==> within_a_line(
                    #[trigger] self@.store.selections[i],
                    self@.lines(),
                )) {
                law_deleting_within_lines(self@);
            }
            if self@.coherent() && self@.store.selections.len() == 1 {
                law_deleting_alone(self@);
                assert(self@.store.selections.last() == self@.store.selections[0]);
            }
        }
        let found = self.selection_storage.iter();
        let mut s = self.selection_storage.last();
        let mut done = false;
        loop
            invariant_except_break
                self@.well_formed(),
                s@.well_formed(),
                deleting(self@, s@) == deleting(old(self)@, old(self)@.store.selections.last()),
            ensures
                (self@, done) == deleting(old(self)@, old(self)@.store.selections.last()),
                self@.well_formed(),
            decreases s@.from.line, s@.from.col,
        {
            let next = self.selection_storage.get_first_before(&s);
            proof {
                lemma_first_before(self@.store.selections, s@.from);
            }
            if !self.delete_selection(s) {
                done = false;
                break ;
            }
            match next {
                None => {
                    done = true;
                    break ;
                },
                Some(before) => {
                    s = before;
                },
            }
        }
        let left = self.selection_storage.iter();
        let deltas = edit_deltas(&found, &left);
        (done, DeltaType::bind_vec(deltas, self))
    }
}

/// Buffers are equal if they are one buffer. Which buffer a reference
/// leads to is not a matter of values: buffers found equal hold the same,
/// and no more can be said.
impl PartialEq for Buffer {
    fn eq(&self, rhs: &Self) -> (r: bool)
        ensures
            r ==> self@ == rhs@,
    {
        same_buffer(self, rhs)
    }
}

impl PartialEqSpecImpl for Buffer {
    open spec fn obeys_eq_spec() -> bool {
        false
    }

    open spec fn eq_spec(&self, rhs: &Self) -> bool {
        self@ == rhs@
    }
}

/// The selections as those of `buffer`.
fn bind_selections<'a>(selections: Vec<SelectionUnbound>, buffer: &'a Buffer) -> (r: Vec<
    Selection<'a>,
>)
    ensures
        r@.len() == selections@.len(),
        forall|i: int|
            0 <= i < r@.len() ==> (#[trigger] r@[i]).selection == selections@[i] && r@[i].buffer
                == buffer,
{
    let mut r: Vec<Selection<'a>> = Vec::new();
    let mut i: usize = 0;
    while i < selections.len()
        invariant
            i <= selections.len(),
            r@.len() == i,
            forall|k: int|
                0 <= k < i ==> (#[trigger] r@[k]).selection == selections@[k] && r@[k].buffer
                    == buffer,
        decreases selections.len() - i,
    {
        r.push(selections[i].binded(buffer));
        i += 1;
    }
    r
}

impl Buffer {
    /// Return the selections in document order
    pub fn selections_iter(&self) -> (r: Vec<Selection>)
        ensures
            r@.len() == self@.store.selections.len(),
            forall|i: int|
                0 <= i < r@.len() ==> (#[trigger] r@[i]).selection@ == self@.store.selections[i]
                    && r@[i].buffer == self,
    {
        let selections = self.selection_storage.iter();
        assert(forall|i: int|
            0 <= i < selections@.len() ==> (#[trigger] selections@[i])@
                == views(selections@)[i]);
        bind_selections(selections, self)
    }

    /// Create Position with required context; a zero counts as one.
    pub fn create_position(&self, line: usize, col: usize) -> (r: Position)
        ensures
            r.position@ == (Pos {
                line: at_least_one(line as int),
                col: at_least_one(col as int),
            }),
            r.buffer == self,
    {
        PositionUnbound::new(line, col).binded(self)
    }

    /// Return the selections since `line`: those that do not end before
    /// it, in document order.
    pub fn selections_at(&self, line: usize) -> (r: Vec<Selection>)
        ensures
            r@.len() == self@.store.selections.filter(
                ends_by(Pos { line: at_least_one(line as int), col: 1 }),
            ).len(),
            forall|i: int|
                0 <= i < r@.len() ==> (#[trigger] r@[i]).selection@
                    == self@.store.selections.filter(
                    ends_by(Pos { line: at_least_one(line as int), col: 1 }),
                )[i] && r@[i].buffer == self,
    {
        let position = PositionUnbound::new(line, 1);
        let selections = self.selection_storage.iter_from(&position);
        assert(forall|i: int|
            0 <= i < selections@.len() ==> (#[trigger] selections@[i])@
                == views(selections@)[i]);
        bind_selections(selections, self)
    }
}

impl Buffer {
    /// Put `storage` in the place of the selections of the buffer.
    pub fn set_selections(&mut self, storage: SelectionStorage)
        requires
            old(self)@.well_formed(),
            storage@.well_formed(),
        ensures
            final(self)@ == (Contents { text: old(self)@.text, store: storage@ }),
            final(self)@.well_formed(),
    {
        self.selection_storage = storage;
    }

    /// Whether both ends of every selection name slots of the text.
    pub fn is_coherent(&self) -> (r: bool)
        requires
            self@.well_formed(),
        ensures
            r == self@.coherent(),
    {
        let selections = self.selection_storage.iter();
        let ghost sels = self@.store.selections;
        let mut k: usize = 0;
        while k < selections.len()
            invariant
                k <= selections.len(),
                self@.well_formed(),
                sels == self@.store.selections,
                sels == views(selections@),
                forall|i: int| 0 <= i < k ==> (#[trigger] sels[i]).within(self@.lines()),
            decreases selections.len() - k,
        {
            assert(selections@[k as int]@ == sels[k as int]);
            if !self.holds(&selections[k].from) || !self.holds(&selections[k].to) {
                return false;
            }
            k += 1;
        }
        true
    }

    /// Put `text` into the text before the character in column slot `col`
    /// of line `line`, and leave the selections as they are.
    pub fn insert_for_test(&mut self, line: usize, col: usize, text: &str)
        requires
            old(self)@.well_formed(),
            (Pos { line: line as int, col: col as int }).within(old(self)@.lines()),
            old(self)@.text.len() + text@.len() <= usize::MAX,
        ensures
            final(self)@ == (Contents {
                text: with_inserted(
                    old(self)@.text,
                    char_index(old(self)@.text, line as int, col as int),
                    text@,
                ),
                store: old(self)@.store,
            }),
            final(self)@.well_formed(),
    {
        proof {
            lemma_index_within(self@.text, Pos { line: line as int, col: col as int });
        }
        let ch = self.rope.line_to_char(line - 1) + (col - 1);
        self.rope.insert(ch, text);
        measure(&self.rope);
    }

    /// Take the characters from one slot of the text to another out of it,
    /// the line feed of the last line with them if the second slot is the
    /// last of its line, and leave the selections as they are.
    pub fn delete_for_test(
        &mut self,
        from_line: usize,
        from_col: usize,
        to_line: usize,
        to_col: usize,
    )
        requires
            old(self)@.well_formed(),
            (Sel {
                from: Pos { line: from_line as int, col: from_col as int },
                to: Pos { line: to_line as int, col: to_col as int },
                cursor_direction: CursorDirection::Forward,
                sticky_column: None,
            }).well_formed(),
            (Sel {
                from: Pos { line: from_line as int, col: from_col as int },
                to: Pos { line: to_line as int, col: to_col as int },
                cursor_direction: CursorDirection::Forward,
                sticky_column: None,
            }).within(old(self)@.lines()),
            old(self)@.tail_index(
                Sel {
                    from: Pos { line: from_line as int, col: from_col as int },
                    to: Pos { line: to_line as int, col: to_col as int },
                    cursor_direction: CursorDirection::Forward,
                    sticky_column: None,
                },
            ) < old(self)@.text.len(),
        ensures
            final(self)@ == (Contents {
                text: old(self)@.without(
                    Sel {
                        from: Pos { line: from_line as int, col: from_col as int },
                        to: Pos { line: to_line as int, col: to_col as int },
                        cursor_direction: CursorDirection::Forward,
                        sticky_column: None,
                    },
                ).text,
                store: old(self)@.store,
            }),
            final(self)@.well_formed(),
    {
        let ghost s = Sel {
            from: Pos { line: from_line as int, col: from_col as int },
            to: Pos { line: to_line as int, col: to_col as int },
            cursor_direction: CursorDirection::Forward,
            sticky_column: None,
        };
        proof {
            lemma_rope_lines(self.rope);
            lemma_delete_range(self@, s);
            lemma_index_within(self@.text, s.from);
            lemma_index_within(self@.text, s.to);
        }
        let ch_from = self.rope.line_to_char(from_line - 1) + (from_col - 1);
        let at_line_end = match self.rope.line_length(to_line) {
            Some(length) => to_col == length,
            None => false,
        };
        let ch_to: usize = if at_line_end {
            let next = self.rope.line_to_char(to_line);
            if next > 0 {
                next - 1
            } else {
                0
            }
        } else {
            self.rope.line_to_char(to_line - 1) + (to_col - 1)
        };
        rope_remove(&mut self.rope, ch_from, ch_to + 1);
        measure(&self.rope);
    }
}

} // verus!
