//! A buffer as a mathematical value, and what editing makes of it.
use crate::{Change, Delta, Lines, lines_of};
use crate::rope::rope_text;
use crate::runs::runs;
use crate::selections::{Pos, Sel};
use crate::selections::storage::{first_before, lemma_first_before, Store};
use crate::text::{
    char_index, inserted_at_all, lemma_content_end, lemma_line_starts, lemma_line_starts_in_order,
    lemma_slots, line_count, line_feed_flags, line_start, slots, with_removed,
};
use vstd::prelude::*;

verus! {

/// The lines of `text` as selections see them: every line of the text has
/// its slots, as far as the machine can count them.
pub open spec fn text_lines(text: Seq<char>) -> Lines {
    Lines {
        lengths: Map::new(
            |line: int| 1 <= line <= line_count(text),
            |line: int|
                if slots(text, line) <= usize::MAX {
                    slots(text, line)
                } else {
                    usize::MAX as int
                },
        ),
        count: line_count(text),
    }
}

/// The lines of a text are well-formed.
pub proof fn lemma_text_lines(text: Seq<char>)
    ensures
        text_lines(text).well_formed(),
{
    lemma_line_starts(text, 0);
    assert forall|line: int| #[trigger]
        text_lines(text).lengths.contains_key(line) implies 1 <= text_lines(text).lengths[line] by {
        lemma_slots(text, line);
    }
}

/// A rope reports the lines of its text.
pub proof fn lemma_rope_lines(rope: ropey::Rope)
    requires
        line_count(rope_text(rope)) <= usize::MAX,
    ensures
        lines_of(&rope) == text_lines(rope_text(rope)),
{
    let text = rope_text(rope);
    lemma_line_starts(text, 0);
    assert forall|line: int| #[trigger]
        lines_of(&rope).lengths.contains_key(line) == text_lines(text).lengths.contains_key(
            line,
        ) by {
        if 0 <= line <= usize::MAX {
            assert(line as usize == line);
        }
    }
    assert forall|line: int| #[trigger]
        lines_of(&rope).lengths.contains_key(line) implies lines_of(&rope).lengths[line]
        == text_lines(text).lengths[line] by {
        assert(line as usize == line);
        lemma_slots(text, line);
    }
    assert(lines_of(&rope).lengths =~= text_lines(text).lengths);
}

/// A position that names a slot of a text names a place in it: the index
/// of its character is no greater than where its line ends.
pub proof fn lemma_index_within(text: Seq<char>, p: Pos)
    requires
        p.within(text_lines(text)),
    ensures
        0 <= line_start(text, p.line - 1) <= char_index(text, p.line, p.col) <= line_start(
            text,
            p.line,
        ) <= text.len(),
        p.col <= slots(text, p.line),
{
    lemma_line_starts(text, p.line - 1);
    lemma_content_end(text, line_start(text, p.line - 1), line_start(text, p.line));
}

/// The characters that go with a well-formed selection on the slots of a
/// text are a stretch of the text.
pub proof fn lemma_delete_range(c: Contents, s: Sel)
    requires
        s.well_formed(),
        s.within(c.lines()),
    ensures
        0 <= c.head_index(s) <= c.tail_index(s) + 1,
        c.head_index(s) <= c.text.len(),
        0 <= c.tail_index(s),
{
    lemma_index_within(c.text, s.from);
    lemma_index_within(c.text, s.to);
    if s.from.line < s.to.line {
        lemma_line_starts_in_order(c.text, s.from.line, s.to.line - 1);
    }
}

/// The buffer after the text of each selection has been deleted, from `s`
/// back to the first, and whether all of them could be: see
/// [`Contents::can_delete`]. The selection that comes next is the last that
/// ends before the one just deleted began, as the selections stood before
/// that deletion.
pub open spec fn deleting(c: Contents, s: Sel) -> (Contents, bool)
    decreases s.from.line, s.from.col,
{
    if !c.can_delete(s) {
        (c, false)
    } else {
        match first_before(c.store.selections, s.from) {
            None => (c.without(s), true),
            Some(next) => {
                proof {
                    lemma_first_before(c.store.selections, s.from);
                }
                deleting(c.without(s), next)
            },
        }
    }
}

/// A buffer as a mathematical value: the characters of its text, and its
/// selections.
pub struct Contents {
    pub text: Seq<char>,
    pub store: Store,
}

impl Contents {
    /// The lines of the text.
    pub open spec fn lines(self) -> Lines {
        text_lines(self.text)
    }

    /// The selections are a well-formed set, and the text is no longer than
    /// the machine can count.
    pub open spec fn well_formed(self) -> bool {
        &&& self.store.well_formed()
        &&& self.text.len() <= usize::MAX
        &&& line_count(self.text) <= usize::MAX
    }

    /// Both ends of every selection name slots of the text.
    pub open spec fn coherent(self) -> bool {
        forall|i: int|
            0 <= i < self.store.selections.len() ==> (#[trigger] self.store.selections[i]).within(
                self.lines(),
            )
    }

    /// For each selection the index in the text of the character at its
    /// cursor.
    pub open spec fn cursor_indices(self) -> Seq<int> {
        self.store.selections.map_values(
            |s: Sel| char_index(self.text, s.cursor().line, s.cursor().col),
        )
    }

    /// Every cursor names a slot of the text.
    pub open spec fn cursors_within(self) -> bool {
        forall|i: int|
            0 <= i < self.store.selections.len() ==> (
            #[trigger] self.store.selections[i]).cursor().within(self.lines())
    }

    /// Whether `inserted` can be typed at every cursor: the cursors name
    /// slots of the text, and the text and the selections are made of
    /// numbers of the machine afterwards.
    pub open spec fn takes(self, inserted: Seq<char>) -> bool {
        &&& self.cursors_within()
        &&& self.text.len() + self.store.selections.len() * inserted.len() <= usize::MAX
        &&& self.store.typed_fits(
            line_feed_flags(inserted),
            runs(line_feed_flags(inserted)).len() as int,
        )
    }

    /// The buffer after `inserted` has been typed at every cursor: the
    /// text holds it before the character at each cursor, and every selection
    /// stands behind its copy, or has grown to hold it.
    pub open spec fn inserted(self, inserted: Seq<char>) -> Contents {
        Contents {
            text: inserted_at_all(self.text, self.cursor_indices(), inserted),
            store: self.store.typed(
                line_feed_flags(inserted),
                runs(line_feed_flags(inserted)).len() as int,
            ),
        }
    }

    /// The index in the text of the first character of `s`.
    pub open spec fn head_index(self, s: Sel) -> int {
        char_index(self.text, s.from.line, s.from.col)
    }

    /// The index in the text of the last character that goes with `s`: the
    /// character at its tail, or the line feed of its last line if its tail
    /// is the last slot of that line.
    pub open spec fn tail_index(self, s: Sel) -> int {
        if s.to.col == self.lines().lengths[s.to.line] {
            if line_start(self.text, s.to.line) >= 1 {
                line_start(self.text, s.to.line) - 1
            } else {
                0
            }
        } else {
            char_index(self.text, s.to.line, s.to.col)
        }
    }

    /// Whether the text of `s` can be deleted: both ends name slots of the
    /// text, and the selections are made of numbers of the machine
    /// afterwards.
    pub open spec fn can_delete(self, s: Sel) -> bool {
        &&& self.well_formed()
        &&& s.well_formed()
        &&& s.within(self.lines())
        &&& self.store.delete_fits(s, self.lines())
    }

    /// The buffer after the text of `s` has been deleted: the characters
    /// from its head to its tail are gone, unless the tail stands behind the
    /// last character of the text, and the selections are as
    /// [`Store::deleted`] says.
    pub open spec fn without(self, s: Sel) -> Contents {
        Contents {
            text: if self.tail_index(s) < self.text.len() {
                with_removed(self.text, self.head_index(s), self.tail_index(s) + 1)
            } else {
                self.text
            },
            store: self.store.deleted(s, self.lines()),
        }
    }

    /// An empty text with the bare cursor on its one slot.
    pub open spec fn fresh() -> Contents {
        Contents { text: Seq::empty(), store: Store::fresh() }
    }
}

/// A fresh set of selections lies on the slots of any text.
pub proof fn lemma_fresh_is_coherent(text: Seq<char>)
    ensures
        (Contents { text: text, store: Store::fresh() }).coherent(),
{
    lemma_text_lines(text);
    lemma_line_starts(text, 0);
    assert(text_lines(text).lengths.contains_key(1));
}

/// What an edit reports, the selections having stood as `before` and
/// standing as `after`. Where there are as many as there were, none was
/// merged, and each is reported as changed from what it was to what it is,
/// one for one. Where some were merged, the selections that were are
/// reported as deleted, and those that are as added.
pub open spec fn edit_changes(before: Seq<Sel>, after: Seq<Sel>) -> Seq<Change> {
    if before.len() == after.len() {
        Seq::new(
            before.len(),
            |i: int| Change::SelectionChanged { identity: before[i].from, new_state: after[i] },
        )
    } else {
        before.map_values(|s: Sel| Change::SelectionDeleted { identity: s.from })
            + after.map_values(|s: Sel| Change::SelectionAdded { selection: s })
    }
}

/// Whether every delta is one of a buffer that holds `contents`.
pub open spec fn all_of(deltas: Seq<Delta>, contents: Contents) -> bool {
    forall|i: int| 0 <= i < deltas.len() ==> (#[trigger] deltas[i]).buffer@ == contents
}

} // verus!
