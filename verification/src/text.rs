//! What the characters of a text say about its lines, and what putting
//! characters in and taking them out does to it.
use vstd::prelude::*;

verus! {

/// The number of line feeds in `text`. A line feed ends a line, alone or
/// behind a carriage return; nothing else does.
pub open spec fn line_breaks(text: Seq<char>) -> int
    decreases text.len(),
{
    if text.len() == 0 {
        0
    } else {
        line_breaks(text.drop_last()) + if text.last() == '\n' {
            1int
        } else {
            0int
        }
    }
}

/// The number of lines of `text`: one more than it has line feeds, so that
/// a text that ends in a line feed has an empty last line.
pub open spec fn line_count(text: Seq<char>) -> int {
    line_breaks(text) + 1
}

/// The index of the first character of line `line` of `text`, lines counted
/// from 0: the index behind the line feed that ends the line before it. For
/// the line behind the last one it is the length of the text.
pub open spec fn line_start(text: Seq<char>, line: int) -> int
    decreases text.len(),
{
    if line <= 0 || text.len() == 0 {
        0
    } else if line_breaks(text.drop_last()) >= line {
        line_start(text.drop_last(), line)
    } else {
        text.len() as int
    }
}

/// Whether a character belongs to the end of a line rather than to what
/// the line says.
pub open spec fn is_line_end_char(c: char) -> bool {
    c == '\n' || c == '\r'
}

/// Where the stretch `from..to` of `text` ends once the line-end characters
/// at its end are left off.
pub open spec fn content_end(text: Seq<char>, from: int, to: int) -> int
    decreases to - from,
{
    if from < to <= text.len() && is_line_end_char(text[to - 1]) {
        content_end(text, from, to - 1)
    } else {
        to
    }
}

/// The number of column slots on line `line` of `text`, lines counted from
/// 1: one for each character of the line but for the line-end characters at
/// its end, and one more where the cursor stands behind them.
pub open spec fn slots(text: Seq<char>, line: int) -> int {
    content_end(text, line_start(text, line - 1), line_start(text, line)) - line_start(
        text,
        line - 1,
    ) + 1
}

/// The index in `text` of the character in column slot `col` of line
/// `line`, both counted from 1.
pub open spec fn char_index(text: Seq<char>, line: int, col: int) -> int {
    line_start(text, line - 1) + col - 1
}

/// `text` with `inserted` put in before index `at`.
pub open spec fn with_inserted(text: Seq<char>, at: int, inserted: Seq<char>) -> Seq<char> {
    text.subrange(0, at) + inserted + text.subrange(at, text.len() as int)
}

/// `text` without the characters `from..to`.
pub open spec fn with_removed(text: Seq<char>, from: int, to: int) -> Seq<char> {
    text.subrange(0, from) + text.subrange(to, text.len() as int)
}

/// The lines of a text begin within it, in order.
pub proof fn lemma_line_starts(text: Seq<char>, line: int)
    ensures
        0 <= line_breaks(text) <= text.len(),
        0 <= line_start(text, line) <= line_start(text, line + 1) <= text.len(),
        line > line_breaks(text) ==> line_start(text, line) == text.len(),
    decreases text.len(),
{
    if text.len() > 0 {
        lemma_line_starts(text.drop_last(), line);
        lemma_line_starts(text.drop_last(), line + 1);
    }
}

/// A later line begins no earlier.
pub proof fn lemma_line_starts_in_order(text: Seq<char>, first: int, second: int)
    requires
        first <= second,
    ensures
        0 <= line_start(text, first) <= line_start(text, second) <= text.len(),
    decreases second - first,
{
    lemma_line_starts(text, first);
    if first < second {
        lemma_line_starts_in_order(text, first + 1, second);
    }
}

/// `text` after `inserted` has been put in at each of `offsets`, the last
/// of them first, so that what is put in does not move the places before
/// it.
pub open spec fn inserted_at_all(text: Seq<char>, offsets: Seq<int>, inserted: Seq<char>) -> Seq<
    char,
>
    decreases offsets.len(),
{
    if offsets.len() == 0 {
        text
    } else {
        inserted_at_all(with_inserted(text, offsets.last(), inserted), offsets.drop_last(), inserted)
    }
}

/// `text` after `length` characters have been taken out at each of
/// `starts`, the last of them first.
pub open spec fn removed_at_all(text: Seq<char>, starts: Seq<int>, length: int) -> Seq<char>
    decreases starts.len(),
{
    if starts.len() == 0 {
        text
    } else {
        removed_at_all(
            with_removed(text, starts.last(), starts.last() + length),
            starts.drop_last(),
            length,
        )
    }
}

/// Where the copies of a text of `length` characters begin once it has
/// been put in at each of `offsets`: every copy before one moves it on by
/// `length`.
pub open spec fn copy_starts(offsets: Seq<int>, length: int) -> Seq<int> {
    Seq::new(offsets.len(), |i: int| offsets[i] + i * length)
}

/// Taking out what was put in gives the text back.
pub proof fn law_insert_then_remove(text: Seq<char>, at: int, inserted: Seq<char>)
    requires
        0 <= at <= text.len(),
    ensures
        with_removed(with_inserted(text, at, inserted), at, at + inserted.len()) == text,
{
    assert(with_removed(with_inserted(text, at, inserted), at, at + inserted.len()) =~= text);
}

/// What is put in at offsets up to `end` leaves the text from `end` on as
/// it is.
pub proof fn lemma_inserted_before(text: Seq<char>, offsets: Seq<int>, inserted: Seq<char>, end: int)
    requires
        0 <= end <= text.len(),
        forall|i: int| 0 <= i < offsets.len() ==> 0 <= #[trigger] offsets[i] <= end,
    ensures
        inserted_at_all(text, offsets, inserted) == inserted_at_all(
            text.take(end),
            offsets,
            inserted,
        ) + text.skip(end),
        inserted_at_all(text, offsets, inserted).len() == text.len() + offsets.len()
            * inserted.len(),
    decreases offsets.len(),
{
    if offsets.len() == 0 {
        assert(text =~= text.take(end) + text.skip(end));
    } else {
        let at = offsets.last();
        let grown = with_inserted(text, at, inserted);
        let further = end + inserted.len();
        assert(grown.take(further) =~= with_inserted(text.take(end), at, inserted));
        assert(grown.skip(further) =~= text.skip(end));
        lemma_inserted_before(grown, offsets.drop_last(), inserted, further);
        assert((offsets.len() - 1) * inserted.len() + inserted.len() == offsets.len()
            * inserted.len()) by (nonlinear_arith);
    }
}

/// Typing a text at several places and then deleting just what was typed
/// gives the text back: where `inserted` is put in at each of `offsets`,
/// which are in order, taking as many characters out again where each copy
/// begins leaves `text`.
pub proof fn law_insert_all_then_remove(text: Seq<char>, offsets: Seq<int>, inserted: Seq<char>)
    requires
        forall|i: int| 0 <= i < offsets.len() ==> 0 <= #[trigger] offsets[i] <= text.len(),
        forall|i: int, j: int| 0 <= i < j < offsets.len() ==> offsets[i] <= offsets[j],
    ensures
        removed_at_all(
            inserted_at_all(text, offsets, inserted),
            copy_starts(offsets, inserted.len() as int),
            inserted.len() as int,
        ) == text,
    decreases offsets.len(),
{
    if offsets.len() > 0 {
        let length = inserted.len() as int;
        let at = offsets.last();
        let rest = offsets.drop_last();
        let grown = with_inserted(text, at, inserted);
        let starts = copy_starts(offsets, length);
        // all that is put in before `at` leaves the last copy and what is
        // behind it as they are
        lemma_inserted_before(grown, rest, inserted, at);
        lemma_inserted_before(text, rest, inserted, at);
        let front = inserted_at_all(text.take(at), rest, inserted);
        assert(grown.take(at) =~= text.take(at));
        assert(grown.skip(at) =~= inserted + text.skip(at));
        lemma_inserted_before(text.take(at), rest, inserted, at);
        assert(text.take(at).take(at) =~= text.take(at));
        assert(front.len() == at + rest.len() * length);
        assert(starts.last() == at + rest.len() * length);
        let all = inserted_at_all(text, offsets, inserted);
        assert(all == front + (inserted + text.skip(at)));
        assert(with_removed(all, starts.last(), starts.last() + length) =~= front + text.skip(at));
        assert(starts.drop_last() =~= copy_starts(rest, length));
        law_insert_all_then_remove(text, rest, inserted);
    }
}

/// For each character whether it is a line feed: 1 if it is, 0 if not.
pub open spec fn line_feed_flags(text: Seq<char>) -> Seq<usize> {
    text.map_values(
        |c: char|
            if c == '\n' {
                1usize
            } else {
                0usize
            },
    )
}

/// The line feeds of two texts put together are those of the one and those
/// of the other.
pub proof fn lemma_line_breaks_of_both(a: Seq<char>, b: Seq<char>)
    ensures
        line_breaks(a + b) == line_breaks(a) + line_breaks(b),
    decreases b.len(),
{
    if b.len() == 0 {
        assert(a + b =~= a);
    } else {
        assert((a + b).drop_last() =~= a + b.drop_last());
        lemma_line_breaks_of_both(a, b.drop_last());
    }
}

/// Where the lines of two texts put together begin: a line of the first
/// where it begins there, and a line of the second as far behind the first
/// as it begins in the second.
pub proof fn lemma_line_start_of_both(a: Seq<char>, b: Seq<char>, line: int)
    requires
        line >= 0,
    ensures
        line_start(a + b, line) == if line <= line_breaks(a) {
            line_start(a, line)
        } else {
            a.len() + line_start(b, line - line_breaks(a))
        },
    decreases b.len(),
{
    lemma_line_starts(a, line);
    if b.len() == 0 {
        assert(a + b =~= a);
    } else {
        assert((a + b).drop_last() =~= a + b.drop_last());
        lemma_line_breaks_of_both(a, b.drop_last());
        lemma_line_starts(b.drop_last(), 0);
        lemma_line_start_of_both(a, b.drop_last(), line);
    }
}

/// Every line but the first begins behind a line feed, and behind as many
/// line feeds as lines come before it; and it begins behind the line before
/// it.
pub proof fn lemma_line_begins_behind_feed(text: Seq<char>, line: int)
    requires
        1 <= line <= line_breaks(text),
    ensures
        line_start(text, line - 1) < line_start(text, line) <= text.len(),
        text[line_start(text, line) - 1] == '\n',
        line_breaks(text.take(line_start(text, line))) == line,
    decreases text.len(),
{
    lemma_line_starts(text, line - 1);
    let rest = text.drop_last();
    lemma_line_starts(rest, line - 1);
    if line_breaks(rest) >= line {
        lemma_line_begins_behind_feed(rest, line);
        assert(rest.take(line_start(rest, line)) =~= text.take(line_start(text, line)));
    } else {
        assert(text.take(text.len() as int) =~= text);
        // the line before begins within the rest
        if line - 1 >= 1 {
            lemma_line_begins_behind_feed(rest, line - 1);
        }
    }
}

/// The characters of a line before the line feed that ends it are no line
/// feeds: as many line feeds stand before a place on a line as lines come
/// before that line.
pub proof fn lemma_line_breaks_before(text: Seq<char>, line: int, at: int)
    requires
        0 <= line <= line_breaks(text),
        line_start(text, line) <= at <= text.len(),
        line < line_breaks(text) ==> at < line_start(text, line + 1),
    ensures
        line_breaks(text.take(at)) == line,
{
    lemma_line_starts(text, line);
    let front = text.take(at);
    let back = text.skip(at);
    assert(text =~= front + back);
    lemma_line_breaks_of_both(front, back);
    lemma_line_starts(front, line);
    lemma_line_starts(back, 0);
    lemma_line_start_of_both(front, back, line);
    lemma_line_start_of_both(front, back, line + 1);
    lemma_line_starts(front, line + 1);
    if line_breaks(front) < line {
        // the line would begin behind `at`, or at it behind nothing
        lemma_line_begins_in(back, line - line_breaks(front));
    } else if line_breaks(front) > line {
        // the next line would begin by `at`
        lemma_line_starts(front, line + 1);
    }
}

/// A line behind the first of a text that is not empty begins behind a
/// character.
pub proof fn lemma_line_begins_in(text: Seq<char>, line: int)
    requires
        line >= 1,
        text.len() > 0,
    ensures
        line_start(text, line) >= 1,
    decreases text.len(),
{
    let rest = text.drop_last();
    if line_breaks(rest) >= line {
        lemma_line_starts(rest, 0);
        lemma_line_begins_in(rest, line);
    }
}

/// The content of a stretch reaches every place of the stretch that
/// stands at its start or behind a character that is no line-end
/// character.
pub proof fn lemma_content_reaches(text: Seq<char>, from: int, to: int, at: int)
    requires
        0 <= from <= at <= to <= text.len(),
        at == from || !is_line_end_char(text[at - 1]),
    ensures
        at <= content_end(text, from, to),
    decreases to - at,
{
    if at < to && is_line_end_char(text[to - 1]) {
        lemma_content_reaches(text, from, to - 1, at);
    }
}

/// What stands in a stretch behind its content is line-end characters.
pub proof fn lemma_content_tail(text: Seq<char>, from: int, to: int, at: int)
    requires
        0 <= from <= to <= text.len(),
        content_end(text, from, to) <= at < to,
    ensures
        is_line_end_char(text[at]),
    decreases to - from,
{
    if from < to && is_line_end_char(text[to - 1]) && at < to - 1 {
        lemma_content_tail(text, from, to - 1, at);
    }
}

/// The content of a stretch ends at the place behind which the stretch
/// holds line-end characters only, and which begins the stretch or stands
/// behind a character that is no line-end character.
pub proof fn lemma_content_ends_at(text: Seq<char>, from: int, to: int, at: int)
    requires
        0 <= from <= at <= to <= text.len(),
        forall|k: int| at <= k < to ==> is_line_end_char(#[trigger] text[k]),
        at == from || !is_line_end_char(text[at - 1]),
    ensures
        content_end(text, from, to) == at,
    decreases to - at,
{
    if at < to {
        lemma_content_ends_at(text, from, to - 1, at);
    }
}

/// The content of a stretch ends within it.
pub proof fn lemma_content_end(text: Seq<char>, from: int, to: int)
    requires
        from <= to,
    ensures
        from <= content_end(text, from, to) <= to,
    decreases to - from,
{
    if from < to <= text.len() && is_line_end_char(text[to - 1]) {
        lemma_content_end(text, from, to - 1);
    }
}

/// Every line has the slot behind its last character, and no more slots
/// than the text has characters, and one.
pub proof fn lemma_slots(text: Seq<char>, line: int)
    ensures
        1 <= slots(text, line) <= text.len() + 1,
{
    lemma_line_starts(text, line - 1);
    lemma_content_end(text, line_start(text, line - 1), line_start(text, line));
}

} // verus!
