//! The rope that holds the text of a buffer, and what is taken on trust of
//! it.
use crate::LineLength;
use crate::text::{
    content_end, is_line_end_char, lemma_line_starts, line_count, line_start, slots, with_inserted,
    with_removed,
};
use vstd::prelude::*;

verus! {

/// The rope of ropey.
#[verifier::external_type_specification]
#[verifier::external_body]
pub struct ExRope(ropey::Rope);

/// The error of input and output of the standard library.
#[verifier::external_type_specification]
#[verifier::external_body]
pub struct ExIoError(std::io::Error);

/// The characters that a rope holds, in order.
pub uninterp spec fn rope_text(rope: ropey::Rope) -> Seq<char>;

/// `Rope::from_str` makes a rope that holds the characters of `text`.
pub assume_specification[ ropey::Rope::from_str ](text: &str) -> (rope: ropey::Rope)
    ensures
        rope_text(rope) == text@,
;

/// `Rope::len_chars` is the number of characters that the rope holds.
pub assume_specification[ ropey::Rope::len_chars ](rope: &ropey::Rope) -> (n: usize)
    ensures
        n == rope_text(*rope).len(),
;

/// `Rope::len_lines` is the number of lines of the rope. Built without the
/// features for other line breaks, ropey takes the line feed for the one
/// line break, and counts one line more than line breaks.
pub assume_specification[ ropey::Rope::len_lines ](rope: &ropey::Rope) -> (n: usize)
    ensures
        n == line_count(rope_text(*rope)),
;

/// `Rope::line_to_char` is the index of the first character of a line,
/// lines counted from 0. It takes the line behind the last one too, and
/// panics beyond that.
pub assume_specification[ ropey::Rope::line_to_char ](rope: &ropey::Rope, line_idx: usize) -> (n:
    usize)
    requires
        line_idx <= line_count(rope_text(*rope)),
    ensures
        n == line_start(rope_text(*rope), line_idx as int),
;

/// `Rope::char` is the character at an index, and panics where there is
/// none.
pub assume_specification[ ropey::Rope::char ](rope: &ropey::Rope, char_idx: usize) -> (c: char)
    requires
        char_idx < rope_text(*rope).len(),
    ensures
        c == rope_text(*rope)[char_idx as int],
;

/// `Rope::insert` puts `text` in before the character at an index, and
/// panics where the index is beyond the end.
pub assume_specification[ ropey::Rope::insert ](rope: &mut ropey::Rope, char_idx: usize, text: &str)
    requires
        char_idx <= rope_text(*old(rope)).len(),
        rope_text(*old(rope)).len() + text@.len() <= usize::MAX,
    ensures
        rope_text(*final(rope)) == with_inserted(rope_text(*old(rope)), char_idx as int, text@),
;

/// `Rope::remove` on the range `from..to`: it takes these characters out,
/// and panics where the range is out of order or reaches beyond the end.
#[verifier::external_body]
pub(crate) fn rope_remove(rope: &mut ropey::Rope, from: usize, to: usize)
    requires
        from <= to <= rope_text(*old(rope)).len(),
    ensures
        rope_text(*final(rope)) == with_removed(rope_text(*old(rope)), from as int, to as int),
{
    rope.remove(from..to)
}

/// `Rope::from_reader` on bytes in memory, which never fail to be read: it
/// makes the rope of the text that the bytes encode in UTF-8, and fails if
/// they encode none.
#[verifier::external_body]
pub(crate) fn rope_from_bytes(bytes: &[u8]) -> (r: Result<ropey::Rope, std::io::Error>)
    ensures
        r is Ok <==> vstd::utf8::valid_utf8(bytes@),
        r matches Ok(rope) ==> rope_text(rope) == vstd::utf8::decode_utf8(bytes@),
{
    ropey::Rope::from_reader(bytes)
}

/// The `Display` of an error of input and output, through `to_string`:
/// the words that the standard library has for it.
#[verifier::external_body]
pub(crate) fn io_error_message(error: &std::io::Error) -> String {
    error.to_string()
}

/// The `Display` of a rope, through `to_string`: the characters that it
/// holds.
#[verifier::external_body]
pub(crate) fn rope_to_string(rope: &ropey::Rope) -> (r: String)
    ensures
        r@ == rope_text(*rope),
{
    rope.to_string()
}

/// What a rope says of its lines: the slots of each, see [`slots`], as far
/// as the machine can count them.
impl LineLength for ropey::Rope {
    open spec fn spec_line_length(&self, line: usize) -> Option<usize> {
        if 1 <= line <= line_count(rope_text(*self)) {
            Some(
                if slots(rope_text(*self), line as int) <= usize::MAX {
                    slots(rope_text(*self), line as int) as usize
                } else {
                    usize::MAX
                },
            )
        } else {
            None
        }
    }

    open spec fn spec_lines_count(&self) -> usize {
        line_count(rope_text(*self)) as usize
    }

    fn line_length(&self, line: usize) -> (r: Option<usize>) {
        // `line` arg is starting from 1
        if line > 0 && line <= self.len_lines() {
            let ghost text = rope_text(*self);
            proof {
                lemma_line_starts(text, line - 1);
            }
            let start = self.line_to_char(line - 1);
            let mut end = self.line_to_char(line);
            while end > start && is_line_end(self.char(end - 1))
                invariant
                    start <= end <= rope_text(*self).len(),
                    content_end(rope_text(*self), start as int, end as int) == content_end(
                        rope_text(*self),
                        start as int,
                        line_start(rope_text(*self), line as int),
                    ),
                decreases end,
            {
                end -= 1;
            }
            Some(
                if end - start < usize::MAX {
                    end - start + 1
                } else {
                    usize::MAX
                },
            )
        } else {
            None
        }
    }

    fn lines_count(&self) -> (r: usize) {
        self.len_lines()
    }
}

/// Whether a character belongs to the end of a line.
pub fn is_line_end(c: char) -> (r: bool)
    ensures
        r == is_line_end_char(c),
{
    c == '\n' || c == '\r'
}

/// Learn that `rope` counts its characters and its lines in numbers of the
/// machine.
pub(crate) fn measure(rope: &ropey::Rope)
    ensures
        rope_text(*rope).len() <= usize::MAX,
        line_count(rope_text(*rope)) <= usize::MAX,
{
    let _ = rope.len_chars();
    let _ = rope.len_lines();
}

} // verus!
