//! Core of a multi-cursor text editor: a text together with an ordered set
//! of disjoint selections, and the movements and edits that keep the two
//! coherent.
use vstd::prelude::*;
use vstd::string::*;

pub mod buffer;
pub mod deleting;
pub mod lines;
pub mod rope;
pub mod runs;
pub mod selections;
pub mod text;
pub mod typing;
pub mod util;

pub use buffer::Buffer;
pub use ropey::Rope;
pub use selections::{
    CursorDirection, Pos, Position, PositionUnbound, Sel, Selection, SelectionUnbound,
};
pub use util::PositiveUsize;

verus! {

/// Crate's error type
#[derive(Debug)]
pub enum Error {
    /// Failure on buffer creation from `Reader`
    CreateFromReader(std::io::Error),
}

impl Error {
    /// The message of a failure to create a buffer whose cause reads
    /// `cause`: what the error is, and the words of its cause behind that.
    pub fn message_of(cause: &str) -> (r: String)
        ensures
            r@ == "Unable to create buffer with reader: "@ + cause@,
    {
        let mut message = String::from_str("Unable to create buffer with reader: ");
        message.append(cause);
        message
    }

    /// What went wrong, in words: the message of the error for the words
    /// that its cause has for itself, see [`Error::message_of`].
    pub fn to_string(&self) -> (r: String)
        ensures
            r@.len() >= "Unable to create buffer with reader: "@.len(),
            r@.take("Unable to create buffer with reader: "@.len() as int)
                == "Unable to create buffer with reader: "@,
    {
        match self {
            Error::CreateFromReader(error) => {
                let cause = rope::io_error_message(error);
                let message = Error::message_of(cause.as_str());
                assert(message@.take("Unable to create buffer with reader: "@.len() as int)
                    =~= "Unable to create buffer with reader: "@);
                message
            },
        }
    }
}

impl From<std::io::Error> for Error {
    fn from(error: std::io::Error) -> (r: Self)
        ensures
            r == Error::CreateFromReader(error),
    {
        Error::CreateFromReader(error)
    }
}

impl vstd::std_specs::convert::FromSpecImpl<std::io::Error> for Error {
    open spec fn obeys_from_spec() -> bool {
        true
    }

    open spec fn from_spec(error: std::io::Error) -> Self {
        Error::CreateFromReader(error)
    }
}

/// An observable change as a mathematical value: the value of a
/// [`DeltaType`].
pub enum Change {
    /// The selection that `identity` names is now `new_state`.
    SelectionChanged { identity: Pos, new_state: Sel },
    /// `selection` is new.
    SelectionAdded { selection: Sel },
    /// The selection that `identity` names is gone.
    SelectionDeleted { identity: Pos },
    /// Line `idx` now reads `content`.
    LineChanged { idx: int, content: Seq<char> },
}

/// Buffer's feedback for optimal redraws or any other case when full buffer
/// contents not needed
#[derive(Debug, PartialEq)]
pub enum DeltaType<'a> {
    /// A selection identifiable by `identity` moved into `new_state`
    SelectionChanged { identity: PositionUnbound, new_state: SelectionUnbound },
    /// New selection added
    SelectionAdded {
        /// New selection
        selection: SelectionUnbound,
    },
    /// Selection was deleted
    SelectionDeleted {
        /// Deleted selection info
        identity: PositionUnbound,
    },
    /// Line's contents changed
    LineChanged {
        /// Line index
        idx: usize,
        /// Line new content
        content: &'a str,
    },
}

impl<'a> View for DeltaType<'a> {
    type V = Change;

    open spec fn view(&self) -> Change {
        match *self {
            DeltaType::SelectionChanged { identity, new_state } => Change::SelectionChanged {
                identity: identity@,
                new_state: new_state@,
            },
            DeltaType::SelectionAdded { selection } => Change::SelectionAdded {
                selection: selection@,
            },
            DeltaType::SelectionDeleted { identity } => Change::SelectionDeleted {
                identity: identity@,
            },
            DeltaType::LineChanged { idx, content } => Change::LineChanged {
                idx: idx as int,
                content: content@,
            },
        }
    }
}

/// Buffer's feedback for optimal redraws or any other case when full buffer
/// contents not needed
#[derive(Debug, PartialEq)]
pub struct Delta<'a, 'b> {
    pub buffer: &'a Buffer,
    pub delta_type: DeltaType<'b>,
}

impl<'b> DeltaType<'b> {
    /// The delta as one of `buffer`.
    pub fn bind<'a>(self, buffer: &'a Buffer) -> (r: Delta<'a, 'b>)
        ensures
            r.buffer == buffer,
            r.delta_type == self,
    {
        Delta { buffer, delta_type: self }
    }

    /// The deltas as those of `buffer`.
    pub fn bind_vec<'a>(v: Vec<DeltaType<'b>>, buffer: &'a Buffer) -> (r: Vec<Delta<'a, 'b>>)
        ensures
            r@.len() == v@.len(),
            forall|i: int|
                0 <= i < r@.len() ==> (#[trigger] r@[i]).buffer == buffer && r@[i].delta_type
                    == v@[i],
            reported(r@) == changes(v@),
    {
        let mut v = v;
        let ghost unbound = v@;
        let mut turned: Vec<DeltaType<'b>> = Vec::new();
        while v.len() > 0
            invariant
                turned@.len() + v@.len() == unbound.len(),
                forall|i: int| 0 <= i < v@.len() ==> v@[i] == unbound[i],
                forall|i: int|
                    0 <= i < turned@.len() ==> turned@[i] == unbound[unbound.len() - 1 - i],
            decreases v@.len(),
        {
            let delta_type = v.pop().unwrap();
            turned.push(delta_type);
        }
        let mut r: Vec<Delta<'a, 'b>> = Vec::new();
        while turned.len() > 0
            invariant
                r@.len() + turned@.len() == unbound.len(),
                forall|i: int|
                    0 <= i < turned@.len() ==> turned@[i] == unbound[unbound.len() - 1 - i],
                forall|i: int|
                    0 <= i < r@.len() ==> (#[trigger] r@[i]).buffer == buffer && r@[i].delta_type
                        == unbound[i],
            decreases turned@.len(),
        {
            let delta_type = turned.pop().unwrap();
            r.push(delta_type.bind(buffer));
        }
        assert(reported(r@) =~= changes(unbound));
        r
    }
}

/// The changes that a vector of deltas of a buffer reports.
pub open spec fn reported(deltas: Seq<Delta>) -> Seq<Change> {
    deltas.map_values(|d: Delta| d.delta_type@)
}

/// The changes that a vector of deltas reports.
pub open spec fn changes(deltas: Seq<DeltaType>) -> Seq<Change> {
    deltas.map_values(|d: DeltaType| d@)
}

/// The lengths of the lines of a text, as selections see them: a partial map
/// from a one-based line index to the number of column slots on that line,
/// and the number of lines.
pub struct Lines {
    pub lengths: Map<int, int>,
    pub count: int,
}

impl Lines {
    /// Lines `1..=count` are exactly those that have a length, and each has
    /// at least the slot of its line end.
    pub open spec fn well_formed(self) -> bool {
        &&& 1 <= self.count
        &&& forall|l: int| #[trigger] self.lengths.contains_key(l) <==> 1 <= l <= self.count
        &&& forall|l: int| #[trigger] self.lengths.contains_key(l) ==> 1 <= self.lengths[l]
    }
}

/// Trait to provide the information that selections need.
///
/// Selections only ask for the lengths of some lines, so the text itself
/// stays out of their way: anything that knows its line lengths can stand
/// in for it.
pub trait LineLength {
    /// What `line_length` returns.
    spec fn spec_line_length(&self, line: usize) -> Option<usize>;

    /// What `lines_count` returns.
    spec fn spec_lines_count(&self) -> usize;

    /// Return the length of the line specified by `line`, in column slots.
    /// Note the first line has the index equal 1.
    fn line_length(&self, line: usize) -> (r: Option<usize>)
        ensures
            r == self.spec_line_length(line),
    ;

    /// Return the count of lines.
    fn lines_count(&self) -> (r: usize)
        ensures
            r == self.spec_lines_count(),
    ;
}

/// A reference to what knows its line lengths knows them too.
impl<T: LineLength + ?Sized> LineLength for &T {
    open spec fn spec_line_length(&self, line: usize) -> Option<usize> {
        (**self).spec_line_length(line)
    }

    open spec fn spec_lines_count(&self) -> usize {
        (**self).spec_lines_count()
    }

    fn line_length(&self, line: usize) -> (r: Option<usize>) {
        (*self).line_length(line)
    }

    fn lines_count(&self) -> (r: usize) {
        (*self).lines_count()
    }
}

/// The line lengths that `l` reports, as a mathematical value.
pub open spec fn lines_of<L: LineLength + ?Sized>(l: &L) -> Lines {
    Lines {
        lengths: Map::new(
            |i: int| 0 <= i <= usize::MAX && l.spec_line_length(i as usize) is Some,
            |i: int| l.spec_line_length(i as usize).unwrap() as int,
        ),
        count: l.spec_lines_count() as int,
    }
}

} // verus!
