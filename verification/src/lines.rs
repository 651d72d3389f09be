//! A table of line lengths: a stand-in for a text where only the lengths of
//! some lines matter.
use crate::LineLength;
use std::collections::HashMap;
use vstd::prelude::*;

verus! {

broadcast use vstd::std_specs::hash::group_hash_axioms;

/// Whether `key` is the greatest key of `table`.
pub open spec fn is_greatest_key(table: Map<usize, usize>, key: usize) -> bool {
    table.contains_key(key) && forall|other: usize| table.contains_key(other) ==> other <= key
}

/// The greatest key of `table`, and 0 if it has no key.
pub open spec fn greatest_key(table: Map<usize, usize>) -> usize {
    if exists|key: usize| is_greatest_key(table, key) {
        choose|key: usize| is_greatest_key(table, key)
    } else {
        0
    }
}

/// A map from line indices to lengths knows the lengths of the lines that
/// are its keys, and counts as many lines as its greatest key says. Nothing
/// makes it hold every line up to that one, nor keeps a length from being 0.
impl LineLength for HashMap<usize, usize> {
    open spec fn spec_line_length(&self, line: usize) -> Option<usize> {
        if self@.contains_key(line) {
            Some(self@[line])
        } else {
            None
        }
    }

    open spec fn spec_lines_count(&self) -> usize {
        greatest_key(self@)
    }

    fn line_length(&self, line: usize) -> (r: Option<usize>) {
        match self.get(&line) {
            Some(length) => Some(*length),
            None => None,
        }
    }

    fn lines_count(&self) -> (r: usize) {
        let mut greatest: usize = 0;
        let mut found = false;
        for key in it: self.keys()
            invariant
                found ==> self@.contains_key(greatest),
                !found ==> greatest == 0 && it.index() == 0,
                forall|i: int| 0 <= i < it.index() ==> *it.seq()[i] <= greatest,
        {
            if !found || *key > greatest {
                greatest = *key;
                found = true;
            }
        }
        proof {
            if found {
                assert(is_greatest_key(self@, greatest));
                let other = choose|key: usize| is_greatest_key(self@, key);
                assert(other == greatest);
            } else {
                assert forall|key: usize| !is_greatest_key(self@, key) by {}
            }
        }
        greatest
    }
}

} // verus!
