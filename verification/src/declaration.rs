//! Declarations of instances: an identifier, and the interfaces the instance requires.
//!
//! A declaration is written as the instance's identifier, followed, where the
//! instance requires anything, by the required interfaces between `<` and `>`,
//! separated by commas: `DebugLibBase<PrintLib, WriteLib>`.

use vstd::prelude::*;
use crate::config::LibraryInstance;
use crate::text::{
    chars_of, cut, find_char, first_index, names_between, names_in, trim_range, trimmed,
};

verus! {

/// The identifier of the instance that `path` declares: what stands before the first
/// `<`, without the blanks around it.
pub open spec fn concrete_id_of(path: Seq<char>) -> Seq<char> {
    trimmed(path.take(first_index(path, '<')))
}

/// The interfaces that the instance declared by `path` requires: the names listed
/// after the first `<`, up to the `>` that follows it or to the end.
pub open spec fn required_of(path: Seq<char>) -> Seq<Seq<char>> {
    let open = first_index(path, '<');
    if open >= path.len() {
        Seq::empty()
    } else {
        let inner = path.skip(open + 1);
        names_in(inner.take(first_index(inner, '>')))
    }
}

impl LibraryInstance {
    /// The identifier of the declared instance.
    pub fn concrete_id(&self) -> (out: String)
        ensures
            out@ == concrete_id_of(self.path@),
    {
        let chars = chars_of(self.path.as_str());
        let open = find_char(&chars, 0, chars.len(), '<');
        assert(chars@.subrange(0, chars.len() as int) =~= chars@);
        let (a, b) = trim_range(&chars, 0, open);
        cut(self.path.as_str(), a, b)
    }

    /// The interfaces that the declared instance requires, in the order in which the
    /// declaration lists them.
    pub fn required_interfaces(&self) -> (out: Vec<String>)
        ensures
            out.deep_view() == required_of(self.path@),
    {
        let chars = chars_of(self.path.as_str());
        let open = find_char(&chars, 0, chars.len(), '<');
        assert(chars@.subrange(0, chars.len() as int) =~= chars@);
        if open >= chars.len() {
            let out: Vec<String> = Vec::new();
            return out;
        }
        let close = find_char(&chars, open + 1, chars.len(), '>');
        let ghost inner = chars@.skip(open + 1);
        assert(chars@.subrange(open + 1, close as int) =~= inner.take(close - (open + 1)));
        names_between(self.path.as_str(), &chars, open + 1, close)
    }
}

} // verus!
