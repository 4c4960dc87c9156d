//! What a word tokenizer offers.

use crate::tokenizer::ways::BFSSearchError;
use vstd::prelude::*;

verus! {

/// The characters of each string of `strings`.
pub open spec fn string_views(strings: Seq<String>) -> Seq<Seq<char>> {
    Seq::new(strings.len(), |i: int| strings[i]@)
}

/// The `tokens` put together, one after another.
pub open spec fn concat(tokens: Seq<Seq<char>>) -> Seq<char>
    decreases tokens.len(),
{
    if tokens.len() == 0 {
        Seq::empty()
    } else {
        concat(tokens.drop_last()) + tokens.last()
    }
}

/// A tokenizer cuts a text into tokens that, put together, are the text.
pub trait Tokenizer {
    /// What a tokenizer has to hold to be used.
    spec fn well_formed(&self) -> bool;

    /// The tokens of `text`, in the order of the text. With `safe`, a long
    /// text is cut into windows that are segmented one by one; `parallel`
    /// has no bearing on the result.
    fn segment(&self, text: &str, safe: bool, parallel: bool) -> (r: Result<
        Vec<String>,
        BFSSearchError,
    >)
        requires
            self.well_formed(),
        ensures
            r is Ok ==> concat(string_views(r->Ok_0@)) == text@,
            r is Ok ==> forall|i: int| 0 <= i < r->Ok_0@.len() ==> (#[trigger] r->Ok_0@[i])@.len() > 0,
    ;

    /// The tokens of `text`; no token where `segment` fails.
    fn segment_to_string(&self, text: &str, safe: bool, parallel: bool) -> (r: Vec<String>)
        requires
            self.well_formed(),
        ensures
            r@.len() > 0 ==> concat(string_views(r@)) == text@,
    ;
}

} // verus!
