//! Tokens that need no dictionary: runs of Latin letters, groups of digits,
//! blanks, line ends, and single Thai or white space characters.

use crate::four_bytes_str::custom_string::{is_whitespace, is_whitespace_char};
use vstd::prelude::*;

verus! {

/// The kinds of character that a run is made of.
#[derive(Clone, Copy, PartialEq, Eq, Structural)]
pub enum CharKind {
    /// A Latin letter or a hyphen.
    Latin,
    /// A digit from `0` to `9`.
    AsciiDigit,
    /// A Thai digit.
    ThaiDigit,
    /// A space or a tab.
    Blank,
}

impl CharKind {
    /// Whether `c` is of the kind.
    pub open spec fn contains(self, c: char) -> bool {
        match self {
            CharKind::Latin => c == '-' || 'A' <= c <= 'Z' || 'a' <= c <= 'z',
            CharKind::AsciiDigit => '0' <= c <= '9',
            CharKind::ThaiDigit => '\u{0E50}' <= c <= '\u{0E59}',
            CharKind::Blank => c == ' ' || c == '\t',
        }
    }

    /// Whether `c` is of the kind.
    pub fn holds(self, c: char) -> (r: bool)
        ensures
            r == self.contains(c),
    {
        match self {
            CharKind::Latin => c == '-' || ('A' <= c && c <= 'Z') || ('a' <= c && c <= 'z'),
            CharKind::AsciiDigit => '0' <= c && c <= '9',
            CharKind::ThaiDigit => '\u{0E50}' <= c && c <= '\u{0E59}',
            CharKind::Blank => c == ' ' || c == '\t',
        }
    }
}

/// A comma or a full stop, which may stand between the digits of a group.
pub open spec fn is_separator(c: char) -> bool {
    c == ',' || c == '.'
}

/// A character of the Thai block.
pub open spec fn is_thai(c: char) -> bool {
    '\u{0E00}' <= c <= '\u{0E7F}'
}

/// A Thai consonant.
pub open spec fn is_thai_consonant(c: char) -> bool {
    '\u{0E01}' <= c <= '\u{0E2E}'
}

/// Where the run of characters of `kind` that starts at `from` ends.
pub open spec fn run_end(text: Seq<char>, from: int, kind: CharKind) -> int
    decreases text.len() - from,
{
    if 0 <= from < text.len() && kind.contains(text[from]) {
        run_end(text, from + 1, kind)
    } else {
        from
    }
}

/// Where a group of digits ends whose first run of digits ends at `from`:
/// after the last run of digits that follows a separator.
pub open spec fn group_end(text: Seq<char>, from: int, kind: CharKind) -> int
    decreases text.len() - from,
{
    if 0 <= from && from + 1 < text.len() && is_separator(text[from]) && kind.contains(
        text[from + 1],
    ) {
        let next = run_end(text, from + 1, kind);
        if from < next <= text.len() {
            group_end(text, next, kind)
        } else {
            from
        }
    } else {
        from
    }
}

/// Where the token ends that starts at `from` and needs no dictionary, if
/// there is one: a run of Latin letters; a group of digits; a group of Thai
/// digits; a run of blanks; a line end; one Thai or white space character.
pub open spec fn non_dict_end(text: Seq<char>, from: int) -> Option<int> {
    if !(0 <= from < text.len()) {
        None
    } else if CharKind::Latin.contains(text[from]) {
        Some(run_end(text, from, CharKind::Latin))
    } else if CharKind::AsciiDigit.contains(text[from]) {
        Some(group_end(text, run_end(text, from, CharKind::AsciiDigit), CharKind::AsciiDigit))
    } else if CharKind::ThaiDigit.contains(text[from]) {
        Some(group_end(text, run_end(text, from, CharKind::ThaiDigit), CharKind::ThaiDigit))
    } else if CharKind::Blank.contains(text[from]) {
        Some(run_end(text, from, CharKind::Blank))
    } else if text[from] == '\n' {
        Some(from + 1)
    } else if text[from] == '\r' && from + 1 < text.len() && text[from + 1] == '\n' {
        Some(from + 2)
    } else if is_thai(text[from]) || is_whitespace_char(text[from]) {
        Some(from + 1)
    } else {
        None
    }
}

/// A word of at most two characters, all of them Thai consonants.
pub open spec fn is_short_consonant_run(word: Seq<char>) -> bool {
    word.len() <= 2 && forall|i: int| 0 <= i < word.len() ==> is_thai_consonant(#[trigger] word[i])
}

/// A run is not empty where its first character is of the kind, and ends
/// inside the text.
pub proof fn lemma_run_end_bounds(text: Seq<char>, from: int, kind: CharKind)
    requires
        0 <= from <= text.len(),
    ensures
        from <= run_end(text, from, kind) <= text.len(),
        from < text.len() && kind.contains(text[from]) ==> from < run_end(text, from, kind),
    decreases text.len() - from,
{
    if from < text.len() && kind.contains(text[from]) {
        lemma_run_end_bounds(text, from + 1, kind);
    }
}

/// A group of digits ends at or after its first run, inside the text.
pub proof fn lemma_group_end_bounds(text: Seq<char>, from: int, kind: CharKind)
    requires
        0 <= from <= text.len(),
    ensures
        from <= group_end(text, from, kind) <= text.len(),
    decreases text.len() - from,
{
    if from + 1 < text.len() && is_separator(text[from]) && kind.contains(text[from + 1]) {
        lemma_run_end_bounds(text, from + 1, kind);
        let next = run_end(text, from + 1, kind);
        lemma_group_end_bounds(text, next, kind);
    }
}

/// A token that needs no dictionary is not empty and ends inside the text.
pub proof fn lemma_non_dict_end_bounds(text: Seq<char>, from: int)
    requires
        non_dict_end(text, from) is Some,
    ensures
        0 <= from < non_dict_end(text, from)->0 <= text.len(),
{
    lemma_run_end_bounds(text, from, CharKind::Latin);
    lemma_run_end_bounds(text, from, CharKind::AsciiDigit);
    lemma_run_end_bounds(text, from, CharKind::ThaiDigit);
    lemma_run_end_bounds(text, from, CharKind::Blank);
    lemma_group_end_bounds(text, run_end(text, from, CharKind::AsciiDigit), CharKind::AsciiDigit);
    lemma_group_end_bounds(text, run_end(text, from, CharKind::ThaiDigit), CharKind::ThaiDigit);
}

/// Where the run of characters of `kind` that starts at `from` ends.
fn scan_run(text: &[char], from: usize, kind: CharKind) -> (end: usize)
    requires
        from <= text@.len(),
    ensures
        end == run_end(text@, from as int, kind),
        from <= end <= text@.len(),
{
    let mut end: usize = from;
    while end < text.len() && kind.holds(text[end])
        invariant
            from <= end <= text@.len(),
            run_end(text@, from as int, kind) == run_end(text@, end as int, kind),
        decreases text@.len() - end,
    {
        end += 1;
    }
    end
}

/// Where the group of digits ends whose first run of digits ends at `from`.
fn scan_group(text: &[char], from: usize, kind: CharKind) -> (end: usize)
    requires
        from <= text@.len(),
    ensures
        end == group_end(text@, from as int, kind),
        from <= end <= text@.len(),
{
    let n: usize = text.len();
    let mut end: usize = from;
    let mut more: bool = true;
    while more
        invariant
            n == text@.len(),
            from <= end <= n,
            group_end(text@, from as int, kind) == group_end(text@, end as int, kind),
            !more ==> group_end(text@, end as int, kind) == end,
        decreases text@.len() - end + (if more { 1int } else { 0int }),
    {
        if n - end > 1 && (text[end] == ',' || text[end] == '.')
            && kind.holds(text[end + 1]) {
            proof {
                lemma_run_end_bounds(text@, end + 1, kind);
            }
            end = scan_run(text, end + 1, kind);
        } else {
            more = false;
        }
    }
    end
}

/// Where the token ends that starts at `from` and needs no dictionary, if
/// there is one.
pub fn non_dict_match(text: &[char], from: usize) -> (r: Option<usize>)
    ensures
        r is Some == non_dict_end(text@, from as int) is Some,
        r is Some ==> r->0 == non_dict_end(text@, from as int)->0,
        r is Some ==> from < r->0 <= text@.len(),
{
    if from >= text.len() {
        return None;
    }
    proof {
        if non_dict_end(text@, from as int) is Some {
            lemma_non_dict_end_bounds(text@, from as int);
        }
    }
    let c: char = text[from];
    if CharKind::Latin.holds(c) {
        Some(scan_run(text, from, CharKind::Latin))
    } else if CharKind::AsciiDigit.holds(c) {
        let digits: usize = scan_run(text, from, CharKind::AsciiDigit);
        Some(scan_group(text, digits, CharKind::AsciiDigit))
    } else if CharKind::ThaiDigit.holds(c) {
        let digits: usize = scan_run(text, from, CharKind::ThaiDigit);
        Some(scan_group(text, digits, CharKind::ThaiDigit))
    } else if CharKind::Blank.holds(c) {
        Some(scan_run(text, from, CharKind::Blank))
    } else if c == '\n' {
        Some(from + 1)
    } else if c == '\r' && from + 1 < text.len() && text[from + 1] == '\n' {
        Some(from + 2)
    } else if ('\u{0E00}' <= c && c <= '\u{0E7F}') || is_whitespace(c) {
        Some(from + 1)
    } else {
        None
    }
}

/// Whether `word` has at most two characters, all of them Thai consonants.
pub fn is_two_thai_consonants(word: &[char]) -> (r: bool)
    ensures
        r == is_short_consonant_run(word@),
{
    if word.len() > 2 {
        return false;
    }
    let mut index: usize = 0;
    while index < word.len()
        invariant
            index <= word@.len() <= 2,
            forall|i: int| 0 <= i < index ==> is_thai_consonant(#[trigger] word@[i]),
        decreases word@.len() - index,
    {
        let c: char = word[index];
        if !('\u{0E01}' <= c && c <= '\u{0E2E}') {
            return false;
        }
        index += 1;
    }
    true
}

} // verus!
