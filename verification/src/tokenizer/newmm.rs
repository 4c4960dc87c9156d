//! Word segmentation by maximal matching against a dictionary, with the
//! token boundaries held to the ends of Thai character clusters, and with a
//! limit on the number of candidate tokens that keeps the search short.

use crate::four_bytes_str::custom_string::{
    four_bytes_of, lemma_four_byte_content_group, lemma_four_bytes_of, rfind_space_char_index,
    space_bytes, CustomString,
};
use crate::tokenizer::search::{cuts_cover, one_cut, one_cut_search, token_start};
use crate::tokenizer::tokenizer_trait::{concat, string_views, Tokenizer};
use crate::tokenizer::dict_reader::{create_dict_trie, DictSource};
use crate::tokenizer::trie_char::{dictionary_of, with_words, without_words, TrieChar};
use crate::tokenizer::ways::{ints_of, BFSSearchError};
use vstd::prelude::*;
use vstd::utf8::*;

verus! {

/// The middle of the window in which a long text is cut, for the safe mode.
pub const TEXT_SCAN_POINT: usize = 120;

/// How far the window reaches to the left of its middle.
pub const TEXT_SCAN_LEFT: usize = 20;

/// How far the window reaches to the right of its middle.
pub const TEXT_SCAN_RIGHT: usize = 20;

/// Where the window starts.
pub const TEXT_SCAN_BEGIN: usize = 100;

/// Where the window ends: a text of fewer characters is not cut.
pub const TEXT_SCAN_END: usize = 140;

/// The tokens of `text` that end at `cuts`.
pub open spec fn tokens_of(text: Seq<char>, cuts: Seq<int>) -> Seq<Seq<char>> {
    Seq::new(cuts.len(), |i: int| text.subrange(token_start(cuts, i), cuts[i]))
}

/// The index of the last space of `s`.
pub open spec fn last_space(s: Seq<char>) -> Option<int>
    decreases s.len(),
{
    if s.len() == 0 {
        None
    } else if s.last() == ' ' {
        Some(s.len() - 1)
    } else {
        last_space(s.drop_last())
    }
}

/// Of the first `k` of the tokens that end at `cuts`, the index of the
/// longest, and of the last of them where several are as long.
pub open spec fn longest_token(cuts: Seq<int>, k: nat) -> int
    decreases k,
{
    if k <= 1 {
        0
    } else {
        let before = longest_token(cuts, (k - 1) as nat);
        if cuts[k - 1] - token_start(cuts, k - 1) >= cuts[before] - token_start(cuts, before) {
            k - 1
        } else {
            before
        }
    }
}

/// Where a text of at least `TEXT_SCAN_END` characters is cut: in the
/// window, after its last space; where it holds no space, before the
/// longest token of the window.
pub open spec fn window_cut(text: Seq<char>, dict: Set<Seq<char>>) -> int {
    let sample = text.subrange(TEXT_SCAN_BEGIN as int, TEXT_SCAN_END as int);
    match last_space(sample) {
        Some(i) => TEXT_SCAN_BEGIN + i + 1,
        None => {
            let cuts = one_cut_search(sample, dict).cuts;
            TEXT_SCAN_BEGIN + token_start(cuts, longest_token(cuts, cuts.len()))
        },
    }
}

/// Where the parts end into which the safe mode cuts `text` from `from` on.
pub open spec fn parts_from(text: Seq<char>, dict: Set<Seq<char>>, from: int) -> Seq<int>
    decreases text.len() - from,
{
    if from < 0 || text.len() - from < TEXT_SCAN_END {
        if 0 <= from < text.len() {
            seq![text.len() as int]
        } else {
            Seq::empty()
        }
    } else {
        let cut = window_cut(text.skip(from), dict);
        if 0 < cut <= text.len() - from {
            seq![from + cut] + parts_from(text, dict, from + cut)
        } else {
            Seq::empty()
        }
    }
}

/// The indices of `cuts`, each moved by `by`.
pub open spec fn shifted(cuts: Seq<int>, by: int) -> Seq<int> {
    Seq::new(cuts.len(), |i: int| cuts[i] + by)
}

/// Where the tokens end of the first `k` of the parts of `text` that end
/// at `ends`, each part segmented by itself.
pub open spec fn cuts_of_parts(text: Seq<char>, dict: Set<Seq<char>>, ends: Seq<int>, k: nat) -> Seq<int>
    decreases k,
{
    if k == 0 {
        Seq::empty()
    } else {
        let start = token_start(ends, k - 1);
        cuts_of_parts(text, dict, ends, (k - 1) as nat) + shifted(
            one_cut_search(text.subrange(start, ends[k - 1]), dict).cuts,
            start,
        )
    }
}

/// Where the tokens of `text` end. With `safe`, a text of at least
/// `TEXT_SCAN_END` characters is cut into parts that are segmented one by
/// one.
pub open spec fn segment_cuts(text: Seq<char>, dict: Set<Seq<char>>, safe: bool) -> Seq<int> {
    if !safe || text.len() < TEXT_SCAN_END {
        one_cut_search(text, dict).cuts
    } else {
        let ends = parts_from(text, dict, 0);
        cuts_of_parts(text, dict, ends, ends.len())
    }
}

/// A text of fewer than `TEXT_SCAN_END` characters is segmented in the
/// same way with and without the safe mode.
pub proof fn lemma_modes_agree(text: Seq<char>, dict: Set<Seq<char>>)
    requires
        text.len() < TEXT_SCAN_END,
    ensures
        segment_cuts(text, dict, true) == segment_cuts(text, dict, false),
{
}

/// The tokens that end at the first `k` of the `cuts` are, put together,
/// the text up to the last of them.
proof fn lemma_concat_upto(text: Seq<char>, cuts: Seq<int>, k: int)
    requires
        cuts_cover(cuts, text.len() as int),
        0 <= k <= cuts.len(),
    ensures
        concat(tokens_of(text, cuts).take(k)) == text.take(token_start(cuts, k)),
    decreases k,
{
    let tokens = tokens_of(text, cuts);
    if k == 0 {
        assert(tokens.take(0) =~= Seq::<Seq<char>>::empty());
        assert(text.take(0) =~= Seq::<char>::empty());
    } else {
        lemma_concat_upto(text, cuts, k - 1);
        assert(tokens.take(k).drop_last() =~= tokens.take(k - 1));
        assert(tokens.take(k).last() == tokens[k - 1]);
        if k - 1 > 0 {
            assert(cuts[k - 2] < cuts[k - 1]);
        }
        assert(text.take(token_start(cuts, k - 1)) + text.subrange(
            token_start(cuts, k - 1),
            cuts[k - 1],
        ) =~= text.take(cuts[k - 1]));
    }
}

/// Tokens that end at indices that go up from above zero to the length of
/// the text are not empty and are, put together, the text.
pub proof fn lemma_tokens_rebuild(text: Seq<char>, cuts: Seq<int>)
    requires
        cuts_cover(cuts, text.len() as int),
    ensures
        concat(tokens_of(text, cuts)) == text,
        forall|i: int| 0 <= i < cuts.len() ==> (#[trigger] tokens_of(text, cuts)[i]).len() > 0,
{
    lemma_concat_upto(text, cuts, cuts.len() as int);
    assert(tokens_of(text, cuts).take(cuts.len() as int) =~= tokens_of(text, cuts));
    if text.len() == 0 {
        assert(text.take(0) =~= text);
    } else {
        assert(text.take(text.len() as int) =~= text);
    }
    assert forall|i: int| 0 <= i < cuts.len() implies (#[trigger] tokens_of(text, cuts)[i]).len()
        > 0 by {
        if i > 0 {
            assert(cuts[i - 1] < cuts[i]);
        }
    }
}

/// The tokens of `input` that end at `cuts`, each as a `String`.
pub fn tokens_to_strings(input: &CustomString, cuts: &Vec<usize>) -> (tokens: Vec<String>)
    requires
        cuts_cover(ints_of(cuts@), input@.len() as int),
    ensures
        string_views(tokens@) == tokens_of(input@, ints_of(cuts@)),
{
    let ghost marks = ints_of(cuts@);
    let mut tokens: Vec<String> = Vec::with_capacity(cuts.len());
    let mut start: usize = 0;
    let mut index: usize = 0;
    while index < cuts.len()
        invariant
            marks == ints_of(cuts@),
            cuts_cover(marks, input@.len() as int),
            index <= cuts@.len(),
            start == token_start(marks, index as int),
            tokens@.len() == index,
            forall|i: int| 0 <= i < index ==> (#[trigger] tokens@[i])@ == tokens_of(input@, marks)[i],
        decreases cuts@.len() - index,
    {
        let end: usize = cuts[index];
        proof {
            assert(marks[index as int] == end);
            if index > 0 {
                assert(marks[index - 1] < marks[index as int]);
            }
        }
        let token = input.substring(start, end).to_std_string();
        tokens.push(token);
        start = end;
        index += 1;
    }
    assert(string_views(tokens@) =~= tokens_of(input@, marks));
    tokens
}


/// Only the space has the four bytes of a space.
proof fn lemma_space_char(c: char)
    ensures
        (four_bytes_of(c) == space_bytes()) <==> c == ' ',
{
    lemma_four_bytes_of(c);
    let v = c as u32;
    let b = four_bytes_of(c);
    if has_width_1_encoding(v) {
        assert(b[3] == leading_byte_width_1(v));
        assert(v <= 0x7F ==> (((v & 0x7F) as u8 == 32u8) <==> v == 32u32)) by (bit_vector);
        if v == 32 {
            assert(b =~= space_bytes());
        }
    } else if has_width_2_encoding(v) {
        assert(b[2] == leading_byte_width_2(v));
        let x = ((v >> 6) & 0x1F) as u8;
        assert(0xC0u8 | x != 0u8) by (bit_vector);
    } else if has_width_3_encoding(v) {
        assert(b[1] == leading_byte_width_3(v));
        let x = ((v >> 12) & 0x0F) as u8;
        assert(0xE0u8 | x != 0u8) by (bit_vector);
    } else {
        assert(b[0] == leading_byte_width_4(v));
        let x = ((v >> 18) & 0x7) as u8;
        assert(0xF0u8 | x != 0u8) by (bit_vector);
    }
}

/// The index of the last space is an index of a space after which there is
/// no space.
proof fn lemma_last_space(s: Seq<char>)
    ensures
        last_space(s) is Some ==> 0 <= last_space(s)->0 < s.len() && s[last_space(s)->0] == ' '
            && forall|j: int| last_space(s)->0 < j < s.len() ==> s[j] != ' ',
        last_space(s) is None ==> forall|j: int| 0 <= j < s.len() ==> s[j] != ' ',
    decreases s.len(),
{
    if s.len() > 0 && s.last() != ' ' {
        lemma_last_space(s.drop_last());
        assert forall|j: int| 0 <= j < s.len() - 1 implies s[j] == s.drop_last()[j] by {}
    }
}

/// Where a text of at least `TEXT_SCAN_END` characters is cut.
fn window_cut_pos(txt: &CustomString, custom_dict: &TrieChar) -> (cut: usize)
    requires
        custom_dict.wf(),
        txt@.len() >= TEXT_SCAN_END,
    ensures
        cut == window_cut(txt@, custom_dict@),
        TEXT_SCAN_BEGIN <= cut <= TEXT_SCAN_END,
{
    let sample = txt.substring(TEXT_SCAN_BEGIN, TEXT_SCAN_END);
    let space_char_index = rfind_space_char_index(sample.raw_content());
    proof {
        lemma_last_space(sample@);
        assert forall|j: int| 0 <= j < sample@.len() implies ((#[trigger] sample@[j]) == ' ')
            == (crate::four_bytes_str::custom_string::char_bytes_at(
            crate::four_bytes_str::custom_string::four_byte_content(sample@),
            j,
        ) == space_bytes()) by {
            lemma_four_byte_content_group(sample@, j);
            lemma_space_char(sample@[j]);
        }
    }
    match space_char_index {
        Some(index) => {
            proof {
                assert(sample@[index as int] == ' ');
                if last_space(sample@) is Some {
                    let other = last_space(sample@)->0;
                    if other < index {
                        assert(sample@[index as int] != ' ');
                    }
                    if other > index {
                        assert(sample@[other] == ' ');
                    }
                }
            }
            TEXT_SCAN_BEGIN + index + 1
        },
        None => {
            proof {
                if last_space(sample@) is Some {
                    assert(sample@[last_space(sample@)->0] == ' ');
                }
            }
            let word_tokens: Vec<usize> = one_cut(&sample, custom_dict);
            let ghost marks = ints_of(word_tokens@);
            let mut token_max_length: usize = 0;
            let mut max_start: usize = 0;
            let mut start: usize = 0;
            let mut idx: usize = 0;
            let ghost mut token_max_index: int = 0;
            while idx < word_tokens.len()
                invariant
                    marks == ints_of(word_tokens@),
                    cuts_cover(marks, sample@.len() as int),
                    sample@.len() == TEXT_SCAN_END - TEXT_SCAN_BEGIN,
                    idx <= word_tokens@.len(),
                    start == token_start(marks, idx as int),
                    token_max_index == longest_token(marks, idx as nat),
                    max_start == token_start(marks, token_max_index),
                    idx > 0 ==> 0 <= token_max_index < idx && token_max_length
                        == marks[token_max_index] - max_start,
                    idx == 0 ==> token_max_length == 0,
                    max_start <= sample@.len(),
                decreases word_tokens@.len() - idx,
            {
                let end: usize = word_tokens[idx];
                proof {
                    assert(marks[idx as int] == end);
                    if idx > 0 {
                        assert(marks[idx - 1] < marks[idx as int]);
                    }
                }
                if end - start >= token_max_length {
                    token_max_length = end - start;
                    max_start = start;
                    proof {
                        token_max_index = idx as int;
                    }
                }
                start = end;
                idx += 1;
            }
            TEXT_SCAN_BEGIN + max_start
        },
    }
}

/// Where the parts end into which the safe mode cuts `input`, counted in
/// characters from the start of `input`.
pub fn split_parts(input: &CustomString, custom_dict: &TrieChar) -> (ends: Vec<usize>)
    requires
        custom_dict.wf(),
    ensures
        ints_of(ends@) == parts_from(input@, custom_dict@, 0),
        cuts_cover(ints_of(ends@), input@.len() as int),
{
    let text_length: usize = input.chars_len();
    let ghost text = input@;
    let ghost dict = custom_dict@;
    let mut ends: Vec<usize> = Vec::new();
    let mut offset: usize = 0;
    proof {
        assert(ints_of(ends@) =~= Seq::<int>::empty());
        assert(ints_of(ends@) + parts_from(text, dict, 0) =~= parts_from(text, dict, 0));
    }
    while text_length - offset >= TEXT_SCAN_END
        invariant
            custom_dict.wf(),
            text == input@,
            dict == custom_dict@,
            text_length == text.len(),
            offset <= text_length,
            parts_from(text, dict, 0) == ints_of(ends@) + parts_from(text, dict, offset as int),
            forall|i: int| 0 <= i < ends@.len() ==> 0 < #[trigger] ends@[i] <= offset,
            forall|i: int, j: int| 0 <= i < j < ends@.len() ==> ends@[i] < ends@[j],
            ends@.len() > 0 ==> ends@[ends@.len() - 1] == offset,
            ends@.len() == 0 ==> offset == 0,
        decreases text_length - offset,
    {
        let txt = input.substring(offset, text_length);
        proof {
            assert(txt@ =~= text.skip(offset as int));
        }
        let cut_pos: usize = window_cut_pos(&txt, custom_dict);
        let ghost before = ends@;
        ends.push(offset + cut_pos);
        proof {
            let rest = parts_from(text, dict, offset + cut_pos);
            assert(ints_of(ends@) =~= ints_of(before).push((offset + cut_pos) as int));
            assert(ints_of(before) + (seq![(offset + cut_pos) as int] + rest) =~= ints_of(ends@)
                + rest);
            assert forall|i: int, j: int| 0 <= i < j < ends@.len() implies ends@[i] < ends@[j] by {
                assert(ends@[i] == before[i]);
                if j < before.len() {
                    assert(ends@[j] == before[j]);
                }
            }
            assert forall|i: int| 0 <= i < ends@.len() implies 0 < #[trigger] ends@[i] <= offset
                + cut_pos by {
                if i < before.len() {
                    assert(ends@[i] == before[i]);
                }
            }
        }
        offset = offset + cut_pos;
    }
    if offset < text_length {
        let ghost before = ends@;
        ends.push(text_length);
        proof {
            assert(ints_of(ends@) =~= ints_of(before) + seq![text_length as int]);
            assert forall|i: int, j: int| 0 <= i < j < ends@.len() implies ends@[i] < ends@[j] by {
                assert(ends@[i] == before[i]);
                if j < before.len() {
                    assert(ends@[j] == before[j]);
                }
            }
            assert forall|i: int| 0 <= i < ends@.len() implies 0 < #[trigger] ends@[i]
                <= text_length by {
                if i < before.len() {
                    assert(ends@[i] == before[i]);
                }
            }
        }
    } else {
        proof {
            assert(ints_of(ends@) + Seq::<int>::empty() =~= ints_of(ends@));
        }
    }
    proof {
        let marks = ints_of(ends@);
        assert(cuts_cover(marks, text_length as int)) by {
            assert forall|i: int| 0 <= i < marks.len() implies 0 < #[trigger] marks[i]
                <= text_length by {
                assert(marks[i] == ends@[i]);
            }
            assert forall|i: int, j: int| 0 <= i < j < marks.len() implies marks[i] < marks[j] by {
                assert(marks[i] == ends@[i]);
                assert(marks[j] == ends@[j]);
            }
        }
    }
    ends
}

/// Where the tokens of `input` end. With `safe`, an input of at least
/// `TEXT_SCAN_END` characters is cut into parts that are segmented one by
/// one.
pub fn segment_positions(input: &CustomString, custom_dict: &TrieChar, safe: bool) -> (cuts: Vec<usize>)
    requires
        custom_dict.wf(),
    ensures
        ints_of(cuts@) == segment_cuts(input@, custom_dict@, safe),
        cuts_cover(ints_of(cuts@), input@.len() as int),
{
    if !safe || input.chars_len() < TEXT_SCAN_END {
        return one_cut(input, custom_dict);
    }
    let ghost text = input@;
    let ghost dict = custom_dict@;
    let text_length: usize = input.chars_len();
    let ends: Vec<usize> = split_parts(input, custom_dict);
    let ghost marks = ints_of(ends@);
    let mut all: Vec<usize> = Vec::new();
    let mut start: usize = 0;
    let mut index: usize = 0;
    proof {
        assert(ints_of(all@) =~= Seq::<int>::empty());
    }
    while index < ends.len()
        invariant
            custom_dict.wf(),
            text == input@,
            dict == custom_dict@,
            text_length == text.len(),
            marks == ints_of(ends@),
            parts_from(text, dict, 0) == marks,
            safe && text.len() >= TEXT_SCAN_END,
            cuts_cover(marks, text_length as int),
            index <= ends@.len(),
            start == token_start(marks, index as int),
            start <= text_length,
            cuts_of_parts(text, dict, marks, index as nat) == ints_of(all@),
            forall|i: int| 0 <= i < all@.len() ==> 0 < #[trigger] all@[i] <= start,
            forall|i: int, j: int| 0 <= i < j < all@.len() ==> all@[i] < all@[j],
            all@.len() > 0 ==> all@[all@.len() - 1] == start,
            all@.len() == 0 ==> start == 0,
        decreases ends@.len() - index,
    {
        let end: usize = ends[index];
        proof {
            assert(marks[index as int] == end);
            if index > 0 {
                assert(marks[index - 1] < marks[index as int]);
            }
        }
        let part = input.substring(start, end);
        let cuts: Vec<usize> = one_cut(&part, custom_dict);
        let ghost part_marks = ints_of(cuts@);
        let ghost all_before = all@;
        let mut k: usize = 0;
        while k < cuts.len()
            invariant
                part_marks == ints_of(cuts@),
                cuts_cover(part_marks, end - start),
                start < end <= text_length,
                k <= cuts@.len(),
                ints_of(all@) == ints_of(all_before) + shifted(part_marks, start as int).take(
                    k as int,
                ),
                forall|i: int| 0 <= i < all_before.len() ==> 0 < #[trigger] all_before[i] <= start,
                forall|i: int, j: int| 0 <= i < j < all@.len() ==> all@[i] < all@[j],
                forall|i: int| 0 <= i < all@.len() ==> 0 < #[trigger] all@[i] <= end,
                all@.len() == all_before.len() + k,
                k > 0 ==> all@[all@.len() - 1] == start + cuts@[k - 1],
            decreases cuts@.len() - k,
        {
            let cut: usize = cuts[k];
            let ghost so_far = all@;
            proof {
                assert(part_marks[k as int] == cut);
                if k > 0 {
                    assert(part_marks[k - 1] == cuts@[k - 1]);
                    assert(part_marks[k - 1] < part_marks[k as int]);
                }
            }
            all.push(start + cut);
            proof {
                assert(ints_of(all@) =~= ints_of(so_far).push((start + cut) as int));
                assert(shifted(part_marks, start as int).take(k + 1) =~= shifted(
                    part_marks,
                    start as int,
                ).take(k as int).push((start + cut) as int));
                assert(ints_of(all@) =~= ints_of(all_before) + shifted(part_marks, start as int).take(
                    k + 1,
                ));
                assert forall|i: int, j: int| 0 <= i < j < all@.len() implies all@[i] < all@[j] by {
                    assert(all@[i] == so_far[i]);
                    if j < so_far.len() {
                        assert(all@[j] == so_far[j]);
                    } else if i < all_before.len() {
                        assert(so_far[i] == all_before[i]) by {
                            assert(ints_of(so_far)[i] == ints_of(all_before)[i]);
                        }
                    }
                }
                assert forall|i: int| 0 <= i < all@.len() implies 0 < #[trigger] all@[i] <= end by {
                    if i < so_far.len() {
                        assert(all@[i] == so_far[i]);
                    }
                }
            }
            k += 1;
        }
        proof {
            assert(shifted(part_marks, start as int).take(cuts@.len() as int) =~= shifted(
                part_marks,
                start as int,
            ));
            assert(cuts@.len() > 0);
            assert(part_marks[cuts@.len() - 1] == cuts@[cuts@.len() - 1]);
        }
        start = end;
        index += 1;
    }
    proof {
        let cuts = ints_of(all@);
        assert(cuts_cover(cuts, text_length as int)) by {
            assert forall|i: int| 0 <= i < cuts.len() implies 0 < #[trigger] cuts[i]
                <= text_length by {
                assert(cuts[i] == all@[i]);
            }
            assert forall|i: int, j: int| 0 <= i < j < cuts.len() implies cuts[i] < cuts[j] by {
                assert(cuts[i] == all@[i]);
                assert(cuts[j] == all@[j]);
            }
        }
    }
    all
}

/// The tokens of `input`, in the order of the text. With `safe`, an input
/// of at least `TEXT_SCAN_END` characters is cut into parts that are
/// segmented one by one; `parallel` has no bearing on the result.
pub fn internal_segment(input: &CustomString, custom_dict: &TrieChar, safe: bool, parallel: bool) -> (tokens:
    Vec<String>)
    requires
        custom_dict.wf(),
    ensures
        string_views(tokens@) == tokens_of(input@, segment_cuts(input@, custom_dict@, safe)),
        concat(string_views(tokens@)) == input@,
        forall|i: int| 0 <= i < tokens@.len() ==> (#[trigger] tokens@[i])@.len() > 0,
{
    let cuts = segment_positions(input, custom_dict, safe);
    let tokens = tokens_to_strings(input, &cuts);
    proof {
        lemma_tokens_rebuild(input@, ints_of(cuts@));
        assert forall|i: int| 0 <= i < tokens@.len() implies (#[trigger] tokens@[i])@.len() > 0 by {
            assert(string_views(tokens@)[i] == tokens@[i]@);
        }
    }
    tokens
}

/// The characters of each string of `strings`.
pub open spec fn str_views(strings: Seq<&str>) -> Seq<Seq<char>> {
    Seq::new(strings.len(), |i: int| strings[i]@)
}

/// A word tokenizer with its dictionary.
#[derive(Debug)]
pub struct NewmmTokenizer {
    dict: TrieChar,
}

impl NewmmTokenizer {
    /// The dictionary is well formed.
    pub closed spec fn wf(&self) -> bool {
        self.dict.wf()
    }

    /// The words of the dictionary.
    pub closed spec fn dictionary(&self) -> Set<Seq<char>> {
        self.dict@
    }

    /// A tokenizer whose dictionary holds the words of `dict_text`, a text
    /// with one word on each line.
    pub fn new(dict_text: &str) -> (r: Self)
        ensures
            r.wf(),
            r.dictionary() == dictionary_of(crate::tokenizer::dict_reader::lines_of(dict_text@)),
    {
        NewmmTokenizer { dict: create_dict_trie(DictSource::Text(dict_text.to_owned())) }
    }

    /// A tokenizer whose dictionary holds the words of `word_list`.
    pub fn from_word_list(word_list: Vec<String>) -> (r: Self)
        ensures
            r.wf(),
            r.dictionary() == dictionary_of(string_views(word_list@)),
    {
        NewmmTokenizer { dict: create_dict_trie(DictSource::WordList(word_list)) }
    }

    /// The dictionary.
    pub fn dict(&self) -> (r: &TrieChar)
        requires
            self.wf(),
        ensures
            r.wf(),
            r@ == self.dictionary(),
    {
        &self.dict
    }

    /// Adds the words of `word_list` to the dictionary.
    pub fn add_word(&mut self, word_list: &[&str])
        requires
            old(self).wf(),
        ensures
            final(self).wf(),
            final(self).dictionary() == with_words(old(self).dictionary(), str_views(word_list@)),
    {
        let mut index: usize = 0;
        while index < word_list.len()
            invariant
                index <= word_list@.len(),
                self.dict.wf(),
                self.dict@ == with_words(old(self).dict@, str_views(word_list@).take(index as int)),
            decreases word_list@.len() - index,
        {
            proof {
                let next = str_views(word_list@).take(index + 1);
                assert(next.drop_last() =~= str_views(word_list@).take(index as int));
                assert(next.last() == word_list@[index as int]@);
            }
            self.dict.add(&CustomString::new(word_list[index]));
            index += 1;
        }
        assert(str_views(word_list@).take(index as int) =~= str_views(word_list@));
    }

    /// Removes the words of `word_list` from the dictionary.
    pub fn remove_word(&mut self, word_list: &[&str])
        requires
            old(self).wf(),
        ensures
            final(self).wf(),
            final(self).dictionary() == without_words(
                old(self).dictionary(),
                str_views(word_list@),
            ),
    {
        let mut index: usize = 0;
        while index < word_list.len()
            invariant
                index <= word_list@.len(),
                self.dict.wf(),
                self.dict@ == without_words(
                    old(self).dict@,
                    str_views(word_list@).take(index as int),
                ),
            decreases word_list@.len() - index,
        {
            proof {
                let next = str_views(word_list@).take(index + 1);
                assert(next.drop_last() =~= str_views(word_list@).take(index as int));
                assert(next.last() == word_list@[index as int]@);
            }
            self.dict.remove(&CustomString::new(word_list[index]));
            index += 1;
        }
        assert(str_views(word_list@).take(index as int) =~= str_views(word_list@));
    }
}

impl Tokenizer for NewmmTokenizer {
    open spec fn well_formed(&self) -> bool {
        self.wf()
    }

    fn segment(&self, text: &str, safe: bool, parallel: bool) -> (r: Result<
        Vec<String>,
        BFSSearchError,
    >)
        ensures
            r is Ok,
            string_views(r->Ok_0@) == tokens_of(text@, segment_cuts(text@, self.dictionary(), safe)),
    {
        Ok(internal_segment(&CustomString::new(text), &self.dict, safe, parallel))
    }

    fn segment_to_string(&self, text: &str, safe: bool, parallel: bool) -> (r: Vec<String>)
        ensures
            string_views(r@) == tokens_of(text@, segment_cuts(text@, self.dictionary(), safe)),
            concat(string_views(r@)) == text@,
    {
        internal_segment(&CustomString::new(text), &self.dict, safe, parallel)
    }
}

} // verus!
