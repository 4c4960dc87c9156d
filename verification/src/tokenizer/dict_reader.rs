//! Dictionaries from lists of words and from texts with one word on each
//! line.

use crate::four_bytes_str::custom_string::CustomString;
use crate::tokenizer::tokenizer_trait::string_views;
use crate::tokenizer::trie_char::{dictionary_of, TrieChar};
use vstd::prelude::*;

verus! {

/// Where the words of a dictionary come from.
pub enum DictSource {
    /// A text with one word on each line, as a dictionary file holds it.
    Text(String),
    /// A list of words.
    WordList(Vec<String>),
}

/// The lines of `text`: what stands between its line feeds.
pub open spec fn lines_of(text: Seq<char>) -> Seq<Seq<char>>
    decreases text.len(),
{
    if text.len() == 0 {
        seq![Seq::<char>::empty()]
    } else {
        let before = lines_of(text.drop_last());
        if text.last() == '\n' {
            before.push(Seq::<char>::empty())
        } else {
            before.drop_last().push(before.last().push(text.last()))
        }
    }
}

/// The words that `source` holds: the words of the list, or the lines of
/// the text.
pub open spec fn source_words(source: DictSource) -> Seq<Seq<char>> {
    match source {
        DictSource::Text(text) => lines_of(text@),
        DictSource::WordList(word_list) => string_views(word_list@),
    }
}

/// The dictionary of the words of `source`: each word without the white
/// space at its ends, which takes a carriage return off the end of a line,
/// and without the words of which nothing is left, such as empty lines.
pub fn create_dict_trie(source: DictSource) -> (r: TrieChar)
    ensures
        r.wf(),
        r@ == dictionary_of(source_words(source)),
{
    match source {
        DictSource::Text(text) => {
            let mut trie = TrieChar::new(&[]);
            let mut line: Vec<char> = Vec::new();
            let ghost mut done: Seq<Seq<char>> = Seq::empty();
            proof {
                assert(crate::tokenizer::trie_char::word_views(Seq::<CustomString>::empty())
                    =~= Seq::<Seq<char>>::empty());
                assert(text@.take(0) =~= Seq::<char>::empty());
                assert(done.push(line@) =~= lines_of(text@.take(0)));
            }
            for c in it: text.as_str().chars()
                invariant
                    it.seq() == text@,
                    trie.wf(),
                    trie@ == dictionary_of(done),
                    lines_of(text@.take(it.index() as int)) == done.push(line@),
            {
                proof {
                    let upto = text@.take(it.index() + 1);
                    assert(upto.drop_last() =~= text@.take(it.index() as int));
                    assert(upto.last() == c);
                    assert(done.push(line@).drop_last() =~= done);
                }
                if c == '\n' {
                    proof {
                        assert(done.push(line@).drop_last() =~= done);
                        done = done.push(line@);
                    }
                    trie.add(&CustomString::from(line));
                    line = Vec::new();
                } else {
                    line.push(c);
                }
            }
            proof {
                assert(text@.take(text@.len() as int) =~= text@);
                assert(done.push(line@).drop_last() =~= done);
            }
            trie.add(&CustomString::from(line));
            trie
        },
        DictSource::WordList(word_list) => {
            let mut trie = TrieChar::new(&[]);
            let mut index: usize = 0;
            proof {
                assert(crate::tokenizer::trie_char::word_views(Seq::<CustomString>::empty())
                    =~= Seq::<Seq<char>>::empty());
                assert(string_views(word_list@).take(0) =~= Seq::<Seq<char>>::empty());
            }
            while index < word_list.len()
                invariant
                    index <= word_list@.len(),
                    trie.wf(),
                    trie@ == dictionary_of(string_views(word_list@).take(index as int)),
                decreases word_list@.len() - index,
            {
                proof {
                    let next = string_views(word_list@).take(index + 1);
                    assert(next.drop_last() =~= string_views(word_list@).take(index as int));
                    assert(next.last() == word_list@[index as int]@);
                }
                trie.add(&CustomString::new(word_list[index].as_str()));
                index += 1;
            }
            assert(string_views(word_list@).take(index as int) =~= string_views(word_list@));
            trie
        },
    }
}

} // verus!
